//! The mesh builder: Poisson-disk packing of the interior, a ring of
//! outline particles, and the springs that join them.
use vstd::prelude::*;
use crate::geometry::{Point, sq_len, sq_dist, floor_sqrt, is_floor_sqrt, isqrt, tdiv, lemma_sq_len_nonneg,
    lemma_square_le};
use crate::random::{random_below, new_generator, seed_generator};
use macroquad::rand::RandGenerator;
use crate::params::BlobParams;
use crate::physics::{Particle, particles_bounded, coord_ok, POS_LIMIT, VEL_LIMIT};

verus! {

/// Candidates tried around an active sample before it is retired.
pub const SAMPLES: usize = 100;

/// Cell size of the sampling grid: the particle radius over the square root
/// of two, rounded down, and at least one.
pub open spec fn cell_size(particle_radius: int) -> int {
    let c = particle_radius * 181 / 256;
    if c < 1 {
        1
    } else {
        c
    }
}

/// The parameters with which packing is possible: a positive particle
/// radius, and a disc at most 64 particle radii across.
pub open spec fn packable(radius: int, particle_radius: int) -> bool {
    &&& 0 < particle_radius <= crate::params::MAX_PARTICLE_RADIUS
    &&& 0 <= radius <= 64 * particle_radius
}

/// The sampling grid of a packable disc is at most 257 cells wide.
proof fn lemma_grid_width(radius: int, pr: int)
    requires
        packable(radius, pr),
    ensures
        cell_size(pr) >= 1,
        2 * radius / cell_size(pr) + 1 <= 257,
{
    let c = cell_size(pr);
    assert(2 * c >= pr) by (nonlinear_arith)
        requires
            c == (if pr * 181 / 256 < 1 { 1 } else { pr * 181 / 256 }),
            pr > 0,
    ;
    assert(2 * radius <= 256 * c) by (nonlinear_arith)
        requires
            2 * c >= pr,
            radius <= 64 * pr,
    ;
    assert(2 * radius / c <= 256) by (nonlinear_arith)
        requires
            0 <= 2 * radius <= 256 * c,
            c >= 1,
    ;
}

/// The candidate offset made from the draws: first coordinate
/// `dx_draw - d`, second the smallest magnitude that brings the length to at
/// least `d`, positive when `sign_draw` is zero and negative otherwise.
pub open spec fn offset_of(d: int, dx_draw: int, sign_draw: int) -> Point {
    let dx = dx_draw - d;
    let dy = ceil_sqrt(d * d - dx * dx);
    Point { x: dx as i64, y: (if sign_draw == 0 { dy } else { -dy }) as i64 }
}

/// The candidate offset made from the draws `dx_draw` (in `0 ..= 2 * d`) and
/// `sign_draw`: at distance at least `d` from the origin and at most
/// `d + 1`.
pub fn candidate_offset(d: i64, dx_draw: u32, sign_draw: u32) -> (r: Point)
    requires
        0 < d <= 0x8_0001,
        dx_draw <= 2 * d,
    ensures
        r == offset_of(d as int, dx_draw as int, sign_draw as int),
        sq_len(r.x as int, r.y as int) >= d * d,
        sq_len(r.x as int, r.y as int) <= (d + 1) * (d + 1),
        -d <= r.x <= d,
        -(d + 1) <= r.y <= d + 1,
{
    let dx: i64 = dx_draw as i64 - d;
    assert(dx * dx <= d * d) by (nonlinear_arith)
        requires
            -d <= dx <= d,
    ;
    assert(d * d <= 0x100_0000_0000) by (nonlinear_arith)
        requires
            0 < d <= 0x8_0001,
    ;
    assert(dx * dx >= 0) by (nonlinear_arith);
    let h: i64 = d * d - dx * dx;
    let s = isqrt(h as u128);
    assert(s <= d) by (nonlinear_arith)
        requires
            s * s <= h,
            h <= d * d,
            s >= 0,
            d > 0,
    ;
    let dy: i64 = if (s as i64) * (s as i64) < h {
        s as i64 + 1
    } else {
        s as i64
    };
    assert(dy == ceil_sqrt(h as int));
    assert(dy * dy >= h) by (nonlinear_arith)
        requires
            s * s <= h < (s + 1) * (s + 1),
            dy == (if s * s < h { s + 1 } else { s as int }),
    ;
    assert(dy * dy <= h + 2 * d + 1) by (nonlinear_arith)
        requires
            s * s <= h,
            0 <= s <= d,
            dy == (if s * s < h { s + 1 } else { s as int }),
    ;
    assert(dy <= d + 1) by (nonlinear_arith)
        requires
            s * s <= h,
            h <= d * d,
            dy <= s + 1,
            s >= 0,
            d > 0,
    ;
    assert((d + 1) * (d + 1) == d * d + 2 * d + 1) by (nonlinear_arith);
    if sign_draw == 0 {
        Point { x: dx, y: dy }
    } else {
        assert((-dy) * (-dy) == dy * dy) by (nonlinear_arith);
        Point { x: dx, y: -dy }
    }
}

/// A random candidate offset: `candidate_offset` of two draws.
fn random_offset(rng: &RandGenerator, d: i64) -> (r: Point)
    requires
        0 < d <= 0x8_0001,
    ensures
        sq_len(r.x as int, r.y as int) >= d * d,
        sq_len(r.x as int, r.y as int) <= (d + 1) * (d + 1),
        -d <= r.x <= d,
        -(d + 1) <= r.y <= d + 1,
{
    let span: u32 = (2 * d + 1) as u32;
    let dx_draw = random_below(rng, span);
    let sign_draw = random_below(rng, 2);
    candidate_offset(d, dx_draw, sign_draw)
}

/// Most samples the packing can hold: one per cell of a grid at most 257
/// cells wide.
pub const MAX_SAMPLES: usize = 66049;

/// `p` lies in the disc of radius `radius` about the origin.
pub open spec fn in_disc(p: Point, radius: int) -> bool {
    &&& sq_len(p.x as int, p.y as int) <= radius * radius
    &&& -radius <= p.x <= radius
    &&& -radius <= p.y <= radius
}

/// The occupied cells of the sampling grid hold points of the disc.
pub open spec fn grid_in_disc(grid: Seq<Option<Point>>, radius: int) -> bool {
    forall|k: int| 0 <= k < grid.len() && (#[trigger] grid[k]).is_some() ==> in_disc(grid[k].unwrap(), radius)
}

/// The occupied cells of the sampling grid hold points of the square of
/// half-width `b` about the origin.
pub open spec fn grid_in_box(grid: Seq<Option<Point>>, b: int) -> bool {
    forall|k: int|
        0 <= k < grid.len() && (#[trigger] grid[k]).is_some() ==> -b <= grid[k].unwrap().x <= b && -b
            <= grid[k].unwrap().y <= b
}

/// `c` is at least `sqrt(min2)` away from every sample held in the cells
/// within `span` cells of cell `(cx, cy)` of a `gw` by `gw` grid.
pub open spec fn window_clear(
    grid: Seq<Option<Point>>,
    gw: int,
    cx: int,
    cy: int,
    span: int,
    c: Point,
    min2: int,
) -> bool {
    forall|gx: int, gy: int|
        cx - span <= gx <= cx + span && cy - span <= gy <= cy + span && 0 <= gx < gw && 0 <= gy < gw
            && (#[trigger] grid[gx * gw + gy]).is_some() ==> sq_dist(c, grid[gx * gw + gy].unwrap()) >= min2
}

/// Whether `c` is at least `sqrt(min2)` away from every sample held in the
/// cells within `span` cells of cell `(cx, cy)` of a `gw` by `gw` grid.
fn far_from_neighbours(
    grid: &Vec<Option<Point>>,
    gw: usize,
    cx: usize,
    cy: usize,
    span: usize,
    c: Point,
    min2: i64,
) -> (r: bool)
    requires
        grid.len() == gw * gw,
        gw <= 257,
        cx < gw,
        cy < gw,
        span <= 0x10_0000,
        -0x400_0000 <= c.x <= 0x400_0000,
        -0x400_0000 <= c.y <= 0x400_0000,
        grid_in_box(grid@, 0x400_0000),
    ensures
        r == window_clear(grid@, gw as int, cx as int, cy as int, span as int, c, min2 as int),
{
    let x0: usize = if cx >= span {
        cx - span
    } else {
        0
    };
    let y0: usize = if cy >= span {
        cy - span
    } else {
        0
    };
    let x1: usize = if cx + span < gw {
        cx + span + 1
    } else {
        gw
    };
    let y1: usize = if cy + span < gw {
        cy + span + 1
    } else {
        gw
    };
    let mut gx: usize = x0;
    while gx < x1
        invariant
            x0 <= gx <= x1 <= gw,
            y0 <= y1 <= gw,
            cx - span <= x0 && x1 <= cx + span + 1 && cy - span <= y0 && y1 <= cy + span + 1,
            grid.len() == gw * gw,
            gw <= 257,
            -0x400_0000 <= c.x <= 0x400_0000,
            -0x400_0000 <= c.y <= 0x400_0000,
            grid_in_box(grid@, 0x400_0000),
            forall|ax: int, ay: int|
                x0 <= ax < gx && y0 <= ay < y1 && (#[trigger] grid[ax * gw + ay]).is_some() ==> sq_dist(
                    c,
                    grid[ax * gw + ay].unwrap(),
                ) >= min2,
        decreases x1 - gx,
    {
        let mut gy: usize = y0;
        while gy < y1
            invariant
                x0 <= gx < x1 <= gw,
                y0 <= gy <= y1 <= gw,
                cx - span <= x0 && x1 <= cx + span + 1 && cy - span <= y0 && y1 <= cy + span + 1,
                grid.len() == gw * gw,
                gw <= 257,
                -0x400_0000 <= c.x <= 0x400_0000,
                -0x400_0000 <= c.y <= 0x400_0000,
                grid_in_box(grid@, 0x400_0000),
                forall|ax: int, ay: int|
                    x0 <= ax < gx && y0 <= ay < y1 && (#[trigger] grid[ax * gw + ay]).is_some() ==> sq_dist(
                        c,
                        grid[ax * gw + ay].unwrap(),
                    ) >= min2,
                forall|ay: int|
                    y0 <= ay < gy && (#[trigger] grid[gx * gw + ay]).is_some() ==> sq_dist(
                        c,
                        grid[gx * gw + ay].unwrap(),
                    ) >= min2,
            decreases y1 - gy,
        {
            assert(gx * gw + gy < gw * gw) by (nonlinear_arith)
                requires
                    gx < gw,
                    gy < gw,
            ;
            let idx = gx * gw + gy;
            match grid[idx] {
                Some(e) => {
                    assert(grid@[idx as int] == Some(e));
                    assert(-0x400_0000 <= e.x <= 0x400_0000 && -0x400_0000 <= e.y <= 0x400_0000);
                    let dx: i64 = c.x - e.x;
                    let dy: i64 = c.y - e.y;
                    assert(0 <= dx * dx <= 0x40_0000_0000_0000) by (nonlinear_arith)
                        requires
                            -0x800_0000 <= dx <= 0x800_0000,
                    ;
                    assert(0 <= dy * dy <= 0x40_0000_0000_0000) by (nonlinear_arith)
                        requires
                            -0x800_0000 <= dy <= 0x800_0000,
                    ;
                    if dx * dx + dy * dy < min2 {
                        assert(sq_dist(c, grid@[gx * gw + gy].unwrap()) < min2);
                        assert(grid@[gx * gw + gy].is_some());
                        assert(!window_clear(grid@, gw as int, cx as int, cy as int, span as int, c, min2 as int));
                        return false;
                    }
                },
                None => {},
            }
            gy = gy + 1;
        }
        gx = gx + 1;
    }
    proof {
        assert forall|ax: int, ay: int|
            cx - span <= ax <= cx + span && cy - span <= ay <= cy + span && 0 <= ax < gw && 0 <= ay
                < gw && (#[trigger] grid[ax * gw + ay]).is_some() implies sq_dist(
            c,
            grid[ax * gw + ay].unwrap(),
        ) >= min2 by {
            assert(x0 <= ax < x1 && y0 <= ay < y1);
        }
    }
    true
}

/// The grid cell, along one axis, of coordinate `v` in a grid of cells of
/// size `cs` whose first cell starts at `-radius`.
pub open spec fn cell_coord(v: int, radius: int, cs: int) -> int {
    (v + radius) / cs
}

/// The index in the flattened grid of the cell holding `p`.
pub open spec fn cell_index(p: Point, radius: int, cs: int, gw: int) -> int {
    cell_coord(p.x as int, radius, cs) * gw + cell_coord(p.y as int, radius, cs)
}

/// Every occupied cell holds a point that lies in it.
pub open spec fn grid_placed(grid: Seq<Option<Point>>, radius: int, cs: int, gw: int) -> bool {
    forall|k: int|
        0 <= k < grid.len() && (#[trigger] grid[k]).is_some() ==> cell_index(grid[k].unwrap(), radius, cs, gw)
            == k
}

/// The points held in two different cells are at least `sqrt(min2)` apart.
pub open spec fn grid_apart(grid: Seq<Option<Point>>, min2: int) -> bool {
    forall|k1: int, k2: int|
        0 <= k1 < grid.len() && 0 <= k2 < grid.len() && k1 != k2 && (#[trigger] grid[k1]).is_some()
            && (#[trigger] grid[k2]).is_some() ==> sq_dist(grid[k1].unwrap(), grid[k2].unwrap()) >= min2
}

/// Points more than `span` cells apart along an axis are more than `2 * pr`
/// apart along it.
proof fn lemma_far_cells(a: int, b: int, radius: int, cs: int, span: int, pr: int)
    requires
        a + radius >= 0,
        b + radius >= 0,
        cs >= 1,
        pr > 0,
        span == 2 * pr / cs + 1,
        cell_coord(a, radius, cs) > cell_coord(b, radius, cs) + span,
    ensures
        a - b > 2 * pr,
{
    let ca = (a + radius) / cs;
    let cb = (b + radius) / cs;
    assert(ca * cs <= a + radius) by (nonlinear_arith)
        requires
            ca == (a + radius) / cs,
            a + radius >= 0,
            cs >= 1,
    ;
    assert(b + radius < (cb + 1) * cs) by (nonlinear_arith)
        requires
            cb == (b + radius) / cs,
            b + radius >= 0,
            cs >= 1,
    ;
    assert(ca * cs >= (cb + span + 1) * cs) by (nonlinear_arith)
        requires
            ca >= cb + span + 1,
            cs >= 1,
    ;
    assert(span * cs > 2 * pr) by (nonlinear_arith)
        requires
            span == 2 * pr / cs + 1,
            cs >= 1,
            pr > 0,
    ;
    assert((cb + span + 1) * cs == (cb + 1) * cs + span * cs) by (nonlinear_arith);
}

/// A gap of more than `2 * pr` along one axis is a squared distance of more
/// than `(2 * pr)^2`.
proof fn lemma_far_axis(p: Point, q: Point, pr: int)
    requires
        pr > 0,
        p.x - q.x > 2 * pr || q.x - p.x > 2 * pr || p.y - q.y > 2 * pr || q.y - p.y > 2 * pr,
    ensures
        sq_dist(p, q) >= 4 * pr * pr,
{
    let dx = p.x - q.x;
    let dy = p.y - q.y;
    lemma_sq_len_nonneg(dx, dy);
    if dx > 2 * pr || -dx > 2 * pr {
        assert(dx * dx >= 4 * pr * pr) by (nonlinear_arith)
            requires
                dx > 2 * pr || -dx > 2 * pr,
                pr > 0,
        ;
    } else {
        assert(dy * dy >= 4 * pr * pr) by (nonlinear_arith)
            requires
                dy > 2 * pr || -dy > 2 * pr,
                pr > 0,
        ;
    }
}

/// Squared distance does not depend on the order of the points.
pub proof fn lemma_sq_dist_sym(p: Point, q: Point)
    ensures
        sq_dist(p, q) == sq_dist(q, p),
{
    assert((p.x - q.x) * (p.x - q.x) == (q.x - p.x) * (q.x - p.x)) by (nonlinear_arith);
    assert((p.y - q.y) * (p.y - q.y) == (q.y - p.y) * (q.y - p.y)) by (nonlinear_arith);
}

/// A candidate that is far enough from every sample in the cells near its
/// own is far enough from every sample of the grid.
proof fn lemma_accept_apart(
    grid: Seq<Option<Point>>,
    c: Point,
    radius: int,
    cs: int,
    gw: int,
    span: int,
    pr: int,
    min2: int,
)
    requires
        grid.len() == gw * gw,
        grid_placed(grid, radius, cs, gw),
        grid_in_disc(grid, radius),
        in_disc(c, radius),
        radius >= 0,
        cs >= 1,
        pr > 0,
        span == 2 * pr / cs + 1,
        min2 == 4 * pr * pr,
        gw == 2 * radius / cs + 1,
        forall|gx: int, gy: int|
            cell_coord(c.x as int, radius, cs) - span <= gx <= cell_coord(c.x as int, radius, cs) + span
                && cell_coord(c.y as int, radius, cs) - span <= gy <= cell_coord(c.y as int, radius, cs)
                + span && 0 <= gx < gw && 0 <= gy < gw && (#[trigger] grid[gx * gw + gy]).is_some()
                ==> sq_dist(c, grid[gx * gw + gy].unwrap()) >= min2,
    ensures
        forall|k: int|
            0 <= k < grid.len() && (#[trigger] grid[k]).is_some() ==> sq_dist(c, grid[k].unwrap()) >= min2,
{
    assert forall|k: int| 0 <= k < grid.len() && (#[trigger] grid[k]).is_some() implies sq_dist(
        c,
        grid[k].unwrap(),
    ) >= min2 by {
        let p = grid[k].unwrap();
        assert(in_disc(p, radius));
        let px = cell_coord(p.x as int, radius, cs);
        let py = cell_coord(p.y as int, radius, cs);
        let cx = cell_coord(c.x as int, radius, cs);
        let cy = cell_coord(c.y as int, radius, cs);
        assert(k == px * gw + py);
        assert(0 <= px < gw && 0 <= py < gw) by (nonlinear_arith)
            requires
                px == (p.x + radius) / cs,
                py == (p.y + radius) / cs,
                0 <= p.x + radius <= 2 * radius,
                0 <= p.y + radius <= 2 * radius,
                gw == 2 * radius / cs + 1,
                cs >= 1,
        ;
        if cx - span <= px <= cx + span && cy - span <= py <= cy + span {
            assert(grid[px * gw + py] == grid[k]);
        } else {
            if px > cx + span {
                lemma_far_cells(p.x as int, c.x as int, radius, cs, span, pr);
            } else if px < cx - span {
                lemma_far_cells(c.x as int, p.x as int, radius, cs, span, pr);
            } else if py > cy + span {
                lemma_far_cells(p.y as int, c.y as int, radius, cs, span, pr);
            } else {
                lemma_far_cells(c.y as int, p.y as int, radius, cs, span, pr);
            }
            lemma_far_axis(c, p, pr);
        }
    }
}

/// Width, in cells, of the sampling grid of the disc of radius `radius`.
pub open spec fn grid_width(radius: int, particle_radius: int) -> int {
    2 * radius / cell_size(particle_radius) + 1
}

/// How many cells, each way, around a candidate's own cell hold the samples
/// it is checked against: enough to cover two particle radii.
pub open spec fn window_span(particle_radius: int) -> int {
    2 * particle_radius / cell_size(particle_radius) + 1
}

/// How far from the centre a sample other than the first may lie: one
/// particle diameter, and a unit, in from the edge of the disc.
pub open spec fn sample_reach(radius: int, particle_radius: int) -> int {
    radius - (2 * particle_radius + 1)
}

/// The acceptance rule of the packing: the candidate `c` lies within
/// `sample_reach` of the centre, its grid cell is empty, and no sample in
/// the cells around it is closer than two particle radii.
pub open spec fn candidate_ok(grid: Seq<Option<Point>>, c: Point, radius: int, particle_radius: int) -> bool {
    let reach = sample_reach(radius, particle_radius);
    let cs = cell_size(particle_radius);
    let gw = grid_width(radius, particle_radius);
    &&& reach >= 0
    &&& sq_len(c.x as int, c.y as int) <= reach * reach
    &&& grid[cell_index(c, radius, cs, gw)].is_none()
    &&& window_clear(
        grid,
        gw,
        cell_coord(c.x as int, radius, cs),
        cell_coord(c.y as int, radius, cs),
        window_span(particle_radius),
        c,
        4 * particle_radius * particle_radius,
    )
}

/// One step of the packing: accepts candidate `c` when `candidate_ok`
/// holds, storing it in its grid cell and making it active; otherwise
/// leaves grid and active list as they were.
pub fn try_candidate(
    grid: &mut Vec<Option<Point>>,
    active: &mut Vec<Point>,
    c: Point,
    radius: i64,
    particle_radius: i64,
) -> (accepted: bool)
    requires
        packable(radius as int, particle_radius as int),
        old(grid).len() == grid_width(radius as int, particle_radius as int) * grid_width(
            radius as int,
            particle_radius as int,
        ),
        grid_in_disc(old(grid)@, radius as int),
        -0x200_0000 <= c.x <= 0x200_0000,
        -0x200_0000 <= c.y <= 0x200_0000,
    ensures
        accepted == candidate_ok(old(grid)@, c, radius as int, particle_radius as int),
        accepted ==> {
            let k = cell_index(
                c,
                radius as int,
                cell_size(particle_radius as int),
                grid_width(radius as int, particle_radius as int),
            );
            &&& 0 <= k < old(grid).len()
            &&& final(grid)@ == old(grid)@.update(k, Some(c))
            &&& final(active)@ == old(active)@.push(c)
        },
        !accepted ==> final(grid)@ == old(grid)@ && final(active)@ == old(active)@,
{
    let cs: i64 = if particle_radius * 181 / 256 < 1 {
        1
    } else {
        particle_radius * 181 / 256
    };
    proof {
        lemma_grid_width(radius as int, particle_radius as int);
    }
    let gw: usize = (2 * radius / cs + 1) as usize;
    assert(2 * (particle_radius as int) / (cs as int) <= 2 * particle_radius) by (nonlinear_arith)
        requires
            particle_radius > 0,
            cs >= 1,
    ;
    let span: usize = (2 * particle_radius / cs + 1) as usize;
    assert(0 <= 4 * particle_radius * particle_radius <= 0x40_0000_0000) by (nonlinear_arith)
        requires
            0 < particle_radius <= 0x4_0000,
    ;
    let min2: i64 = 4 * particle_radius * particle_radius;
    let reach: i64 = radius - (2 * particle_radius + 1);
    assert(0 <= reach * reach <= 0x1_0000_0000_0000) by (nonlinear_arith)
        requires
            -0x8_0001 <= reach <= 0x100_0000,
    ;
    assert(0 <= c.x * c.x <= 0x4_0000_0000_0000 && 0 <= c.y * c.y <= 0x4_0000_0000_0000) by (nonlinear_arith)
        requires
            -0x200_0000 <= c.x <= 0x200_0000,
            -0x200_0000 <= c.y <= 0x200_0000,
    ;
    if reach < 0 || c.x * c.x + c.y * c.y > reach * reach {
        return false;
    }
    proof {
        lemma_in_disc(c, reach as int, radius as int);
    }
    let gx: usize = ((c.x + radius) / cs) as usize;
    let gy: usize = ((c.y + radius) / cs) as usize;
    assert(gx < gw && gy < gw) by (nonlinear_arith)
        requires
            gx == (c.x + radius) / (cs as int),
            gy == (c.y + radius) / (cs as int),
            0 <= c.x + radius <= 2 * radius,
            0 <= c.y + radius <= 2 * radius,
            gw == 2 * (radius as int) / (cs as int) + 1,
            cs >= 1,
    ;
    assert(gx * gw + gy < gw * gw) by (nonlinear_arith)
        requires
            gx < gw,
            gy < gw,
    ;
    let cell = gx * gw + gy;
    assert(cell == cell_index(c, radius as int, cs as int, gw as int));
    if grid[cell].is_some() {
        return false;
    }
    assert forall|k: int| 0 <= k < grid.len() && (#[trigger] grid@[k]).is_some() implies -0x400_0000
        <= grid@[k].unwrap().x <= 0x400_0000 && -0x400_0000 <= grid@[k].unwrap().y <= 0x400_0000 by {
        assert(in_disc(grid@[k].unwrap(), radius as int));
    }
    if !far_from_neighbours(grid, gw, gx, gy, span, c, min2) {
        return false;
    }
    grid.set(cell, Some(c));
    active.push(c);
    true
}

/// Two values in the same cell differ by less than a cell.
proof fn lemma_same_cell(a: int, b: int, cs: int)
    requires
        a >= 0,
        b >= 0,
        cs >= 1,
        a / cs == b / cs,
    ensures
        -cs < a - b < cs,
{
    assert(-cs < a - b < cs) by (nonlinear_arith)
        requires
            a >= 0,
            b >= 0,
            cs >= 1,
            a / cs == b / cs,
    ;
}

/// A disc at least two particle diameters and three units across accepts
/// the first candidate drawn around its centre.
proof fn lemma_first_candidate(grid: Seq<Option<Point>>, c: Point, radius: int, pr: int)
    requires
        packable(radius, pr),
        radius >= 4 * pr + 3,
        grid.len() == grid_width(radius, pr) * grid_width(radius, pr),
        grid[cell_index(Point { x: 0, y: 0 }, radius, cell_size(pr), grid_width(radius, pr))] == Some(
            Point { x: 0, y: 0 },
        ),
        forall|k: int|
            0 <= k < grid.len() && k != cell_index(
                Point { x: 0, y: 0 },
                radius,
                cell_size(pr),
                grid_width(radius, pr),
            ) ==> (#[trigger] grid[k]).is_none(),
        sq_len(c.x as int, c.y as int) >= (2 * pr + 1) * (2 * pr + 1),
        sq_len(c.x as int, c.y as int) <= (2 * pr + 2) * (2 * pr + 2),
    ensures
        candidate_ok(grid, c, radius, pr),
{
    let cs = cell_size(pr);
    let gw = grid_width(radius, pr);
    let d = 2 * pr + 1;
    let reach = sample_reach(radius, pr);
    let origin = Point { x: 0, y: 0 };
    let mid = cell_index(origin, radius, cs, gw);
    lemma_grid_width(radius, pr);
    lemma_square_le(d + 1, reach);
    lemma_sq_len_nonneg(c.x as int, c.y as int);
    lemma_in_disc(c, reach, radius);
    let cx = cell_coord(c.x as int, radius, cs);
    let cy = cell_coord(c.y as int, radius, cs);
    let m = radius / cs;
    assert(0 <= cx < gw && 0 <= cy < gw && 0 <= m < gw) by (nonlinear_arith)
        requires
            cx == (c.x + radius) / cs,
            cy == (c.y + radius) / cs,
            m == radius / cs,
            0 <= c.x + radius <= 2 * radius,
            0 <= c.y + radius <= 2 * radius,
            radius >= 0,
            gw == 2 * radius / cs + 1,
            cs >= 1,
    ;
    assert(mid == m * gw + m);
    let k = cell_index(c, radius, cs, gw);
    assert(k == cx * gw + cy);
    assert(cs <= pr);
    if k == mid {
        assert(cx == m && cy == m) by (nonlinear_arith)
            requires
                cx * gw + cy == m * gw + m,
                0 <= cx < gw,
                0 <= cy < gw,
                0 <= m < gw,
        ;
        lemma_same_cell(c.x + radius, radius, cs);
        lemma_same_cell(c.y + radius, radius, cs);
        assert(c.x * c.x + c.y * c.y < d * d) by (nonlinear_arith)
            requires
                -cs < c.x < cs,
                -cs < c.y < cs,
                1 <= cs <= pr,
                d == 2 * pr + 1,
        ;
    }
    assert(0 <= k < grid.len()) by (nonlinear_arith)
        requires
            k == cx * gw + cy,
            0 <= cx < gw,
            0 <= cy < gw,
            grid.len() == gw * gw,
    ;
    assert(grid[k].is_none());
    assert(d * d >= 4 * pr * pr) by (nonlinear_arith)
        requires
            d == 2 * pr + 1,
            pr > 0,
    ;
    assert forall|gx: int, gy: int|
        cx - window_span(pr) <= gx <= cx + window_span(pr) && cy - window_span(pr) <= gy <= cy + window_span(
            pr,
        ) && 0 <= gx < gw && 0 <= gy < gw && (#[trigger] grid[gx * gw + gy]).is_some() implies sq_dist(
        c,
        grid[gx * gw + gy].unwrap(),
    ) >= 4 * pr * pr by {
        assert(0 <= gx * gw + gy < grid.len()) by (nonlinear_arith)
            requires
                0 <= gx < gw,
                0 <= gy < gw,
                grid.len() == gw * gw,
        ;
        assert(gx * gw + gy == mid);
        assert(sq_dist(c, origin) == sq_len(c.x as int, c.y as int));
    }
}

/// Poisson-disk packing of the disc of radius `radius` about the origin
/// (Bridson's algorithm): starting from the centre, candidates are drawn at
/// random just over two particle radii from a random active sample, and
/// accepted when they stay inside the disc, one particle radius in from its
/// edge, and no accepted sample in the neighbouring grid cells is closer
/// than two particle radii; a sample that yields no candidate in `SAMPLES`
/// tries is retired. The random draws come from a generator seeded with
/// `seed`. The samples come back in grid order.
pub fn poisson_disk(radius: i64, particle_radius: i64, seed: u64) -> (r: Vec<Point>)
    requires
        packable(radius as int, particle_radius as int),
    ensures
        1 <= r.len() <= MAX_SAMPLES,
        forall|k: int| 0 <= k < r.len() ==> in_disc(#[trigger] r[k], radius as int),
        forall|m1: int, m2: int|
            0 <= m1 < m2 < r.len() ==> sq_dist(#[trigger] r[m1], #[trigger] r[m2]) >= 4 * particle_radius
                * particle_radius,
        r@.contains(Point { x: 0, y: 0 }),
        radius >= 4 * particle_radius + 3 ==> r.len() >= 2,
        forall|k: int|
            0 <= k < r.len() ==> #[trigger] r[k] == (Point { x: 0, y: 0 }) || (sample_reach(
                radius as int,
                particle_radius as int,
            ) >= 0 && sq_len(r[k].x as int, r[k].y as int) <= sample_reach(
                radius as int,
                particle_radius as int,
            ) * sample_reach(radius as int, particle_radius as int)),
{
    let rng = new_generator();
    seed_generator(&rng, seed);
    let cs: i64 = if particle_radius * 181 / 256 < 1 {
        1
    } else {
        particle_radius * 181 / 256
    };
    proof {
        lemma_grid_width(radius as int, particle_radius as int);
    }
    let gw: usize = (2 * radius / cs + 1) as usize;
    assert(gw * gw <= MAX_SAMPLES) by (nonlinear_arith)
        requires
            1 <= gw <= 257,
    ;
    let total: usize = gw * gw;
    let mut grid: Vec<Option<Point>> = Vec::new();
    let mut k: usize = 0;
    while k < total
        invariant
            k <= total,
            grid.len() == k,
            forall|m: int| 0 <= m < k ==> (#[trigger] grid[m]).is_none(),
        decreases total - k,
    {
        grid.push(None);
        k = k + 1;
    }
    let d: i64 = 2 * particle_radius + 1;
    assert(0 <= 4 * particle_radius * particle_radius <= 0x40_0000_0000) by (nonlinear_arith)
        requires
            0 < particle_radius <= 0x4_0000,
    ;
    let min2: i64 = 4 * particle_radius * particle_radius;
    assert(2 * (particle_radius as int) / (cs as int) <= 2 * particle_radius) by (nonlinear_arith)
        requires
            particle_radius > 0,
            cs >= 1,
    ;
    let span: usize = (2 * particle_radius / cs + 1) as usize;
    let reach: i64 = radius - d;
    assert(0 <= reach * reach <= 0x1_0000_0000_0000) by (nonlinear_arith)
        requires
            -0x8_0001 <= reach <= 0x100_0000,
    ;
    let mid: usize = (radius / cs) as usize;
    assert(mid < gw) by (nonlinear_arith)
        requires
            mid == (radius as int) / (cs as int),
            gw == 2 * (radius as int) / (cs as int) + 1,
            radius >= 0,
            cs >= 1,
    ;
    assert(mid * gw + mid < total) by (nonlinear_arith)
        requires
            mid < gw,
            total == gw * gw,
    ;
    let origin = Point { x: 0, y: 0 };
    grid.set(mid * gw + mid, Some(origin));
    let mut active: Vec<Point> = Vec::new();
    active.push(origin);
    let mut accepted: usize = 1;
    assert(0 <= radius * radius) by (nonlinear_arith);
    assert(sq_len(0, 0) == 0);
    assert forall|m: int| 0 <= m < grid.len() && (#[trigger] grid[m]).is_some() implies in_disc(grid[m].unwrap(), radius as int) by {
        if m != mid * gw + mid {
            assert(grid[m].is_none());
        }
    }
    assert(grid_placed(grid@, radius as int, cs as int, gw as int)) by {
        assert forall|m: int| 0 <= m < grid.len() && (#[trigger] grid@[m]).is_some() implies cell_index(
            grid@[m].unwrap(),
            radius as int,
            cs as int,
            gw as int,
        ) == m by {
            if m != mid * gw + mid {
                assert(grid[m].is_none());
            }
        }
    }
    assert(grid_apart(grid@, min2 as int)) by {
        assert forall|k1: int, k2: int|
            0 <= k1 < grid.len() && 0 <= k2 < grid.len() && k1 != k2 && (#[trigger] grid@[k1]).is_some()
                && (#[trigger] grid@[k2]).is_some() implies sq_dist(grid@[k1].unwrap(), grid@[k2].unwrap())
            >= min2 by {
            if k1 != mid * gw + mid {
                assert(grid[k1].is_none());
            } else {
                assert(grid[k2].is_none());
            }
        }
    }
    let ghost mut second: int = 0;
    let ghost big: bool = radius >= 4 * particle_radius + 3;
    proof {
        if big {
            assert(2 * (radius as int) / (cs as int) >= 1) by (nonlinear_arith)
                requires
                    2 * radius >= cs,
                    cs >= 1,
            ;
            assert(total >= 4) by (nonlinear_arith)
                requires
                    gw >= 2,
                    total == gw * gw,
            ;
        }
        assert(cell_index(origin, radius as int, cs as int, gw as int) == mid * gw + mid);
    }
    while active.len() > 0 && accepted < total
        invariant
            grid.len() == total,
            total == gw * gw,
            1 <= gw <= 257,
            packable(radius as int, particle_radius as int),
            cs == cell_size(particle_radius as int),
            gw == 2 * (radius as int) / (cs as int) + 1,
            d == 2 * particle_radius + 1,
            reach == radius - d,
            grid_in_disc(grid@, radius as int),
            forall|m: int| 0 <= m < active.len() ==> in_disc(#[trigger] active[m], radius as int),
            active.len() <= accepted,
            1 <= accepted <= total,
            total <= MAX_SAMPLES,
            0 <= span <= 0x8_0001,
            0 <= reach * reach <= 0x1_0000_0000_0000,
            mid * gw + mid < total,
            origin == (Point { x: 0, y: 0 }),
            cell_index(origin, radius as int, cs as int, gw as int) == mid * gw + mid,
            grid@[mid * gw + mid] == Some(origin),
            grid_placed(grid@, radius as int, cs as int, gw as int),
            grid_apart(grid@, min2 as int),
            min2 == 4 * particle_radius * particle_radius,
            span == 2 * (particle_radius as int) / (cs as int) + 1,
            forall|m: int|
                0 <= m < grid.len() && (#[trigger] grid@[m]).is_some() ==> grid@[m] == Some(origin) || (
                reach >= 0 && sq_len(grid@[m].unwrap().x as int, grid@[m].unwrap().y as int) <= reach
                    * reach),
            big == (radius >= 4 * particle_radius + 3),
            big ==> total >= 4,
            big && accepted == 1 ==> active@ == seq![origin] && forall|m: int|
                0 <= m < grid.len() && m != mid * gw + mid ==> (#[trigger] grid@[m]).is_none(),
            accepted >= 2 ==> 0 <= second < total && second != mid * gw + mid && grid@[second].is_some(),
        decreases 2 * (total - accepted) + active.len(),
    {
        let i = random_below(&rng, active.len() as u32) as usize;
        let parent = active[i];
        assert(in_disc(active@[i as int], radius as int));
        let mut found = false;
        let mut j: usize = 0;
        let ghost len0 = active.len();
        let ghost acc0 = accepted;
        let ghost grid0 = grid@;
        let ghost active0 = active@;
        while j < SAMPLES && !found
            invariant
                grid.len() == total,
                total == gw * gw,
                1 <= gw <= 257,
                packable(radius as int, particle_radius as int),
                cs == cell_size(particle_radius as int),
                gw == 2 * (radius as int) / (cs as int) + 1,
                d == 2 * particle_radius + 1,
                reach == radius - d,
                in_disc(parent, radius as int),
                grid_in_disc(grid@, radius as int),
                forall|m: int| 0 <= m < active.len() ==> in_disc(#[trigger] active[m], radius as int),
                1 <= acc0 < total,
                i < len0,
                len0 <= acc0,
                mid * gw + mid < total,
                origin == (Point { x: 0, y: 0 }),
                cell_index(origin, radius as int, cs as int, gw as int) == mid * gw + mid,
                grid@[mid * gw + mid] == Some(origin),
                grid_placed(grid@, radius as int, cs as int, gw as int),
                grid_apart(grid@, min2 as int),
                min2 == 4 * particle_radius * particle_radius,
                span == 2 * (particle_radius as int) / (cs as int) + 1,
                total <= MAX_SAMPLES,
                0 <= span <= 0x8_0001,
                0 <= reach * reach <= 0x1_0000_0000_0000,
                forall|m: int|
                    0 <= m < grid.len() && (#[trigger] grid@[m]).is_some() ==> grid@[m] == Some(origin) || (
                    reach >= 0 && sq_len(grid@[m].unwrap().x as int, grid@[m].unwrap().y as int) <= reach
                        * reach),
                big == (radius >= 4 * particle_radius + 3),
                big && acc0 == 1 ==> active0 == seq![origin] && parent == origin && forall|m: int|
                    0 <= m < grid0.len() && m != mid * gw + mid ==> (#[trigger] grid0[m]).is_none(),
                big && acc0 == 1 && !found ==> j == 0,
                acc0 >= 2 ==> 0 <= second < total && second != mid * gw + mid && grid@[second].is_some(),
                found ==> 0 <= second < total && second != mid * gw + mid && grid@[second].is_some(),
                !found ==> active@ == active0 && accepted == acc0 && grid@ == grid0,
                found ==> active.len() == len0 + 1 && accepted == acc0 + 1,
                active0.len() == len0,
            decreases SAMPLES - j,
        {
            let off = random_offset(&rng, d);
            let c = Point { x: parent.x + off.x, y: parent.y + off.y };
            let ghost before = grid@;
            proof {
                if big && acc0 == 1 {
                    assert(c == off);
                    assert((2 * particle_radius + 1 + 1) == d + 1);
                    lemma_first_candidate(before, c, radius as int, particle_radius as int);
                }
            }
            let acc = try_candidate(&mut grid, &mut active, c, radius, particle_radius);
            if acc {
                proof {
                    lemma_in_disc(c, reach as int, radius as int);
                    lemma_accept_apart(
                        before,
                        c,
                        radius as int,
                        cs as int,
                        gw as int,
                        span as int,
                        particle_radius as int,
                        min2 as int,
                    );
                    let cell = cell_index(c, radius as int, cs as int, gw as int);
                    assert(before[cell].is_none());
                    assert(cell != mid * gw + mid);
                    assert forall|k1: int, k2: int|
                        0 <= k1 < grid.len() && 0 <= k2 < grid.len() && k1 != k2 && (#[trigger] grid@[k1]).is_some()
                            && (#[trigger] grid@[k2]).is_some() implies sq_dist(grid@[k1].unwrap(), grid@[k2].unwrap())
                        >= min2 by {
                        if k1 == cell {
                            assert(before[k2].is_some());
                        } else if k2 == cell {
                            assert(before[k1].is_some());
                            lemma_sq_dist_sym(c, before[k1].unwrap());
                        } else {
                            assert(before[k1].is_some() && before[k2].is_some());
                        }
                    }
                    assert forall|m: int| 0 <= m < grid.len() && (#[trigger] grid@[m]).is_some() implies cell_index(
                        grid@[m].unwrap(),
                        radius as int,
                        cs as int,
                        gw as int,
                    ) == m by {
                        if m != cell {
                            assert(before[m].is_some());
                        }
                    }
                    assert forall|m: int| 0 <= m < grid.len() && (#[trigger] grid@[m]).is_some() implies in_disc(
                        grid@[m].unwrap(),
                        radius as int,
                    ) by {
                        if m != cell {
                            assert(before[m].is_some());
                        }
                    }
                    assert forall|m: int| 0 <= m < active.len() implies in_disc(#[trigger] active[m], radius as int) by {
                        if m < active.len() - 1 {
                            assert(active@[m] == active0[m]);
                        }
                    }
                    if acc0 == 1 {
                        second = cell;
                    }
                }
                accepted = accepted + 1;
                found = true;
            }
            j = j + 1;
        }
        if !found {
            active.swap_remove(i);
            proof {
                assert forall|m: int| 0 <= m < active.len() implies in_disc(#[trigger] active[m], radius as int) by {
                    if m == i {
                        assert(active@[m] == active0[len0 - 1]);
                    } else {
                        assert(active@[m] == active0[m]);
                    }
                }
            }
        }
    }
    proof {
        if big {
            assert(accepted >= 2);
        }
    }
    let mut out: Vec<Point> = Vec::new();
    let ghost mut src: Seq<int> = Seq::empty();
    let mut k: usize = 0;
    while k < total
        invariant
            k <= total,
            grid.len() == total,
            grid_apart(grid@, min2 as int),
            min2 == 4 * particle_radius * particle_radius,
            src.len() == out.len(),
            forall|m: int| 0 <= m < out.len() ==> 0 <= #[trigger] src[m] < k && grid@[src[m]] == Some(out[m]),
            forall|m1: int, m2: int| 0 <= m1 < m2 < out.len() ==> #[trigger] src[m1] < #[trigger] src[m2],
            forall|m1: int, m2: int|
                0 <= m1 < m2 < out.len() ==> sq_dist(#[trigger] out[m1], #[trigger] out[m2]) >= 4
                    * particle_radius * particle_radius,
            total <= MAX_SAMPLES,
            grid_in_disc(grid@, radius as int),
            origin == (Point { x: 0, y: 0 }),
            grid@[mid * gw + mid] == Some(origin),
            mid * gw + mid < total,
            out.len() <= k,
            k > mid * gw + mid ==> out@.contains(origin),
            out.len() >= (if k > mid * gw + mid { 1int } else { 0int }) + (if accepted >= 2 && k > second {
                1int
            } else {
                0int
            }),
            accepted >= 2 ==> 0 <= second < total && second != mid * gw + mid && grid@[second].is_some(),
            reach == radius - d,
            d == 2 * particle_radius + 1,
            forall|m: int|
                0 <= m < grid.len() && (#[trigger] grid@[m]).is_some() ==> grid@[m] == Some(origin) || (
                reach >= 0 && sq_len(grid@[m].unwrap().x as int, grid@[m].unwrap().y as int) <= reach
                    * reach),
            forall|m: int|
                0 <= m < out.len() ==> #[trigger] out[m] == origin || (reach >= 0 && sq_len(
                    out[m].x as int,
                    out[m].y as int,
                ) <= reach * reach),
            forall|m: int| 0 <= m < out.len() ==> in_disc(#[trigger] out[m], radius as int),
        decreases total - k,
    {
        match grid[k] {
            Some(p) => {
                assert(grid@[k as int] == Some(p));
                let ghost before = out@;
                out.push(p);
                proof {
                    src = src.push(k as int);
                    assert forall|m1: int, m2: int| 0 <= m1 < m2 < out.len() implies sq_dist(
                        #[trigger] out[m1],
                        #[trigger] out[m2],
                    ) >= 4 * particle_radius * particle_radius by {
                        if m2 == out.len() - 1 {
                            assert(out[m1] == before[m1]);
                            assert(grid@[src[m1]].is_some() && grid@[k as int].is_some());
                        } else {
                            assert(out[m1] == before[m1] && out[m2] == before[m2]);
                        }
                    }
                    if k > mid * gw + mid {
                        let w = choose|w: int| 0 <= w < before.len() && before[w] == origin;
                        assert(out@[w] == origin);
                    }
                    if k == mid * gw + mid {
                        assert(out@[out.len() - 1] == origin);
                    }
                }
            },
            None => {
                assert(k != mid * gw + mid);
                assert(!(accepted >= 2 && k == second));
            },
        }
        k = k + 1;
    }
    out
}

/// Inside the disc of radius `reach` is inside any larger disc.
proof fn lemma_in_disc(c: Point, reach: int, radius: int)
    requires
        0 <= reach <= radius,
        c.x * c.x + c.y * c.y <= reach * reach,
    ensures
        in_disc(c, radius),
        -reach <= c.x <= reach,
        -reach <= c.y <= reach,
{
    assert(reach * reach <= radius * radius) by (nonlinear_arith)
        requires
            0 <= reach <= radius,
    ;
    assert(c.x * c.x <= reach * reach && c.y * c.y <= reach * reach) by (nonlinear_arith)
        requires
            c.x * c.x + c.y * c.y <= reach * reach,
    ;
    if c.x > reach || c.x < -reach {
        assert(c.x * c.x > reach * reach) by (nonlinear_arith)
            requires
                c.x > reach || c.x < -reach,
                reach >= 0,
        ;
    }
    if c.y > reach || c.y < -reach {
        assert(c.y * c.y > reach * reach) by (nonlinear_arith)
            requires
                c.y > reach || c.y < -reach,
                reach >= 0,
        ;
    }
}

/// Number of outline particles: the circumference over a particle
/// diameter, `pi * radius / particle_radius`, rounded to nearest, with pi
/// taken as 355/113.
pub open spec fn outline_count(radius: int, particle_radius: int) -> int {
    if radius <= 0 || particle_radius <= 0 {
        0
    } else {
        (2 * 355 * radius + 113 * particle_radius) / (2 * 113 * particle_radius)
    }
}

/// Vertex `e` (taken modulo 8) of the regular octagon inscribed in the
/// circle of radius `r`, counted from `(r, 0)` towards `(0, r)`; `h` is
/// `r / sqrt(2)`.
pub open spec fn octagon(e: int, r: i64, h: i64) -> Point {
    let k = e % 8;
    if k == 0 {
        Point { x: r, y: 0 }
    } else if k == 1 {
        Point { x: h, y: h }
    } else if k == 2 {
        Point { x: 0, y: r }
    } else if k == 3 {
        Point { x: (-h) as i64, y: h }
    } else if k == 4 {
        Point { x: (-r) as i64, y: 0 }
    } else if k == 5 {
        Point { x: (-h) as i64, y: (-h) as i64 }
    } else if k == 6 {
        Point { x: 0, y: (-r) as i64 }
    } else {
        Point { x: h, y: (-h) as i64 }
    }
}

/// Point `i` of `n` spaced evenly along the perimeter of the octagon
/// inscribed in the circle of radius `r`, before it is pushed out onto the
/// circle.
pub open spec fn octagon_point(r: i64, n: int, i: int) -> (int, int) {
    let h = (r * 181 / 256) as i64;
    let e = (8 * i) / n;
    let rem = (8 * i) % n;
    let a = octagon(e, r, h);
    let b = octagon(e + 1, r, h);
    (a.x + tdiv((b.x - a.x) * rem, n), a.y + tdiv((b.y - a.y) * rem, n))
}

/// The integer square root of `v`, rounded up.
pub open spec fn ceil_sqrt(v: int) -> int {
    let s = floor_sqrt(v);
    if s * s < v {
        s + 1
    } else {
        s
    }
}

/// Outline offset `i` of `n` about the centre: point `i` of the octagon
/// pushed out along its direction onto the circle of radius `r`, rounded
/// toward the centre.
pub open spec fn ring_point(r: i64, n: int, i: int) -> Point {
    let p = octagon_point(r, n, i);
    let c = ceil_sqrt(p.0 * p.0 + p.1 * p.1);
    if c == 0 {
        Point { x: 0, y: 0 }
    } else {
        Point { x: tdiv(p.0 * r, c) as i64, y: tdiv(p.1 * r, c) as i64 }
    }
}

/// Vertex `e` of the octagon of `octagon`.
fn octagon_vertex(e: usize, r: i64, h: i64) -> (v: Point)
    requires
        0 <= h <= r,
    ensures
        v == octagon(e as int, r, h),
        -r <= v.x <= r,
        -r <= v.y <= r,
{
    match e % 8 {
        0 => Point { x: r, y: 0 },
        1 => Point { x: h, y: h },
        2 => Point { x: 0, y: r },
        3 => Point { x: -h, y: h },
        4 => Point { x: -r, y: 0 },
        5 => Point { x: -h, y: -h },
        6 => Point { x: 0, y: -r },
        _ => Point { x: h, y: -h },
    }
}

/// The truncated quotient times the divisor lies between zero and the
/// dividend.
proof fn lemma_tdiv_scaled(a: int, b: int)
    requires
        b > 0,
    ensures
        a >= 0 ==> 0 <= crate::geometry::tdiv(a, b) * b <= a,
        a < 0 ==> a <= crate::geometry::tdiv(a, b) * b <= 0,
{
    if a >= 0 {
        assert(0 <= (a / b) * b <= a) by (nonlinear_arith)
            requires
                a >= 0,
                b > 0,
        ;
    } else {
        let n = -a;
        assert(0 <= (n / b) * b <= n) by (nonlinear_arith)
            requires
                n > 0,
                b > 0,
        ;
        assert((-(n / b)) * b == -((n / b) * b)) by (nonlinear_arith);
    }
}

/// `q = p * r / c`, rounded toward zero, with `c * c >= |p|^2`: then
/// `|q| <= r`.
proof fn lemma_projection(px: int, py: int, qx: int, qy: int, r: int, c: int)
    requires
        c > 0,
        r >= 0,
        c * c >= px * px + py * py,
        qx == crate::geometry::tdiv(px * r, c),
        qy == crate::geometry::tdiv(py * r, c),
    ensures
        qx * qx + qy * qy <= r * r,
{
    lemma_tdiv_scaled(px * r, c);
    lemma_tdiv_scaled(py * r, c);
    assert((qx * c) * (qx * c) <= (px * r) * (px * r)) by (nonlinear_arith)
        requires
            px * r >= 0 ==> 0 <= qx * c <= px * r,
            px * r < 0 ==> px * r <= qx * c <= 0,
    ;
    assert((qy * c) * (qy * c) <= (py * r) * (py * r)) by (nonlinear_arith)
        requires
            py * r >= 0 ==> 0 <= qy * c <= py * r,
            py * r < 0 ==> py * r <= qy * c <= 0,
    ;
    let c2 = c * c;
    let r2 = r * r;
    assert((qx * c) * (qx * c) == (qx * qx) * c2) by (nonlinear_arith)
        requires
            c2 == c * c,
    ;
    assert((qy * c) * (qy * c) == (qy * qy) * c2) by (nonlinear_arith)
        requires
            c2 == c * c,
    ;
    assert((px * r) * (px * r) == (px * px) * r2) by (nonlinear_arith)
        requires
            r2 == r * r,
    ;
    assert((py * r) * (py * r) == (py * py) * r2) by (nonlinear_arith)
        requires
            r2 == r * r,
    ;
    assert((qx * qx + qy * qy) * c2 == (qx * qx) * c2 + (qy * qy) * c2) by (nonlinear_arith);
    assert((px * px + py * py) * r2 == (px * px) * r2 + (py * py) * r2) by (nonlinear_arith);
    assert((qx * qx + qy * qy) * (c * c) <= (px * px + py * py) * (r * r));
    assert((px * px + py * py) * (r * r) <= (c * c) * (r * r)) by (nonlinear_arith)
        requires
            c * c >= px * px + py * py,
    ;
    assert(qx * qx + qy * qy <= r * r) by (nonlinear_arith)
        requires
            (qx * qx + qy * qy) * (c * c) <= (c * c) * (r * r),
            c > 0,
    ;
}

/// Offsets of `n` outline particles about the centre, in order around a
/// circle of radius `r`: evenly spaced along the perimeter of the inscribed
/// regular octagon, then pushed out along their direction onto the circle.
/// None lies farther than `r` from the centre.
#[verifier::spinoff_prover]
#[verifier::rlimit(40)]
pub fn ring_offsets(r: i64, n: usize) -> (out: Vec<Point>)
    requires
        0 <= r <= 0x100_0000,
        n <= 0x1_0000,
    ensures
        out.len() == n,
        forall|k: int| 0 <= k < n ==> #[trigger] out[k] == ring_point(r, n as int, k),
        forall|k: int| 0 <= k < n ==> in_disc(#[trigger] out[k], r as int),
        n > 0 ==> out[0] == (Point { x: r, y: 0 }),
{
    let h: i64 = r * 181 / 256;
    let mut out: Vec<Point> = Vec::new();
    let mut i: usize = 0;
    while i < n
        invariant
            i <= n,
            n <= 0x1_0000,
            0 <= r <= 0x100_0000,
            h == r * 181 / 256,
            out.len() == i,
            forall|k: int| 0 <= k < i ==> #[trigger] out[k] == ring_point(r, n as int, k),
            forall|k: int| 0 <= k < i ==> in_disc(#[trigger] out[k], r as int),
            i > 0 ==> out[0] == (Point { x: r, y: 0 }),
        decreases n - i,
    {
        let u: usize = 8 * i;
        let e: usize = u / n;
        let rem: i64 = (u % n) as i64;
        let a = octagon_vertex(e, r, h);
        let b = octagon_vertex(e + 1, r, h);
        let nn: i64 = n as i64;
        assert(-0x200_0000 * 0x1_0000 <= (b.x - a.x) * rem <= 0x200_0000 * 0x1_0000) by (nonlinear_arith)
            requires
                -0x200_0000 <= b.x - a.x <= 0x200_0000,
                0 <= rem < 0x1_0000,
        ;
        assert(-0x200_0000 * 0x1_0000 <= (b.y - a.y) * rem <= 0x200_0000 * 0x1_0000) by (nonlinear_arith)
            requires
                -0x200_0000 <= b.y - a.y <= 0x200_0000,
                0 <= rem < 0x1_0000,
        ;
        let tx = crate::geometry::div_trunc(((b.x - a.x) * rem) as i128, nn as i128);
        let ty = crate::geometry::div_trunc(((b.y - a.y) * rem) as i128, nn as i128);
        proof {
            let mx = if b.x - a.x >= 0 { b.x - a.x } else { a.x - b.x };
            let my = if b.y - a.y >= 0 { b.y - a.y } else { a.y - b.y };
            assert(-mx * nn <= (b.x - a.x) * rem <= mx * nn) by (nonlinear_arith)
                requires
                    mx == (if b.x - a.x >= 0 { b.x - a.x } else { a.x - b.x }),
                    0 <= rem < nn,
            ;
            assert(-my * nn <= (b.y - a.y) * rem <= my * nn) by (nonlinear_arith)
                requires
                    my == (if b.y - a.y >= 0 { b.y - a.y } else { a.y - b.y }),
                    0 <= rem < nn,
            ;
            crate::geometry::lemma_tdiv_bound((b.x - a.x) * rem, nn as int, mx);
            crate::geometry::lemma_tdiv_bound((b.y - a.y) * rem, nn as int, my);
        }
        let px: i64 = a.x + tx as i64;
        let py: i64 = a.y + ty as i64;
        assert(0 <= px * px <= 0x10_0000_0000_0000 && 0 <= py * py <= 0x10_0000_0000_0000) by (nonlinear_arith)
            requires
                -0x300_0000 <= px <= 0x300_0000,
                -0x300_0000 <= py <= 0x300_0000,
        ;
        let l2: i64 = px * px + py * py;
        let s = isqrt(l2 as u128);
        assert(s <= 0x800_0000) by (nonlinear_arith)
            requires
                s * s <= l2,
                l2 <= 0x20_0000_0000_0000,
                s >= 0,
        ;
        let c: i64 = if (s as i64) * (s as i64) < l2 {
            s as i64 + 1
        } else {
            s as i64
        };
        assert(c * c >= l2) by (nonlinear_arith)
            requires
                s * s <= l2 < (s + 1) * (s + 1),
                c == (if s * s < l2 { s + 1 } else { s as int }),
        ;
        let q = if c == 0 {
            let z = Point { x: 0, y: 0 };
            assert(0int * 0int == 0);
            assert(sq_len(z.x as int, z.y as int) == 0);
            assert(r * r >= 0) by (nonlinear_arith);
            z
        } else {
            assert(-0x400_0000_0000_0000 <= px * r <= 0x400_0000_0000_0000) by (nonlinear_arith)
                requires
                    -0x300_0000 <= px <= 0x300_0000,
                    0 <= r <= 0x100_0000,
            ;
            assert(-0x400_0000_0000_0000 <= py * r <= 0x400_0000_0000_0000) by (nonlinear_arith)
                requires
                    -0x300_0000 <= py <= 0x300_0000,
                    0 <= r <= 0x100_0000,
            ;
            let qx = crate::geometry::div_trunc((px as i128) * (r as i128), c as i128);
            let qy = crate::geometry::div_trunc((py as i128) * (r as i128), c as i128);
            proof {
                lemma_projection(px as int, py as int, qx as int, qy as int, r as int, c as int);
                assert(qx * qx <= r * r && qy * qy <= r * r) by (nonlinear_arith)
                    requires
                        qx * qx + qy * qy <= r * r,
                ;
                assert(-r <= qx <= r && -r <= qy <= r) by (nonlinear_arith)
                    requires
                        qx * qx <= r * r,
                        qy * qy <= r * r,
                        r >= 0,
                ;
            }
            let q = Point { x: qx as i64, y: qy as i64 };
            assert(sq_len(q.x as int, q.y as int) == qx * qx + qy * qy);
            assert(in_disc(q, r as int));
            q
        };
        proof {
            assert(r * r >= 0) by (nonlinear_arith);
            assert(in_disc(q, r as int));
            assert(e == (8 * i) / (n as int) && rem == (8 * i) % (n as int));
            assert(a == octagon(e as int, r, h) && b == octagon(e + 1, r, h));
            assert(px == octagon_point(r, n as int, i as int).0);
            assert(py == octagon_point(r, n as int, i as int).1);
            assert(c == ceil_sqrt(px * px + py * py));
            assert(q == ring_point(r, n as int, i as int));
            if i == 0 {
                assert(e == 0 && rem == 0);
                assert(a == Point { x: r, y: 0 });
                assert(tx == 0 && ty == 0);
                assert(l2 == r * r);
                assert(crate::geometry::is_floor_sqrt(r as int, l2 as int)) by (nonlinear_arith)
                    requires
                        l2 == r * r,
                        r >= 0,
                ;
                crate::geometry::lemma_floor_sqrt_unique(s as int, r as int, l2 as int);
                assert(c == r);
                if r > 0 {
                    assert((r * r) / (r as int) == r) by (nonlinear_arith)
                        requires
                            r > 0,
                    ;
                    assert(0int / (r as int) == 0) by (nonlinear_arith)
                        requires
                            r > 0,
                    ;
                }
            }
        }
        out.push(q);
        i = i + 1;
    }
    out
}

/// The lattice point `(a * spacing, b * spacing)`.
pub open spec fn lattice_point(a: int, b: int, spacing: int) -> Point {
    Point { x: (a * spacing) as i64, y: (b * spacing) as i64 }
}

/// `p` comes before `q` in row-major order: by `x`, then by `y`.
pub open spec fn row_before(p: Point, q: Point) -> bool {
    p.x < q.x || (p.x == q.x && p.y < q.y)
}

/// A lattice coordinate whose square stays within `radius^2` is at most
/// `radius / spacing` in size.
proof fn lemma_lattice_range(a: int, spacing: int, radius: int)
    requires
        spacing > 0,
        radius >= 0,
        (a * spacing) * (a * spacing) <= radius * radius,
    ensures
        -(radius / spacing) <= a <= radius / spacing,
{
    let k = radius / spacing;
    if a > k {
        assert(a * spacing > radius) by (nonlinear_arith)
            requires
                a >= k + 1,
                k == radius / spacing,
                spacing > 0,
                radius >= 0,
        ;
        assert((a * spacing) * (a * spacing) > radius * radius) by (nonlinear_arith)
            requires
                a * spacing > radius,
                radius >= 0,
        ;
    }
    if a < -k {
        assert(-(a * spacing) > radius) by (nonlinear_arith)
            requires
                -a >= k + 1,
                k == radius / spacing,
                spacing > 0,
                radius >= 0,
        ;
        assert((a * spacing) * (a * spacing) > radius * radius) by (nonlinear_arith)
            requires
                -(a * spacing) > radius,
                radius >= 0,
        ;
    }
}

/// The points of the square lattice of step `spacing` that lie in the disc
/// of radius `radius` about the origin, every one of them, in row-major
/// order.
pub fn lattice_offsets(radius: i64, spacing: i64) -> (r: Vec<Point>)
    requires
        0 < spacing <= 0x100_0000,
        0 <= radius <= 64 * spacing,
    ensures
        1 <= r.len() <= 16641,
        forall|k: int| 0 <= k < r.len() ==> in_disc(#[trigger] r[k], radius as int),
        forall|k: int|
            0 <= k < r.len() ==> (#[trigger] r[k]).x as int % (spacing as int) == 0 && r[k].y as int % (spacing as int)
                == 0,
        forall|k1: int, k2: int| 0 <= k1 < k2 < r.len() ==> row_before(#[trigger] r[k1], #[trigger] r[k2]),
        forall|a: int, b: int|
            (a * spacing) * (a * spacing) + (b * spacing) * (b * spacing) <= radius * radius ==> #[trigger] r@.contains(
                lattice_point(a, b, spacing as int),
            ),
{
    let k: i64 = radius / spacing;
    assert(k <= 64) by (nonlinear_arith)
        requires
            k == radius / spacing,
            0 <= radius <= 64 * spacing,
            spacing > 0,
    ;
    let mut out: Vec<Point> = Vec::new();
    let mut a: i64 = -k;
    proof {
        assert forall|a2: int, b2: int|
            a2 < a && (a2 * spacing) * (a2 * spacing) + (b2 * spacing) * (b2 * spacing) <= radius
                * radius implies #[trigger] out@.contains(lattice_point(a2, b2, spacing as int)) by {
            assert((a2 * spacing) * (a2 * spacing) >= 0 && (b2 * spacing) * (b2 * spacing) >= 0)
                by (nonlinear_arith);
            lemma_lattice_range(a2, spacing as int, radius as int);
        }
    }
    while a <= k
        invariant
            -k <= a <= k + 1,
            0 <= k <= 64,
            k == radius / spacing,
            0 < spacing <= 0x100_0000,
            0 <= radius <= 64 * spacing,
            out.len() <= (a + k) * (2 * k + 1),
            forall|m: int| 0 <= m < out.len() ==> in_disc(#[trigger] out[m], radius as int),
            forall|m: int|
                0 <= m < out.len() ==> (#[trigger] out[m]).x as int % (spacing as int) == 0 && out[m].y as int % (spacing as int) == 0,
            forall|m: int| 0 <= m < out.len() ==> (#[trigger] out[m]).x < a * spacing,
            forall|m1: int, m2: int|
                0 <= m1 < m2 < out.len() ==> row_before(#[trigger] out[m1], #[trigger] out[m2]),
            forall|a2: int, b2: int|
                a2 < a && (a2 * spacing) * (a2 * spacing) + (b2 * spacing) * (b2 * spacing) <= radius
                    * radius ==> #[trigger] out@.contains(lattice_point(a2, b2, spacing as int)),
        decreases k + 1 - a,
    {
        let mut b: i64 = -k;
        proof {
            assert forall|a2: int, b2: int|
                (a2 < a || (a2 == a && b2 < b)) && (a2 * spacing) * (a2 * spacing) + (b2 * spacing) * (b2
                    * spacing) <= radius * radius implies #[trigger] out@.contains(
                lattice_point(a2, b2, spacing as int),
            ) by {
                if a2 == a {
                    assert((a2 * spacing) * (a2 * spacing) >= 0 && (b2 * spacing) * (b2 * spacing) >= 0)
                        by (nonlinear_arith);
                    lemma_lattice_range(b2, spacing as int, radius as int);
                }
            }
            assert forall|m: int| 0 <= m < out.len() implies (#[trigger] out[m]).x < a * spacing || (out[m].x
                == a * spacing && out[m].y < b * spacing) by {
            }
        }
        while b <= k
            invariant
                -k <= a <= k,
                -k <= b <= k + 1,
                0 <= k <= 64,
                k == radius / spacing,
                0 < spacing <= 0x100_0000,
                0 <= radius <= 64 * spacing,
                out.len() <= (a + k) * (2 * k + 1) + (b + k),
                forall|m: int| 0 <= m < out.len() ==> in_disc(#[trigger] out[m], radius as int),
                forall|m: int|
                    0 <= m < out.len() ==> (#[trigger] out[m]).x as int % (spacing as int) == 0 && out[m].y as int % (spacing as int) == 0,
                forall|m: int|
                    0 <= m < out.len() ==> (#[trigger] out[m]).x < a * spacing || (out[m].x == a * spacing
                        && out[m].y < b * spacing),
                forall|m1: int, m2: int|
                    0 <= m1 < m2 < out.len() ==> row_before(#[trigger] out[m1], #[trigger] out[m2]),
                forall|a2: int, b2: int|
                    (a2 < a || (a2 == a && b2 < b)) && (a2 * spacing) * (a2 * spacing) + (b2 * spacing) * (b2
                        * spacing) <= radius * radius ==> #[trigger] out@.contains(
                        lattice_point(a2, b2, spacing as int),
                    ),
            decreases k + 1 - b,
        {
            assert(-0x4000_0000 <= a * spacing <= 0x4000_0000 && -0x4000_0000 <= b * spacing <= 0x4000_0000)
                by (nonlinear_arith)
                requires
                    -k <= a <= k,
                    -k <= b <= k,
                    0 <= k <= 64,
                    0 < spacing <= 0x100_0000,
            ;
            let x: i64 = a * spacing;
            let y: i64 = b * spacing;
            assert(0 <= x * x <= 0x1000_0000_0000_0000 && 0 <= y * y <= 0x1000_0000_0000_0000) by (nonlinear_arith)
                requires
                    -0x4000_0000 <= x <= 0x4000_0000,
                    -0x4000_0000 <= y <= 0x4000_0000,
            ;
            assert(0 <= radius * radius <= 0x1000_0000_0000_0000) by (nonlinear_arith)
                requires
                    0 <= radius <= 64 * spacing,
                    spacing <= 0x100_0000,
            ;
            let ghost before = out@;
            assert((b + 1) * spacing == b * spacing + spacing) by (nonlinear_arith);
            if x * x + y * y <= radius * radius {
                let p = Point { x, y };
                out.push(p);
                proof {
                    assert(p == lattice_point(a as int, b as int, spacing as int));
                    assert((x as int) % (spacing as int) == 0 && (y as int) % (spacing as int) == 0) by (nonlinear_arith)
                        requires
                            x == a * spacing,
                            y == b * spacing,
                            spacing > 0,
                    ;
                    lemma_in_disc(p, radius as int, radius as int);
                    assert(out@[out.len() - 1] == p);
                    assert forall|a2: int, b2: int|
                        (a2 < a || (a2 == a && b2 < b + 1)) && (a2 * spacing) * (a2 * spacing) + (b2
                            * spacing) * (b2 * spacing) <= radius * radius implies #[trigger] out@.contains(
                        lattice_point(a2, b2, spacing as int),
                    ) by {
                        if a2 == a && b2 == b {
                        } else {
                            assert(before.contains(lattice_point(a2, b2, spacing as int)));
                            let w = choose|w: int| 0 <= w < before.len() && before[w] == lattice_point(a2, b2, spacing as int);
                            assert(out@[w] == before[w]);
                        }
                    }
                }
            } else {
                proof {
                    assert forall|a2: int, b2: int|
                        (a2 < a || (a2 == a && b2 < b + 1)) && (a2 * spacing) * (a2 * spacing) + (b2
                            * spacing) * (b2 * spacing) <= radius * radius implies #[trigger] out@.contains(
                        lattice_point(a2, b2, spacing as int),
                    ) by {
                        if a2 == a && b2 == b {
                            assert(false);
                        }
                    }
                }
            }
            b = b + 1;
        }
        proof {
            assert forall|a2: int, b2: int|
                a2 < a + 1 && (a2 * spacing) * (a2 * spacing) + (b2 * spacing) * (b2 * spacing) <= radius
                    * radius implies #[trigger] out@.contains(lattice_point(a2, b2, spacing as int)) by {
                if a2 == a {
                    assert((a2 * spacing) * (a2 * spacing) >= 0 && (b2 * spacing) * (b2 * spacing) >= 0)
                        by (nonlinear_arith);
                    lemma_lattice_range(b2, spacing as int, radius as int);
                }
            }
            assert((a + 1) * spacing == a * spacing + spacing) by (nonlinear_arith);
            assert forall|m: int| 0 <= m < out.len() implies (#[trigger] out[m]).x < (a + 1) * spacing by {
            }
            assert(out.len() <= (a + 1 + k) * (2 * k + 1)) by (nonlinear_arith)
                requires
                    out.len() <= (a + k) * (2 * k + 1) + (2 * k + 1),
            ;
        }
        a = a + 1;
    }
    proof {
        assert(out.len() <= 16641) by (nonlinear_arith)
            requires
                out.len() <= (2 * k + 1) * (2 * k + 1),
                0 <= k <= 64,
        ;
        assert forall|a2: int, b2: int|
            (a2 * spacing) * (a2 * spacing) + (b2 * spacing) * (b2 * spacing) <= radius * radius implies #[trigger] out@.contains(
            lattice_point(a2, b2, spacing as int),
        ) by {
            assert((a2 * spacing) * (a2 * spacing) >= 0 && (b2 * spacing) * (b2 * spacing) >= 0)
                by (nonlinear_arith);
            lemma_lattice_range(a2, spacing as int, radius as int);
        }
        assert(0int * spacing == 0);
        assert(out@.contains(lattice_point(0, 0, spacing as int)));
    }
    out
}

/// The radius that a blob's particles actually fill: the configured one
/// when packing is possible, none otherwise.
pub open spec fn filled_radius(params: BlobParams) -> int {
    if packable(params.radius as int, params.particle_radius as int) {
        params.radius as int
    } else {
        0
    }
}

/// The number of outline particles a blob gets.
pub open spec fn ring_size(params: BlobParams) -> int {
    if packable(params.radius as int, params.particle_radius as int) {
        outline_count(params.radius as int, params.particle_radius as int)
    } else {
        0
    }
}

/// A blob of these parameters about `origin` stays within the coordinate
/// limits.
pub open spec fn fits(origin: Point, params: BlobParams) -> bool {
    let r = if params.radius > 0 { params.radius as int } else { 0 };
    &&& -POS_LIMIT + r <= origin.x <= POS_LIMIT - r
    &&& -POS_LIMIT + r <= origin.y <= POS_LIMIT - r
}

/// The disc is at most 64 particle radii across, so that the sampling grid
/// stays small.
pub open spec fn shape_ok(params: BlobParams) -> bool {
    params.particle_radius > 0 ==> params.radius <= 64 * params.particle_radius
}

/// The particles of a new blob about `origin`, at rest: the Poisson-disk
/// samples of the disc in grid order, then the outline ring in order.
/// Returns them with the number of inside particles; `seed` fixes the
/// packing. Without a positive particle radius, or with a negative radius,
/// only a particle at `origin`.
pub fn place_particles(origin: Point, params: &BlobParams, seed: u64) -> (r: (Vec<Particle>, usize))
    requires
        params.physics_ok(),
        shape_ok(*params),
        fits(origin, *params),
    ensures
        1 <= r.1 <= r.0.len() <= 0x2_0000,
        r.0.len() - r.1 == ring_size(*params),
        forall|t: int|
            0 <= t < r.0.len() - r.1 ==> (#[trigger] r.0[r.1 + t]).pos.x == origin.x + ring_point(
                params.radius,
                ring_size(*params),
                t,
            ).x && r.0[r.1 + t].pos.y == origin.y + ring_point(params.radius, ring_size(*params), t).y,
        particles_bounded(r.0@),
        forall|m1: int, m2: int|
            0 <= m1 < m2 < r.1 ==> sq_dist(#[trigger] r.0[m1].pos, #[trigger] r.0[m2].pos) >= 4
                * params.particle_radius * params.particle_radius,
        exists|k: int| 0 <= k < r.1 && (#[trigger] r.0[k]).pos == origin,
        forall|k: int|
            0 <= k < r.1 ==> (#[trigger] r.0[k]).pos == origin || (sample_reach(
                params.radius as int,
                params.particle_radius as int,
            ) >= 0 && sq_dist(r.0[k].pos, origin) <= sample_reach(
                params.radius as int,
                params.particle_radius as int,
            ) * sample_reach(params.radius as int, params.particle_radius as int)),
        params.particle_radius > 0 && params.radius >= 4 * params.particle_radius + 3 ==> r.1 >= 2,
        forall|k: int|
            0 <= k < r.0.len() ==> (#[trigger] r.0[k]).vel == (Point { x: 0, y: 0 }) && sq_dist(
                r.0[k].pos,
                origin,
            ) <= filled_radius(*params) * filled_radius(*params),
{
    let radius = params.radius;
    let pr = params.particle_radius;
    let (offsets, ring): (Vec<Point>, Vec<Point>) = if pr > 0 && radius >= 0 {
        proof {
            assert(packable(radius as int, pr as int));
        }
        let inner = poisson_disk(radius, pr, seed);
        assert(pr <= 0x4_0000);
        assert(radius <= 64 * pr);
        assert(radius <= 0x100_0000);
        assert(45553 * pr <= 226 * pr * 202) by (nonlinear_arith)
            requires
                pr > 0,
        ;
        assert((710 * radius + 113 * pr) / (226 * pr) <= 202) by (nonlinear_arith)
            requires
                0 <= radius <= 64 * pr,
                pr > 0,
        ;
        let num: i64 = 710 * radius + 113 * pr;
        let den: i64 = 226 * pr;
        let count: usize = if radius > 0 {
            (num / den) as usize
        } else {
            0
        };
        (inner, ring_offsets(radius, count))
    } else {
        let mut v: Vec<Point> = Vec::new();
        v.push(Point { x: 0, y: 0 });
        assert(v@[0] == Point { x: 0, y: 0 });
        (v, Vec::new())
    };
    let ghost reach = sample_reach(params.radius as int, params.particle_radius as int);
    let ghost origin_offset = Point { x: 0, y: 0 };
    assert(offsets@.contains(origin_offset));
    assert(forall|m: int|
        0 <= m < offsets.len() ==> #[trigger] offsets[m] == origin_offset || (reach >= 0 && sq_len(
            offsets[m].x as int,
            offsets[m].y as int,
        ) <= reach * reach));
    assert(params.particle_radius > 0 && params.radius >= 4 * params.particle_radius + 3 ==> offsets.len() >= 2);
    let ghost fr = filled_radius(*params);
    assert(fr <= 0x100_0000);
    assert(fr * fr >= 0) by (nonlinear_arith);
    assert(sq_len(0, 0) == 0);
    let interior = offsets.len();
    let mut ps: Vec<Particle> = Vec::new();
    let mut k: usize = 0;
    while k < interior
        invariant
            k <= interior,
            interior == offsets.len(),
            interior <= MAX_SAMPLES,
            ps.len() == k,
            fits(origin, *params),
            fr == filled_radius(*params),
            0 <= fr <= 0x100_0000,
            params.radius > 0 ==> fr == params.radius || fr == 0,
            forall|m: int| 0 <= m < interior ==> in_disc(#[trigger] offsets[m], fr),
            forall|m1: int, m2: int|
                0 <= m1 < m2 < interior ==> sq_dist(#[trigger] offsets[m1], #[trigger] offsets[m2]) >= 4
                    * params.particle_radius * params.particle_radius,
            forall|m1: int, m2: int|
                0 <= m1 < m2 < k ==> sq_dist(#[trigger] ps[m1].pos, #[trigger] ps[m2].pos) >= 4
                    * params.particle_radius * params.particle_radius,
            forall|m: int|
                0 <= m < k ==> (#[trigger] ps[m]).pos.x == origin.x + offsets[m].x && ps[m].pos.y == origin.y
                    + offsets[m].y,
            forall|m: int|
                0 <= m < k ==> (#[trigger] ps[m]).vel == (Point { x: 0, y: 0 }) && sq_dist(ps[m].pos, origin)
                    <= fr * fr && coord_ok(ps[m].pos, POS_LIMIT as int),
        decreases interior - k,
    {
        let o = offsets[k];
        assert(in_disc(offsets@[k as int], fr));
        let p = Point { x: origin.x + o.x, y: origin.y + o.y };
        assert(sq_dist(p, origin) == sq_len(o.x as int, o.y as int));
        let ghost before = ps@;
        ps.push(Particle { pos: p, vel: Point { x: 0, y: 0 } });
        proof {
            assert forall|m1: int, m2: int| 0 <= m1 < m2 < k + 1 implies sq_dist(
                #[trigger] ps[m1].pos,
                #[trigger] ps[m2].pos,
            ) >= 4 * params.particle_radius * params.particle_radius by {
                if m2 == k {
                    assert(ps[m1].pos == before[m1].pos);
                    assert(ps[m1].pos.x == origin.x + offsets[m1].x);
                    assert(ps[m1].pos.y == origin.y + offsets[m1].y);
                    assert(sq_dist(ps[m1].pos, p) == sq_dist(offsets[m1], o));
                } else {
                    assert(ps[m1].pos == before[m1].pos && ps[m2].pos == before[m2].pos);
                }
            }
        }
        k = k + 1;
    }
    let ghost ps_inner = ps@;
    proof {
        let w = choose|w: int| 0 <= w < offsets.len() && offsets@[w] == origin_offset;
        assert(ps@[w].pos == origin);
    }
    let mut t: usize = 0;
    while t < ring.len()
        invariant
            forall|m: int| 0 <= m < interior ==> #[trigger] ps@[m] == ps_inner[m],
            ps_inner.len() == interior,
            forall|m: int|
                0 <= m < interior ==> (#[trigger] ps_inner[m]).pos.x == origin.x + offsets[m].x && ps_inner[m].pos.y
                    == origin.y + offsets[m].y,
            interior == offsets.len(),
            t <= ring.len(),
            ring.len() <= 202,
            interior <= MAX_SAMPLES,
            ps.len() == interior + t,
            fits(origin, *params),
            fr == filled_radius(*params),
            0 <= fr <= 0x100_0000,
            params.radius > 0 ==> fr == params.radius || fr == 0,
            forall|m: int| 0 <= m < ring.len() ==> in_disc(#[trigger] ring[m], fr),
            ring.len() == ring_size(*params),
            forall|m: int| 0 <= m < ring.len() ==> #[trigger] ring[m] == ring_point(params.radius, ring_size(*params), m),
            forall|m: int|
                0 <= m < t ==> (#[trigger] ps[interior + m]).pos.x == origin.x + ring[m].x && ps[interior
                    + m].pos.y == origin.y + ring[m].y,
            forall|m1: int, m2: int|
                0 <= m1 < m2 < interior ==> sq_dist(#[trigger] ps[m1].pos, #[trigger] ps[m2].pos) >= 4
                    * params.particle_radius * params.particle_radius,
            forall|m: int|
                0 <= m < ps.len() ==> (#[trigger] ps[m]).vel == (Point { x: 0, y: 0 }) && sq_dist(ps[m].pos, origin)
                    <= fr * fr && coord_ok(ps[m].pos, POS_LIMIT as int),
        decreases ring.len() - t,
    {
        let o = ring[t];
        assert(in_disc(ring@[t as int], fr));
        let p = Point { x: origin.x + o.x, y: origin.y + o.y };
        assert(sq_dist(p, origin) == sq_len(o.x as int, o.y as int));
        let ghost before = ps@;
        ps.push(Particle { pos: p, vel: Point { x: 0, y: 0 } });
        proof {
            assert forall|m1: int, m2: int| 0 <= m1 < m2 < interior implies sq_dist(
                #[trigger] ps[m1].pos,
                #[trigger] ps[m2].pos,
            ) >= 4 * params.particle_radius * params.particle_radius by {
                assert(ps[m1].pos == before[m1].pos && ps[m2].pos == before[m2].pos);
            }
        }
        t = t + 1;
    }
    proof {
        let w = choose|w: int| 0 <= w < offsets.len() && offsets@[w] == origin_offset;
        assert(ps@[w] == ps_inner[w]);
        assert(ps@[w].pos == origin);
        assert forall|k: int| 0 <= k < interior implies (#[trigger] ps@[k]).pos == origin || (reach >= 0
            && sq_dist(ps@[k].pos, origin) <= reach * reach) by {
            assert(ps@[k] == ps_inner[k]);
            assert(sq_dist(ps@[k].pos, origin) == sq_len(offsets[k].x as int, offsets[k].y as int));
            if offsets[k] == origin_offset {
                assert(ps@[k].pos == origin);
            }
        }
    }
    (ps, interior)
}
} // verus!
