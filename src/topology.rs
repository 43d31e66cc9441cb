//! The spring graph of a mesh: links without duplicates, rest lengths
//! taken from the positions at construction, nearest-neighbour selection,
//! and connectedness.
use vstd::prelude::*;
use crate::geometry::{Point, sq_dist, dist, isqrt, lemma_sq_len_nonneg};
use crate::physics::{Particle, Spring, springs_valid, particles_bounded, coord_ok, POS_LIMIT, REST_LIMIT};

verus! {

/// Spring `s` joins particles `a` and `b`, either way round.
pub open spec fn same_pair(s: Spring, a: int, b: int) -> bool {
    (s.particle_a == a && s.particle_b == b) || (s.particle_a == b && s.particle_b == a)
}

/// Some spring joins particles `a` and `b`.
pub open spec fn joined(springs: Seq<Spring>, a: int, b: int) -> bool {
    exists|k: int| 0 <= k < springs.len() && same_pair(#[trigger] springs[k], a, b)
}

/// No two springs join the same two particles.
pub open spec fn no_duplicates(springs: Seq<Spring>) -> bool {
    forall|k1: int, k2: int|
        #![trigger springs[k1], springs[k2]]
        0 <= k1 < k2 < springs.len() ==> !same_pair(
            springs[k2],
            springs[k1].particle_a as int,
            springs[k1].particle_b as int,
        )
}

/// Every spring's rest length is the distance between its particles.
pub open spec fn rest_exact(springs: Seq<Spring>, ps: Seq<Particle>) -> bool {
    forall|k: int|
        0 <= k < springs.len() ==> (#[trigger] springs[k]).rest_length == dist(
            ps[springs[k].particle_a as int].pos,
            ps[springs[k].particle_b as int].pos,
        )
}

/// `p` is a walk along springs.
pub open spec fn is_path(springs: Seq<Spring>, p: Seq<int>) -> bool {
    &&& p.len() >= 1
    &&& forall|k: int| 0 <= k < p.len() - 1 ==> joined(springs, #[trigger] p[k], p[k + 1])
}

/// Every one of the first `n` particles can be reached from particle `0`
/// along springs: the spring graph has a single component.
pub open spec fn connected(springs: Seq<Spring>, n: int) -> bool {
    forall|i: int| 0 <= i < n ==> #[trigger] reachable(springs, i)
}

/// Particle `i` can be reached from particle `0` along springs.
pub open spec fn reachable(springs: Seq<Spring>, i: int) -> bool {
    exists|p: Seq<int>| #[trigger] is_path(springs, p) && p[0] == 0 && p.last() == i
}

/// Every particle but the first is joined to one of lower index.
pub open spec fn linked_below(springs: Seq<Spring>, n: int) -> bool {
    forall|i: int| 1 <= i < n ==> #[trigger] has_lower(springs, i)
}

/// Particle `i` has a spring to a particle of lower index.
pub open spec fn has_lower(springs: Seq<Spring>, i: int) -> bool {
    exists|j: int| 0 <= j < i && #[trigger] joined(springs, i, j)
}

/// A walk from particle `0` to particle `i`, following links to lower
/// indices backwards.
proof fn lemma_path_to(springs: Seq<Spring>, n: int, i: int) -> (p: Seq<int>)
    requires
        linked_below(springs, n),
        0 <= i < n,
    ensures
        is_path(springs, p),
        p[0] == 0,
        p.last() == i,
    decreases i,
{
    if i == 0 {
        seq![0int]
    } else {
        assert(has_lower(springs, i));
        let j = choose|j: int| 0 <= j < i && #[trigger] joined(springs, i, j);
        let q = lemma_path_to(springs, n, j);
        let p = q.push(i);
        assert forall|k: int| 0 <= k < p.len() - 1 implies joined(springs, #[trigger] p[k], p[k + 1]) by {
            if k < q.len() - 1 {
                assert(p[k] == q[k] && p[k + 1] == q[k + 1]);
            } else {
                assert(p[k] == j && p[k + 1] == i);
                let w = choose|w: int| 0 <= w < springs.len() && same_pair(#[trigger] springs[w], i, j);
                assert(same_pair(springs[w], j, i));
            }
        }
        p
    }
}

/// A graph in which every particle but the first has a spring to one of
/// lower index is connected.
pub proof fn lemma_linked_below_connected(springs: Seq<Spring>, n: int)
    requires
        linked_below(springs, n),
    ensures
        connected(springs, n),
{
    assert forall|i: int| 0 <= i < n implies #[trigger] reachable(springs, i) by {
        let p = lemma_path_to(springs, n, i);
        assert(is_path(springs, p) && p[0] == 0 && p.last() == i);
    }
}

/// Some walk along springs leads from particle `i` to particle `j`.
pub open spec fn linked(springs: Seq<Spring>, i: int, j: int) -> bool {
    exists|p: Seq<int>| #[trigger] is_path(springs, p) && p[0] == i && p.last() == j
}

/// In a connected spring graph every particle can be reached from every
/// other: walk back to particle `0`, then out to the other.
pub proof fn lemma_connected_all_pairs(springs: Seq<Spring>, n: int, i: int, j: int)
    requires
        connected(springs, n),
        0 <= i < n,
        0 <= j < n,
    ensures
        linked(springs, i, j),
{
    assert(reachable(springs, i));
    assert(reachable(springs, j));
    let pi = choose|p: Seq<int>| #[trigger] is_path(springs, p) && p[0] == 0 && p.last() == i;
    let pj = choose|p: Seq<int>| #[trigger] is_path(springs, p) && p[0] == 0 && p.last() == j;
    let back = pi.reverse();
    let walk = back + pj.drop_first();
    assert forall|k: int| 0 <= k < walk.len() - 1 implies joined(springs, #[trigger] walk[k], walk[k + 1]) by {
        let a = walk[k];
        let b = walk[k + 1];
        if k < back.len() - 1 {
            let r = pi.len() - 2 - k;
            assert(a == pi[r + 1] && b == pi[r]);
            assert(joined(springs, pi[r], pi[r + 1]));
            let w = choose|w: int| 0 <= w < springs.len() && same_pair(#[trigger] springs[w], pi[r], pi[r + 1]);
            assert(same_pair(springs[w], a, b));
        } else if k == back.len() - 1 {
            assert(a == pi[0] && a == 0);
            assert(b == pj[1]);
            assert(joined(springs, pj[0], pj[1]));
        } else {
            let r = k - back.len() + 1;
            assert(a == pj[r] && b == pj[r + 1]);
            assert(joined(springs, pj[r], pj[r + 1]));
        }
    }
    if pj.len() == 1 {
        assert(walk =~= back);
        assert(walk.last() == pi[0]);
        assert(j == 0);
    } else {
        assert(walk.last() == pj.last());
    }
    assert(walk[0] == pi.last());
    assert(is_path(springs, walk));
}

/// The invariant of a spring list under construction over the particles
/// `ps`.
pub open spec fn springs_ok(springs: Seq<Spring>, ps: Seq<Particle>) -> bool {
    &&& springs_valid(springs, ps.len() as int)
    &&& no_duplicates(springs)
    &&& rest_exact(springs, ps)
}

/// Whether some spring already joins `a` and `b`.
pub fn has_spring(springs: &Vec<Spring>, a: usize, b: usize) -> (r: bool)
    ensures
        r == joined(springs@, a as int, b as int),
{
    let mut k: usize = 0;
    while k < springs.len()
        invariant
            k <= springs.len(),
            forall|m: int| 0 <= m < k ==> !same_pair(#[trigger] springs@[m], a as int, b as int),
        decreases springs.len() - k,
    {
        let s = springs[k];
        if (s.particle_a == a && s.particle_b == b) || (s.particle_a == b && s.particle_b == a) {
            assert(same_pair(springs@[k as int], a as int, b as int));
            return true;
        }
        k = k + 1;
    }
    false
}

/// The distance between particles `a` and `b`, rounded down.
pub fn rest_between(ps: &Vec<Particle>, a: usize, b: usize) -> (r: u64)
    requires
        a < ps.len(),
        b < ps.len(),
        particles_bounded(ps@),
    ensures
        r == dist(ps[a as int].pos, ps[b as int].pos),
        r <= REST_LIMIT,
{
    let p = ps[a].pos;
    let q = ps[b].pos;
    assert(coord_ok(ps@[a as int].pos, POS_LIMIT as int));
    assert(coord_ok(ps@[b as int].pos, POS_LIMIT as int));
    let dx: i128 = p.x as i128 - q.x as i128;
    let dy: i128 = p.y as i128 - q.y as i128;
    assert(0 <= dx * dx <= 0x1_0000_0000_0000_0000) by (nonlinear_arith)
        requires
            -0x1_0000_0000 <= dx <= 0x1_0000_0000,
    ;
    assert(0 <= dy * dy <= 0x1_0000_0000_0000_0000) by (nonlinear_arith)
        requires
            -0x1_0000_0000 <= dy <= 0x1_0000_0000,
    ;
    let v: i128 = dx * dx + dy * dy;
    let r = isqrt(v as u128);
    proof {
        assert(v <= 0x2_0000_0000 * 0x2_0000_0000);
        crate::geometry::lemma_floor_sqrt_bound(v as int, 0x2_0000_0000);
        assert(sq_dist(p, q) == v);
    }
    r
}

/// Adds a spring between particles `a` and `b`, at rest at their present
/// distance, unless one already joins them.
pub fn add_spring(springs: &mut Vec<Spring>, ps: &Vec<Particle>, a: usize, b: usize)
    requires
        a < ps.len(),
        b < ps.len(),
        a != b,
        particles_bounded(ps@),
        springs_ok(old(springs)@, ps@),
        old(springs).len() < usize::MAX,
    ensures
        springs_ok(final(springs)@, ps@),
        extends(final(springs)@, old(springs)@),
        joined(final(springs)@, a as int, b as int),
        joined(old(springs)@, a as int, b as int) ==> final(springs)@ == old(springs)@,
        !joined(old(springs)@, a as int, b as int) ==> final(springs)@ == old(springs)@.push(
            Spring { particle_a: a, particle_b: b, rest_length: dist(ps[a as int].pos, ps[b as int].pos) as u64 },
        ),
{
    if !has_spring(springs, a, b) {
        let rest = rest_between(ps, a, b);
        let ghost before = springs@;
        springs.push(Spring { particle_a: a, particle_b: b, rest_length: rest });
        proof {
            let n = springs.len() as int;
            assert(same_pair(springs@[n - 1], a as int, b as int));
            assert forall|k1: int, k2: int|
                #![trigger springs@[k1], springs@[k2]]
                0 <= k1 < k2 < springs.len() implies !same_pair(
                springs@[k2],
                springs@[k1].particle_a as int,
                springs@[k1].particle_b as int,
            ) by {
                if k2 == n - 1 {
                    assert(springs@[k1] == before[k1]);
                    if same_pair(springs@[k2], springs@[k1].particle_a as int, springs@[k1].particle_b as int) {
                        assert(same_pair(before[k1], a as int, b as int));
                    }
                } else {
                    assert(springs@[k1] == before[k1]);
                    assert(springs@[k2] == before[k2]);
                }
            }
            assert forall|k: int| 0 <= k < springs.len() implies (#[trigger] springs@[k]).rest_length == dist(
                ps[springs@[k].particle_a as int].pos,
                ps[springs@[k].particle_b as int].pos,
            ) by {
                if k < n - 1 {
                    assert(springs@[k] == before[k]);
                }
            }
            assert forall|k: int| 0 <= k < springs.len() implies {
                let s = #[trigger] springs@[k];
                &&& s.particle_a < ps.len()
                &&& s.particle_b < ps.len()
                &&& s.particle_a != s.particle_b
                &&& s.rest_length <= REST_LIMIT
            } by {
                if k < n - 1 {
                    assert(springs@[k] == before[k]);
                }
            }
        }
    }
}


/// Particle `j1` is nearer to particle `i` than particle `j2` is, ties going
/// to the lower index.
pub open spec fn nearer(ps: Seq<Particle>, i: int, j1: int, j2: int) -> bool {
    let d1 = sq_dist(ps[i].pos, ps[j1].pos);
    let d2 = sq_dist(ps[i].pos, ps[j2].pos);
    d1 < d2 || (d1 == d2 && j1 < j2)
}

/// Squared distance between particles `a` and `b`.
fn sq_dist_between(ps: &Vec<Particle>, a: usize, b: usize) -> (r: i128)
    requires
        a < ps.len(),
        b < ps.len(),
        particles_bounded(ps@),
    ensures
        r == sq_dist(ps[a as int].pos, ps[b as int].pos),
{
    let p = ps[a].pos;
    let q = ps[b].pos;
    assert(coord_ok(ps@[a as int].pos, POS_LIMIT as int));
    assert(coord_ok(ps@[b as int].pos, POS_LIMIT as int));
    let dx: i128 = p.x as i128 - q.x as i128;
    let dy: i128 = p.y as i128 - q.y as i128;
    assert(0 <= dx * dx <= 0x1_0000_0000_0000_0000) by (nonlinear_arith)
        requires
            -0x1_0000_0000 <= dx <= 0x1_0000_0000,
    ;
    assert(0 <= dy * dy <= 0x1_0000_0000_0000_0000) by (nonlinear_arith)
        requires
            -0x1_0000_0000 <= dy <= 0x1_0000_0000,
    ;
    dx * dx + dy * dy
}

/// `r` lists the (at most) `k` particles among `0 .. limit`, other than
/// `i`, nearest to particle `i`, nearest first, ties going to the lower
/// index: fewer than `k` only when there are no more.
pub open spec fn nearest_ok(ps: Seq<Particle>, i: int, limit: int, k: int, r: Seq<usize>) -> bool {
    &&& r.len() <= k
    &&& forall|m: int| 0 <= m < r.len() ==> #[trigger] r[m] < limit && r[m] != i
    &&& forall|m1: int, m2: int|
        0 <= m1 < m2 < r.len() ==> nearer(ps, i, #[trigger] r[m1] as int, #[trigger] r[m2] as int)
    &&& forall|j: int, m: int|
        0 <= j < limit && j != i && !r.contains(j as usize) && 0 <= m < r.len() ==> #[trigger] nearer(
            ps,
            i,
            r[m] as int,
            j,
        )
    &&& r.len() < k ==> forall|j: int| 0 <= j < limit && j != i ==> #[trigger] r.contains(j as usize)
}

/// How many springs particle `i` gets to its nearest inside particles: six
/// on the outline, eight inside.
pub open spec fn links_wanted(i: int, interior: int) -> int {
    if i >= interior {
        6
    } else {
        8
    }
}

/// Particle `i` is joined to each of its `links_wanted` nearest inside
/// particles.
pub open spec fn knn_linked(springs: Seq<Spring>, ps: Seq<Particle>, i: int, interior: int) -> bool {
    exists|s: Seq<usize>|
        #[trigger] nearest_ok(ps, i, interior, links_wanted(i, interior), s) && forall|m: int|
            0 <= m < s.len() ==> joined(springs, i, #[trigger] s[m] as int)
}

/// Particle `j` is among the `k` particles of `0 .. limit`, other than `i`,
/// nearest to particle `i`.
pub open spec fn among_nearest(ps: Seq<Particle>, i: int, limit: int, k: int, j: int) -> bool {
    exists|s: Seq<usize>| #[trigger] nearest_ok(ps, i, limit, k, s) && s.contains(j as usize)
}

/// Spring `s` joins particle `particle_a` to one of its `links_wanted`
/// nearest inside particles.
pub open spec fn nearest_link(s: Spring, ps: Seq<Particle>, interior: int) -> bool {
    among_nearest(
        ps,
        s.particle_a as int,
        interior,
        links_wanted(s.particle_a as int, interior),
        s.particle_b as int,
    )
}

/// Spring `s` joins outline particle `particle_a` to the next one on the
/// ring `interior .. n`.
pub open spec fn ring_link(s: Spring, interior: int, n: int) -> bool {
    interior <= s.particle_a < n && s.particle_b == interior + (s.particle_a - interior + 1) % (n - interior)
}

/// Spring `s` joins particle `particle_a` to the nearest particle of lower
/// index.
pub open spec fn lower_link(s: Spring, ps: Seq<Particle>) -> bool {
    s.particle_b < s.particle_a && among_nearest(ps, s.particle_a as int, s.particle_a as int, 1, s.particle_b as int)
}

/// The (at most) `k` particles among `0 .. limit`, other than `i`, nearest
/// to particle `i`, nearest first, ties going to the lower index.
pub fn nearest(ps: &Vec<Particle>, i: usize, limit: usize, k: usize) -> (r: Vec<usize>)
    requires
        i < ps.len(),
        limit <= ps.len(),
        particles_bounded(ps@),
    ensures
        nearest_ok(ps@, i as int, limit as int, k as int, r@),
{
    let mut taken: Vec<bool> = Vec::new();
    let mut t: usize = 0;
    while t < limit
        invariant
            t <= limit,
            taken.len() == t,
            forall|j: int| 0 <= j < t ==> !(#[trigger] taken[j]),
        decreases limit - t,
    {
        taken.push(false);
        t = t + 1;
    }
    let mut r: Vec<usize> = Vec::new();
    let mut done = false;
    while r.len() < k && !done
        invariant
            i < ps.len(),
            limit <= ps.len(),
            particles_bounded(ps@),
            taken.len() == limit,
            r.len() <= k,
            forall|j: int| 0 <= j < limit ==> (#[trigger] taken[j] <==> r@.contains(j as usize)),
            forall|m: int| 0 <= m < r.len() ==> #[trigger] r[m] < limit && r[m] != i,
            forall|m1: int, m2: int|
                0 <= m1 < m2 < r.len() ==> nearer(ps@, i as int, #[trigger] r[m1] as int, #[trigger] r[m2] as int),
            forall|j: int, m: int|
                0 <= j < limit && j != i && !r@.contains(j as usize) && 0 <= m < r.len() ==> #[trigger] nearer(ps@, i as int, r[m] as int, j),
            done ==> forall|j: int| 0 <= j < limit && j != i ==> #[trigger] r@.contains(j as usize),
        decreases k - r.len(), if done { 0int } else { 1int },
    {
        let mut found = false;
        let mut best: usize = 0;
        let mut best_d: i128 = 0;
        let mut j: usize = 0;
        while j < limit
            invariant
                j <= limit,
                i < ps.len(),
                limit <= ps.len(),
                particles_bounded(ps@),
                taken.len() == limit,
                found ==> best < j && best != i && !taken[best as int] && best_d == sq_dist(
                    ps[i as int].pos,
                    ps[best as int].pos,
                ),
                found ==> forall|j2: int|
                    0 <= j2 < j && j2 != i && !(#[trigger] taken[j2]) && j2 != best ==> nearer(
                        ps@,
                        i as int,
                        best as int,
                        j2,
                    ),
                !found ==> forall|j2: int| 0 <= j2 < j && j2 != i ==> #[trigger] taken[j2],
            decreases limit - j,
        {
            if j != i && !taken[j] {
                let d = sq_dist_between(ps, i, j);
                if !found || d < best_d {
                    found = true;
                    best = j;
                    best_d = d;
                }
            }
            j = j + 1;
        }
        if found {
            let ghost old_r = r@;
            r.push(best);
            taken.set(best, true);
            proof {
                assert forall|jj: int| 0 <= jj < limit implies (#[trigger] taken[jj] <==> r@.contains(jj as usize)) by {
                    if jj == best {
                        assert(r@[r.len() - 1] == best);
                    } else {
                        if r@.contains(jj as usize) {
                            let w = choose|w: int| 0 <= w < r.len() && r@[w] == jj as usize;
                            assert(w < old_r.len());
                            assert(old_r.contains(jj as usize));
                        }
                        if old_r.contains(jj as usize) {
                            let w = choose|w: int| 0 <= w < old_r.len() && old_r[w] == jj as usize;
                            assert(r@[w] == jj as usize);
                        }
                    }
                }
                assert forall|jj: int, m: int|
                    0 <= jj < limit && jj != i && !r@.contains(jj as usize) && 0 <= m < r.len() implies #[trigger] nearer(ps@, i as int, r[m] as int, jj) by {
                    assert(r@[r.len() - 1] == best);
                    assert(jj != best);
                    if !old_r.contains(jj as usize) {
                    } else {
                        let w = choose|w: int| 0 <= w < old_r.len() && old_r[w] == jj as usize;
                        assert(r@[w] == jj as usize);
                    }
                    if m < old_r.len() {
                        assert(r[m] == old_r[m]);
                    } else {
                        assert(!taken[jj]);
                    }
                }
                assert forall|m1: int, m2: int|
                    0 <= m1 < m2 < r.len() implies nearer(ps@, i as int, #[trigger] r[m1] as int, #[trigger] r[m2] as int) by {
                    if m2 == r.len() - 1 {
                        assert(r[m1] == old_r[m1]);
                        assert(!old_r.contains(best));
                    } else {
                        assert(r[m1] == old_r[m1]);
                        assert(r[m2] == old_r[m2]);
                    }
                }
            }
        } else {
            assert forall|jj: int| 0 <= jj < limit && jj != i implies #[trigger] r@.contains(jj as usize) by {
                assert(taken[jj]);
            }
            done = true;
        }
    }
    r
}

/// Whether some spring joins particle `i` to one of lower index.
pub fn has_lower_link(springs: &Vec<Spring>, i: usize) -> (r: bool)
    ensures
        r == has_lower(springs@, i as int),
{
    let mut k: usize = 0;
    while k < springs.len()
        invariant
            k <= springs.len(),
            forall|m: int|
                0 <= m < k ==> !({
                    let s = #[trigger] springs@[m];
                    (s.particle_a == i && s.particle_b < i) || (s.particle_b == i && s.particle_a < i)
                }),
        decreases springs.len() - k,
    {
        let s = springs[k];
        if (s.particle_a == i && s.particle_b < i) || (s.particle_b == i && s.particle_a < i) {
            proof {
                let j: int = if s.particle_a == i { s.particle_b as int } else { s.particle_a as int };
                assert(same_pair(springs@[k as int], i as int, j));
                assert(joined(springs@, i as int, j));
            }
            return true;
        }
        k = k + 1;
    }
    proof {
        if has_lower(springs@, i as int) {
            let j = choose|j: int| 0 <= j < i && #[trigger] joined(springs@, i as int, j);
            let w = choose|w: int| 0 <= w < springs.len() && same_pair(#[trigger] springs@[w], i as int, j);
            assert(!({
                let s = springs@[w];
                (s.particle_a == i && s.particle_b < i) || (s.particle_b == i && s.particle_a < i)
            }));
        }
    }
    false
}

/// `after` keeps every spring of `before`, in place.
pub open spec fn extends(after: Seq<Spring>, before: Seq<Spring>) -> bool {
    after.len() >= before.len() && forall|k: int| 0 <= k < before.len() ==> #[trigger] after[k] == before[k]
}

/// Springs are only ever added: what was joined stays joined.
pub proof fn lemma_extends_joined(before: Seq<Spring>, after: Seq<Spring>, a: int, b: int)
    requires
        extends(after, before),
        joined(before, a, b),
    ensures
        joined(after, a, b),
{
    let w = choose|w: int| 0 <= w < before.len() && same_pair(#[trigger] before[w], a, b);
    assert(after[w] == before[w]);
}

/// A spring that joined two particles still joins them after another is
/// added.
proof fn lemma_joined_push(springs: Seq<Spring>, x: Spring, a: int, b: int)
    requires
        joined(springs, a, b),
    ensures
        joined(springs.push(x), a, b),
{
    let w = choose|w: int| 0 <= w < springs.len() && same_pair(#[trigger] springs[w], a, b);
    assert(springs.push(x)[w] == springs[w]);
}

/// Springs between every two particles at most `sqrt(max2)` apart, and no
/// others, at rest at their present distances.
pub fn link_near(ps: &Vec<Particle>, max2: i128) -> (springs: Vec<Spring>)
    requires
        particles_bounded(ps@),
        ps.len() <= 16641,
    ensures
        springs_ok(springs@, ps@),
        springs.len() <= ps.len() * ps.len(),
        forall|i: int, j: int|
            0 <= i < j < ps.len() && sq_dist(ps[i].pos, ps[j].pos) <= max2 ==> #[trigger] joined(
                springs@,
                i,
                j,
            ),
        forall|k: int|
            0 <= k < springs.len() ==> sq_dist(
                ps[(#[trigger] springs[k]).particle_a as int].pos,
                ps[springs[k].particle_b as int].pos,
            ) <= max2,
{
    let n = ps.len();
    let mut springs: Vec<Spring> = Vec::new();
    let mut i: usize = 0;
    while i < n
        invariant
            i <= n,
            n == ps.len(),
            n <= 16641,
            particles_bounded(ps@),
            springs_ok(springs@, ps@),
            springs.len() <= i * n,
            forall|a: int, b: int|
                0 <= a < i && a < b < n && sq_dist(ps[a].pos, ps[b].pos) <= max2 ==> #[trigger] joined(
                    springs@,
                    a,
                    b,
                ),
            forall|k: int|
                0 <= k < springs.len() ==> sq_dist(
                    ps[(#[trigger] springs[k]).particle_a as int].pos,
                    ps[springs[k].particle_b as int].pos,
                ) <= max2,
        decreases n - i,
    {
        let mut j: usize = i + 1;
        while j < n
            invariant
                i < n,
                i + 1 <= j <= n,
                n == ps.len(),
                n <= 16641,
                particles_bounded(ps@),
                springs_ok(springs@, ps@),
                springs.len() <= i * n + j,
                forall|a: int, b: int|
                    ((0 <= a < i && a < b < n) || (a == i && i < b < j)) && sq_dist(ps[a].pos, ps[b].pos)
                        <= max2 ==> #[trigger] joined(springs@, a, b),
                forall|k: int|
                    0 <= k < springs.len() ==> sq_dist(
                        ps[(#[trigger] springs[k]).particle_a as int].pos,
                        ps[springs[k].particle_b as int].pos,
                    ) <= max2,
            decreases n - j,
        {
            let d = sq_dist_between(ps, i, j);
            assert(i * n + j <= 16641 * 16641) by (nonlinear_arith)
                requires
                    i < n,
                    j < n,
                    n <= 16641,
            ;
            if d <= max2 {
                let ghost before = springs@;
                add_spring(&mut springs, ps, i, j);
                proof {
                    assert forall|a: int, b: int|
                        ((0 <= a < i && a < b < n) || (a == i && i < b < j + 1)) && sq_dist(ps[a].pos, ps[b].pos)
                            <= max2 implies #[trigger] joined(springs@, a, b) by {
                        if !(a == i && b == j) {
                            lemma_extends_joined(before, springs@, a, b);
                        }
                    }
                    assert forall|k: int| 0 <= k < springs.len() implies sq_dist(
                        ps[(#[trigger] springs@[k]).particle_a as int].pos,
                        ps[springs@[k].particle_b as int].pos,
                    ) <= max2 by {
                        if k < before.len() {
                            assert(springs@[k] == before[k]);
                        }
                    }
                }
            }
            j = j + 1;
        }
        proof {
            assert(i * n + n == (i + 1) * n) by (nonlinear_arith);
        }
        i = i + 1;
    }
    proof {
        assert(n * n >= 0) by (nonlinear_arith);
    }
    springs
}

/// Adds, for each particle that has no spring to one of lower index, a
/// spring to the nearest particle of lower index. Afterwards every particle
/// but the first has such a spring, so the graph is connected.
pub fn link_below(springs: &mut Vec<Spring>, ps: &Vec<Particle>)
    requires
        springs_ok(old(springs)@, ps@),
        particles_bounded(ps@),
        ps.len() <= 0x2_0000,
        old(springs).len() + ps.len() <= crate::physics::MAX_SPRINGS,
    ensures
        springs_ok(final(springs)@, ps@),
        extends(final(springs)@, old(springs)@),
        final(springs).len() <= old(springs).len() + ps.len(),
        linked_below(final(springs)@, ps.len() as int),
        connected(final(springs)@, ps.len() as int),
        forall|k: int|
            old(springs).len() <= k < final(springs).len() ==> lower_link(#[trigger] final(springs)@[k], ps@),
{
    let n = ps.len();
    let ghost start = springs@;
    let mut i: usize = 1;
    while i < n
        invariant
            1 <= i <= n || n == 0,
            n == ps.len(),
            n <= 0x2_0000,
            particles_bounded(ps@),
            springs_ok(springs@, ps@),
            extends(springs@, start),
            start.len() + n <= crate::physics::MAX_SPRINGS,
            springs.len() <= start.len() + i,
            n == 0 ==> springs@ == start,
            forall|q: int| 1 <= q < i ==> #[trigger] has_lower(springs@, q),
            forall|k: int| start.len() <= k < springs.len() ==> lower_link(#[trigger] springs@[k], ps@),
        decreases n - i,
    {
        if !has_lower_link(springs, i) {
            let near = nearest(ps, i, i, 1);
            proof {
                if near.len() == 0 {
                    let z: int = 0;
                    assert(near@.contains(z as usize));
                }
            }
            let j = near[0];
            let ghost before = springs@;
            add_spring(springs, ps, i, j);
            proof {
                assert(joined(springs@, i as int, j as int));
                assert(has_lower(springs@, i as int));
                assert forall|q: int| 1 <= q < i implies #[trigger] has_lower(springs@, q) by {
                    assert(has_lower(before, q));
                    let w = choose|w: int| 0 <= w < q && #[trigger] joined(before, q, w);
                    lemma_extends_joined(before, springs@, q, w);
                }
                assert forall|k: int| 0 <= k < start.len() implies #[trigger] springs@[k] == start[k] by {
                    assert(before[k] == start[k]);
                }
                assert(near@.contains(j));
                assert forall|k: int| start.len() <= k < springs.len() implies lower_link(#[trigger] springs@[k], ps@) by {
                    if k < before.len() {
                        assert(springs@[k] == before[k]);
                    } else {
                        assert(springs@[k].particle_a == i && springs@[k].particle_b == j);
                        assert(nearest_ok(ps@, i as int, i as int, 1, near@));
                    }
                }
            }
        }
        i = i + 1;
    }
    proof {
        assert(linked_below(springs@, n as int));
        lemma_linked_below_connected(springs@, n as int);
    }
}

/// Springs of a mesh whose particles `0 .. interior` fill the inside and
/// `interior .. ps.len()` form the outline ring, in order: each particle is
/// joined to its nearest inside particles (six for an outline particle,
/// eight for an inside one), each outline particle to the next on the ring,
/// and any particle still without a link to one of lower index to the
/// nearest such. No pair is joined twice; rest lengths are the present
/// distances; the graph is connected.
pub fn build_springs(ps: &Vec<Particle>, interior: usize) -> (springs: Vec<Spring>)
    requires
        1 <= interior <= ps.len(),
        ps.len() <= 0x2_0000,
        particles_bounded(ps@),
    ensures
        springs_ok(springs@, ps@),
        springs.len() <= 10 * ps.len(),
        connected(springs@, ps.len() as int),
        forall|i: int| 0 <= i < ps.len() ==> #[trigger] knn_linked(springs@, ps@, i, interior as int),
        forall|k: int|
            0 <= k < springs.len() ==> nearest_link(#[trigger] springs@[k], ps@, interior as int) || ring_link(
                springs@[k],
                interior as int,
                ps.len() as int,
            ) || lower_link(springs@[k], ps@),
        ps.len() - interior >= 2 ==> forall|t: int|
            0 <= t < ps.len() - interior ==> #[trigger] joined(
                springs@,
                interior + t,
                interior + (t + 1) % (ps.len() - interior),
            ),
{
    let n = ps.len();
    let mut springs: Vec<Spring> = Vec::new();
    let ghost mut sel: Seq<Seq<usize>> = Seq::empty();
    let mut i: usize = 0;
    while i < n
        invariant
            i <= n,
            n == ps.len(),
            n <= 0x2_0000,
            1 <= interior <= n,
            particles_bounded(ps@),
            springs_ok(springs@, ps@),
            springs.len() <= 8 * i,
            sel.len() == i,
            forall|q: int|
                0 <= q < i ==> #[trigger] nearest_ok(ps@, q, interior as int, links_wanted(q, interior as int), sel[q]),
            forall|q: int, m: int|
                0 <= q < i && 0 <= m < sel[q].len() ==> joined(springs@, q, #[trigger] sel[q][m] as int),
            forall|k: int| 0 <= k < springs.len() ==> nearest_link(#[trigger] springs@[k], ps@, interior as int),
        decreases n - i,
    {
        let kk: usize = if i >= interior {
            6
        } else {
            8
        };
        let near = nearest(ps, i, interior, kk);
        let mut m: usize = 0;
        while m < near.len()
            invariant
                m <= near.len(),
                near.len() <= kk,
                kk <= 8,
                i < n,
                n == ps.len(),
                n <= 0x2_0000,
                1 <= interior <= n,
                particles_bounded(ps@),
                springs_ok(springs@, ps@),
                springs.len() <= 8 * i + m,
                forall|q: int| 0 <= q < near.len() ==> #[trigger] near[q] < interior && near[q] != i,
                sel.len() == i,
                forall|q: int, m2: int|
                    0 <= q < i && 0 <= m2 < sel[q].len() ==> joined(springs@, q, #[trigger] sel[q][m2] as int),
                forall|m2: int| 0 <= m2 < m ==> joined(springs@, i as int, #[trigger] near[m2] as int),
                forall|k: int| 0 <= k < springs.len() ==> nearest_link(#[trigger] springs@[k], ps@, interior as int),
                nearest_ok(ps@, i as int, interior as int, kk as int, near@),
                kk == links_wanted(i as int, interior as int),
            decreases near.len() - m,
        {
            assert(near[m as int] < interior && near[m as int] != i);
            let ghost before = springs@;
            add_spring(&mut springs, ps, i, near[m]);
            proof {
                assert forall|q: int, m2: int|
                    0 <= q < i && 0 <= m2 < sel[q].len() implies joined(springs@, q, #[trigger] sel[q][m2] as int) by {
                    lemma_extends_joined(before, springs@, q, sel[q][m2] as int);
                }
                assert forall|k: int| 0 <= k < springs.len() implies nearest_link(#[trigger] springs@[k], ps@, interior as int) by {
                    if k < before.len() {
                        assert(springs@[k] == before[k]);
                    } else {
                        assert(springs@[k].particle_a == i && springs@[k].particle_b == near[m as int]);
                        assert(near@.contains(near[m as int]));
                    }
                }
                assert forall|m2: int| 0 <= m2 < m + 1 implies joined(springs@, i as int, #[trigger] near[m2] as int) by {
                    if m2 < m {
                        lemma_extends_joined(before, springs@, i as int, near[m2] as int);
                    }
                }
            }
            m = m + 1;
        }
        proof {
            sel = sel.push(near@);
            assert(nearest_ok(ps@, i as int, interior as int, links_wanted(i as int, interior as int), sel[i as int]));
        }
        i = i + 1;
    }
    let ring = n - interior;
    let mut t: usize = 0;
    while t < ring
        invariant
            t <= ring,
            ring == n - interior,
            n == ps.len(),
            n <= 0x2_0000,
            1 <= interior <= n,
            particles_bounded(ps@),
            springs_ok(springs@, ps@),
            springs.len() <= 8 * n + t,
            ring >= 2 ==> forall|u: int|
                0 <= u < t ==> #[trigger] joined(springs@, interior + u, interior + (u + 1) % (ring as int)),
            sel.len() == n,
            forall|q: int|
                0 <= q < n ==> #[trigger] nearest_ok(ps@, q, interior as int, links_wanted(q, interior as int), sel[q]),
            forall|q: int, m: int|
                0 <= q < n && 0 <= m < sel[q].len() ==> joined(springs@, q, #[trigger] sel[q][m] as int),
            forall|k: int|
                0 <= k < springs.len() ==> nearest_link(#[trigger] springs@[k], ps@, interior as int) || ring_link(
                    springs@[k],
                    interior as int,
                    n as int,
                ),
        decreases ring - t,
    {
        let a = interior + t;
        let b = interior + (t + 1) % ring;
        if a != b {
            let ghost before = springs@;
            add_spring(&mut springs, ps, a, b);
            proof {
                assert forall|q: int, m: int|
                    0 <= q < n && 0 <= m < sel[q].len() implies joined(springs@, q, #[trigger] sel[q][m] as int) by {
                    lemma_extends_joined(before, springs@, q, sel[q][m] as int);
                }
                assert forall|k: int| 0 <= k < springs.len() implies nearest_link(#[trigger] springs@[k], ps@, interior as int)
                    || ring_link(springs@[k], interior as int, n as int) by {
                    if k < before.len() {
                        assert(springs@[k] == before[k]);
                    } else {
                        assert(springs@[k].particle_a == a && springs@[k].particle_b == b);
                    }
                }
                if ring >= 2 {
                    assert forall|u: int| 0 <= u < t implies #[trigger] joined(
                        springs@,
                        interior + u,
                        interior + (u + 1) % (ring as int),
                    ) by {
                        if springs@ != before {
                            lemma_joined_push(before, springs@.last(), interior + u, interior + (u + 1) % (ring as int));
                            assert(springs@ == before.push(springs@.last()));
                        }
                    }
                }
            }
        } else {
            assert(ring < 2) by (nonlinear_arith)
                requires
                    a == interior + t,
                    b == interior + (t + 1) % (ring as int),
                    a == b,
                    t < ring,
            ;
        }
        t = t + 1;
    }
    let ghost before = springs@;
    link_below(&mut springs, ps);
    proof {
        assert forall|k: int| 0 <= k < springs.len() implies nearest_link(#[trigger] springs@[k], ps@, interior as int)
            || ring_link(springs@[k], interior as int, n as int) || lower_link(springs@[k], ps@) by {
            if k < before.len() {
                assert(springs@[k] == before[k]);
            }
        }
        assert forall|q: int, m: int|
            0 <= q < n && 0 <= m < sel[q].len() implies joined(springs@, q, #[trigger] sel[q][m] as int) by {
            lemma_extends_joined(before, springs@, q, sel[q][m] as int);
        }
        if ring >= 2 {
            assert forall|u: int| 0 <= u < ring implies #[trigger] joined(
                springs@,
                interior + u,
                interior + (u + 1) % (ring as int),
            ) by {
                lemma_extends_joined(before, springs@, interior + u, interior + (u + 1) % (ring as int));
            }
        }
    }
    proof {
        assert(linked_below(springs@, n as int));
        lemma_linked_below_connected(springs@, n as int);
        assert forall|q: int| 0 <= q < n implies #[trigger] knn_linked(springs@, ps@, q, interior as int) by {
            assert(nearest_ok(ps@, q, interior as int, links_wanted(q, interior as int), sel[q]));
            assert forall|m: int| 0 <= m < sel[q].len() implies joined(springs@, q, #[trigger] sel[q][m] as int) by {
            }
        }
    }
    springs
}
} // verus!
