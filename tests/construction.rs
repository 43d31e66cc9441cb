use std::collections::VecDeque;

use blob::mesh::{candidate_offset, poisson_disk, ring_offsets, try_candidate};
use blob::topology::nearest;
use blob::{Blob, BlobParams, Particle, Point};

fn floor_sqrt(v: i128) -> i128 {
    let mut r = (v as f64).sqrt() as i128;
    while r * r > v {
        r -= 1;
    }
    while (r + 1) * (r + 1) <= v {
        r += 1;
    }
    r
}

fn sq(p: Point, q: Point) -> i128 {
    let dx = (p.x - q.x) as i128;
    let dy = (p.y - q.y) as i128;
    dx * dx + dy * dy
}

fn standard_blob() -> (Blob, Point) {
    let origin = Point { x: 300_000, y: 200_000 };
    (Blob::new(origin, BlobParams::standard(), 7), origin)
}

#[test]
fn springs_join_distinct_existing_particles_once() {
    let (b, _) = standard_blob();
    let n = b.particles.len();
    assert!(!b.springs.is_empty());
    let mut seen = std::collections::HashSet::new();
    for s in &b.springs {
        assert!(s.particle_a < n && s.particle_b < n);
        assert_ne!(s.particle_a, s.particle_b);
        let key = (s.particle_a.min(s.particle_b), s.particle_a.max(s.particle_b));
        assert!(seen.insert(key), "pair joined twice: {:?}", key);
    }
}

#[test]
fn spring_graph_is_connected() {
    let (b, _) = standard_blob();
    let n = b.particles.len();
    let mut adj = vec![Vec::new(); n];
    for s in &b.springs {
        adj[s.particle_a].push(s.particle_b);
        adj[s.particle_b].push(s.particle_a);
    }
    let mut seen = vec![false; n];
    let mut queue = VecDeque::new();
    seen[0] = true;
    queue.push_back(0);
    while let Some(i) = queue.pop_front() {
        for &j in &adj[i] {
            if !seen[j] {
                seen[j] = true;
                queue.push_back(j);
            }
        }
    }
    assert!(seen.iter().all(|&v| v));
}

#[test]
fn rest_lengths_are_construction_distances() {
    let (b, _) = standard_blob();
    for s in &b.springs {
        let d2 = sq(b.particles[s.particle_a].pos, b.particles[s.particle_b].pos);
        assert_eq!(s.rest_length as i128, floor_sqrt(d2));
    }
}

#[test]
fn blob_fills_its_disc_with_an_outline_ring() {
    let (b, origin) = standard_blob();
    let n = b.particles.len();
    // pi * 160 / 16 rounds to 31 outline particles
    assert_eq!(b.outline_particles_indices.len(), 31);
    let first = n - 31;
    for (t, &k) in b.outline_particles_indices.iter().enumerate() {
        assert_eq!(k, first + t);
    }
    assert!(first > 20, "only {} inside particles", first);
    for p in &b.particles {
        assert_eq!(p.vel, Point { x: 0, y: 0 });
        assert!(sq(p.pos, origin) <= 40_960 * 40_960);
    }
    for t in 0..31 {
        let d = floor_sqrt(sq(b.particles[first + t].pos, origin));
        assert!(d > 40_000 && d <= 40_960, "outline particle at {}", d);
    }
    assert_eq!(b.particle_mass, 32_000 / n as i64);
}

#[test]
fn centre_particle_is_the_inside_one_nearest_the_origin() {
    let (b, origin) = standard_blob();
    let first = b.particles.len() - b.outline_particles_indices.len();
    let c = b.center_particle_index;
    assert!(c < first);
    for k in 0..first {
        assert!(sq(b.particles[c].pos, origin) <= sq(b.particles[k].pos, origin));
    }
    assert_eq!(b.get_center_pos(), origin);
}

#[test]
fn packed_samples_stay_apart_and_inside() {
    let samples = poisson_disk(40_960, 4_096, 11);
    assert!(samples.len() > 20);
    assert!(samples.contains(&Point { x: 0, y: 0 }));
    for (i, p) in samples.iter().enumerate() {
        assert!(sq(*p, Point { x: 0, y: 0 }) <= 40_960 * 40_960);
        for q in &samples[i + 1..] {
            assert!(sq(*p, *q) >= 8_192 * 8_192);
        }
    }
}

#[test]
fn ring_points_lie_on_the_circle_in_order() {
    let ring = ring_offsets(10_000, 8);
    assert_eq!(ring.len(), 8);
    assert_eq!(ring[0], Point { x: 10_000, y: 0 });
    assert_eq!(ring[2], Point { x: 0, y: 10_000 });
    assert_eq!(ring[4], Point { x: -10_000, y: 0 });
    for p in &ring {
        let d = floor_sqrt(sq(*p, Point { x: 0, y: 0 }));
        assert!(d >= 9_990 && d <= 10_000);
    }
    assert!(ring[1].x > 0 && ring[1].y > 0);
    assert!(ring[3].x < 0 && ring[3].y > 0);
    assert!(ring_offsets(10_000, 0).is_empty());
}

#[test]
fn nearest_picks_the_closest_in_order() {
    let pts = [(0, 0), (10, 0), (3, 0), (0, 5), (-3, 0), (100, 100)];
    let ps: Vec<Particle> = pts
        .iter()
        .map(|&(x, y)| Particle { pos: Point { x, y }, vel: Point { x: 0, y: 0 } })
        .collect();
    assert_eq!(nearest(&ps, 0, 6, 3), vec![2, 4, 3]);
    assert_eq!(nearest(&ps, 0, 6, 10), vec![2, 4, 3, 1, 5]);
    assert_eq!(nearest(&ps, 5, 3, 8), vec![1, 2, 0]);
    assert_eq!(nearest(&ps, 0, 1, 8), Vec::<usize>::new());
}

#[test]
fn zero_particle_radius_gives_a_single_particle() {
    let mut params = BlobParams::standard();
    params.particle_radius = 0;
    let b = Blob::new(Point { x: 50, y: 60 }, params, 1);
    assert_eq!(b.particles.len(), 1);
    assert!(b.springs.is_empty());
    assert!(b.outline_particles_indices.is_empty());
    assert_eq!(b.get_center_pos(), Point { x: 50, y: 60 });
    assert_eq!(b.particle_mass, 32_000);
}

#[test]
fn negative_radius_gives_a_single_particle() {
    let mut params = BlobParams::standard();
    params.radius = -5;
    let b = Blob::new(Point { x: 0, y: 0 }, params, 2);
    assert_eq!(b.particles.len(), 1);
    assert!(b.springs.is_empty());
}

#[test]
fn small_disc_still_connected() {
    let mut params = BlobParams::standard();
    params.radius = 9_000;
    let b = Blob::new(Point { x: 20_000, y: 20_000 }, params, 3);
    let n = b.particles.len();
    assert!(n >= 2);
    let mut linked = vec![false; n];
    linked[0] = true;
    for i in 1..n {
        assert!(b.springs.iter().any(|s| (s.particle_a == i && s.particle_b < i)
            || (s.particle_b == i && s.particle_a < i)));
        linked[i] = true;
    }
    assert!(linked.iter().all(|&v| v));
}

#[test]
fn outline_path_averages_neighbours_one_two_one() {
    let (b, _) = standard_blob();
    let path = b.outline_path();
    let o = &b.outline_particles_indices;
    let m = o.len();
    assert_eq!(path.len(), m);
    for i in 0..m {
        let a = b.particles[o[(i + m - 1) % m]].pos;
        let c = b.particles[o[i]].pos;
        let d = b.particles[o[(i + 1) % m]].pos;
        assert_eq!(path[i].x, (a.x + 2 * c.x + d.x) / 4);
        assert_eq!(path[i].y, (a.y + 2 * c.y + d.y) / 4);
    }
}

#[test]
fn same_seed_gives_the_same_mesh() {
    let origin = Point { x: 100_000, y: 100_000 };
    let a = Blob::new(origin, BlobParams::standard(), 42);
    let b = Blob::new(origin, BlobParams::standard(), 42);
    assert_eq!(a.particles, b.particles);
    assert_eq!(a.springs, b.springs);
    let c = Blob::new(origin, BlobParams::standard(), 43);
    assert!(c.particles != a.particles);
}

#[test]
fn particles_pack_at_least_two_radii_apart() {
    let (b, _) = standard_blob();
    let inside = b.particles.len() - b.outline_particles_indices.len();
    for i in 0..inside {
        for j in i + 1..inside {
            assert!(sq(b.particles[i].pos, b.particles[j].pos) >= 8_192 * 8_192);
        }
    }
}

#[test]
fn every_particle_is_linked_to_its_nearest_inside_particles() {
    let (b, _) = standard_blob();
    let n = b.particles.len();
    let inside = n - b.outline_particles_indices.len();
    for i in 0..n {
        let want = if i >= inside { 6 } else { 8 };
        let near = nearest(&b.particles, i, inside, want);
        assert_eq!(near.len(), want.min(if i < inside { inside - 1 } else { inside }));
        for &j in &near {
            assert!(b.springs.iter().any(|s| (s.particle_a == i && s.particle_b == j)
                || (s.particle_a == j && s.particle_b == i)));
        }
    }
}

fn connected_graph(n: usize, springs: &[blob::Spring]) -> bool {
    let mut adj = vec![Vec::new(); n];
    for s in springs {
        adj[s.particle_a].push(s.particle_b);
        adj[s.particle_b].push(s.particle_a);
    }
    let mut seen = vec![false; n];
    let mut stack = vec![0usize];
    seen[0] = true;
    while let Some(i) = stack.pop() {
        for &j in &adj[i] {
            if !seen[j] {
                seen[j] = true;
                stack.push(j);
            }
        }
    }
    seen.iter().all(|&v| v)
}

#[test]
fn grid_blob_covers_the_disc_lattice() {
    let origin = Point { x: 100_000, y: 100_000 };
    let b = Blob::new_grid(origin, BlobParams::standard(), 8_192);
    // lattice points (a, b) with a^2 + b^2 <= 25
    assert_eq!(b.particles.len(), 81);
    assert!(b.outline_particles_indices.is_empty());
    assert_eq!(b.get_center_pos(), origin);
    for p in &b.particles {
        assert_eq!((p.pos.x - origin.x) % 8_192, 0);
        assert_eq!((p.pos.y - origin.y) % 8_192, 0);
        assert!(sq(p.pos, origin) <= 40_960 * 40_960);
    }
    for w in b.particles.windows(2) {
        assert!((w[0].pos.x, w[0].pos.y) < (w[1].pos.x, w[1].pos.y));
    }
}

#[test]
fn grid_blob_links_neighbours_and_diagonals() {
    let b = Blob::new_grid(Point { x: 100_000, y: 100_000 }, BlobParams::standard(), 8_192);
    let n = b.particles.len();
    for i in 0..n {
        for j in i + 1..n {
            if sq(b.particles[i].pos, b.particles[j].pos) <= 2 * 8_192 * 8_192 {
                assert!(b.springs.iter().any(|s| (s.particle_a == i && s.particle_b == j)
                    || (s.particle_a == j && s.particle_b == i)));
            }
        }
    }
    for s in &b.springs {
        assert_ne!(s.particle_a, s.particle_b);
        let d2 = sq(b.particles[s.particle_a].pos, b.particles[s.particle_b].pos);
        assert_eq!(s.rest_length as i128, floor_sqrt(d2));
    }
    assert!(connected_graph(n, &b.springs));
}

#[test]
fn grid_blob_of_zero_radius_is_one_particle() {
    let mut params = BlobParams::standard();
    params.radius = 0;
    let b = Blob::new_grid(Point { x: 5, y: 5 }, params, 100);
    assert_eq!(b.particles.len(), 1);
    assert!(b.springs.is_empty());
}

#[test]
fn grid_blob_settles_inside_the_viewport() {
    let mut b = Blob::new_grid(Point { x: 100_000, y: 100_000 }, BlobParams::standard(), 8_192);
    for _ in 0..30 {
        b.update(8_333, 200_000, 150_000);
    }
    for p in &b.particles {
        assert!(0 <= p.pos.x && p.pos.x <= 200_000 && 0 <= p.pos.y && p.pos.y <= 150_000);
    }
}

#[test]
fn negative_particle_radius_gives_a_single_particle_that_steps() {
    let mut params = BlobParams::standard();
    params.particle_radius = -16;
    let mut b = Blob::new(Point { x: 1_000, y: 1_000 }, params, 5);
    assert_eq!(b.particles.len(), 1);
    assert!(b.springs.is_empty());
    b.update(8_333, 10_000, 10_000);
    assert!(b.particles[0].pos.y > 1_000);
}

#[test]
fn candidate_offset_is_exact() {
    assert_eq!(candidate_offset(5, 5, 0), Point { x: 0, y: 5 });
    assert_eq!(candidate_offset(5, 5, 1), Point { x: 0, y: -5 });
    assert_eq!(candidate_offset(5, 0, 0), Point { x: -5, y: 0 });
    // dx = 2: 25 - 4 = 21, rounded-up root 5
    assert_eq!(candidate_offset(5, 7, 1), Point { x: 2, y: -5 });
    assert_eq!(candidate_offset(5, 10, 0), Point { x: 5, y: 0 });
}

#[test]
fn try_candidate_accepts_and_rejects_by_the_rule() {
    // radius 100, particle radius 10: cell size 7, grid 29 cells wide
    let mut grid: Vec<Option<Point>> = vec![None; 29 * 29];
    let origin = Point { x: 0, y: 0 };
    grid[14 * 29 + 14] = Some(origin);
    let mut active = vec![origin];
    assert!(try_candidate(&mut grid, &mut active, Point { x: 21, y: 0 }, 100, 10));
    assert_eq!(grid[17 * 29 + 14], Some(Point { x: 21, y: 0 }));
    assert_eq!(active, vec![origin, Point { x: 21, y: 0 }]);
    let before = grid.clone();
    // too close to the sample at (21, 0)
    assert!(!try_candidate(&mut grid, &mut active, Point { x: 30, y: 5 }, 100, 10));
    // beyond 100 - 21 = 79 from the centre
    assert!(!try_candidate(&mut grid, &mut active, Point { x: 80, y: 0 }, 100, 10));
    // too close to the centre
    assert!(!try_candidate(&mut grid, &mut active, Point { x: -12, y: 12 }, 100, 10));
    assert_eq!(grid, before);
    assert_eq!(active.len(), 2);
    assert!(try_candidate(&mut grid, &mut active, Point { x: -21, y: 5 }, 100, 10));
    assert_eq!(active.len(), 3);
}

#[test]
fn small_disc_packs_centre_and_a_second_sample() {
    for seed in 0..20 {
        let samples = poisson_disk(43, 10, seed);
        assert!(samples.len() >= 2);
        assert!(samples.contains(&Point { x: 0, y: 0 }));
        for p in &samples {
            if *p != (Point { x: 0, y: 0 }) {
                assert!(sq(*p, Point { x: 0, y: 0 }) <= 22 * 22);
            }
        }
    }
}

#[test]
fn every_spring_is_a_nearest_ring_or_lower_link() {
    let (b, _) = standard_blob();
    let n = b.particles.len();
    let ring = b.outline_particles_indices.len();
    let inside = n - ring;
    for s in &b.springs {
        let (a, c) = (s.particle_a, s.particle_b);
        let want = if a >= inside { 6 } else { 8 };
        let near = nearest(&b.particles, a, inside, want).contains(&c);
        let on_ring = a >= inside && c == inside + (a - inside + 1) % ring;
        let lower = c < a && nearest(&b.particles, a, a, 1) == vec![c];
        assert!(near || on_ring || lower);
    }
}

#[test]
fn inside_particles_keep_a_diameter_from_the_edge() {
    let (b, origin) = standard_blob();
    let inside = b.particles.len() - b.outline_particles_indices.len();
    let reach: i128 = 40_960 - (2 * 4_096 + 1);
    for p in &b.particles[..inside] {
        assert!(p.pos == origin || sq(p.pos, origin) <= reach * reach);
    }
    let c = b.particles[b.center_particle_index].pos;
    for p in &b.particles {
        assert!(sq(c, origin) <= sq(p.pos, origin));
    }
}
