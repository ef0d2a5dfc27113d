use boids::boid::{get_cell_for_point, Boid};
use boids::boid_cloud::{vec_from_draws, BoidCloud};
use boids::fixed::ONE;
use boids::geom::{Turn, Vec2};
use boids::opt::BoidSimOpt;
use rand::SeedableRng;
use rand_xoshiro::Xoroshiro128Plus;

const STILL: Turn = Turn { cos: ONE, sin: 0 };

fn base_opt() -> BoidSimOpt {
    BoidSimOpt {
        coherence: 0,
        separation: 0,
        alignment: 0,
        avoid_range: 20 * ONE,
        visual_range: 80 * ONE,
        sight_cos: 26771,
        sight_turns: vec![STILL],
        jitter_turns: vec![STILL],
        min_speed: 3 * ONE,
        max_speed: 5 * ONE,
        cur_cell_neighbors: 30,
        forward_cell_neighbors: 10,
        edge_turn_margin: 25 * ONE,
        edge_turn_factor: 13107,
    }
}

fn jittery_opt() -> BoidSimOpt {
    let mut opt = base_opt();
    opt.coherence = 2294;
    opt.separation = 16384;
    opt.alignment = 49152;
    opt.sight_turns = vec![Turn { cos: 59252, sin: -28003 }, STILL, Turn { cos: 59252, sin: 28003 }];
    opt.jitter_turns = vec![
        Turn { cos: 64800, sin: -9794 },
        Turn { cos: 65352, sin: -4911 },
        STILL,
        Turn { cos: 65352, sin: 4911 },
        Turn { cos: 64800, sin: 9794 },
    ];
    opt
}

fn at(x: i64, y: i64, vx: i64, vy: i64) -> Boid {
    Boid::new(Vec2 { x: x * ONE, y: y * ONE }, Vec2 { x: vx * ONE, y: vy * ONE })
}

fn cloud_of(boids: Vec<Boid>, width: i64, height: i64, opt: BoidSimOpt) -> BoidCloud {
    let cs = opt.visual_range;
    let n = (((width + cs - 1) / cs) * ((height + cs - 1) / cs)) as usize;
    let mut cells: Vec<Vec<Boid>> = vec![Vec::new(); n];
    let count = boids.len();
    for b in boids {
        let k = get_cell_for_point(b.pos, width, height, &opt);
        cells[k].push(b);
    }
    BoidCloud { width, height, boid_cells: cells, boid_count: count, opt }
}

fn speed_in_bounds(opt: &BoidSimOpt, v: Vec2) -> bool {
    let s = (v.x as i128) * (v.x as i128) + (v.y as i128) * (v.y as i128);
    let hi = opt.max_speed as i128;
    let lo = opt.min_speed as i128;
    s <= hi * hi && lo * lo <= s + 132 * hi + 2
}

#[test]
fn cohesion_pulls_two_agents_together() {
    let mut opt = base_opt();
    opt.coherence = 3277;
    let a = at(200, 200, 1, 0);
    let b = at(205, 200, -1, 0);
    let na = a.stepped(&vec![b], STILL, 800 * ONE, 800 * ONE, &opt);
    let nb = b.stepped(&vec![a], STILL, 800 * ONE, 800 * ONE, &opt);
    assert!(na.vel.x > 0);
    assert!(nb.vel.x < 0);
    assert_eq!(na.vel.y, 0);
    assert_eq!(nb.vel.y, 0);
    assert_eq!(a.fly_towards_center(&vec![b], &opt), Vec2 { x: 16385, y: 0 });
}

#[test]
fn cohesion_pulls_two_agents_together_in_a_tick() {
    let mut opt = base_opt();
    opt.coherence = 3277;
    opt.min_speed = ONE / 2;
    let mut cloud = cloud_of(vec![at(200, 200, 1, 0), at(205, 200, -1, 0)], 800 * ONE, 800 * ONE, opt);
    let mut rng = Xoroshiro128Plus::seed_from_u64(7);
    cloud.update(&mut rng);
    let all = cloud.boids();
    assert_eq!(all.len(), 2);
    let (left, right) = if all[0].pos.x < all[1].pos.x { (all[0], all[1]) } else { (all[1], all[0]) };
    assert!(left.vel.x > 0);
    assert!(right.vel.x < 0);
}

#[test]
fn separation_has_a_hard_cutoff() {
    let mut opt = base_opt();
    opt.separation = ONE;
    let a = at(100, 100, 1, 0);
    let far = Boid::new(Vec2 { x: 100 * ONE + 20 * ONE + 1, y: 100 * ONE }, Vec2 { x: ONE, y: 0 });
    let near = Boid::new(Vec2 { x: 100 * ONE + 20 * ONE - 1, y: 100 * ONE }, Vec2 { x: ONE, y: 0 });
    assert_eq!(a.avoid_other_boids(&vec![far], &opt), Vec2 { x: 0, y: 0 });
    let d = a.avoid_other_boids(&vec![near], &opt);
    assert_eq!(d, Vec2 { x: -(20 * ONE - 1), y: 0 });
}

#[test]
fn boundary_turns_agent_back() {
    let opt = base_opt();
    let mut a = Boid::new(Vec2 { x: 24 * ONE, y: 500 * ONE }, Vec2 { x: -2 * ONE, y: 0 });
    a.keep_within_bounds(1000 * ONE, 1000 * ONE, &opt);
    assert_eq!(a.vel, Vec2 { x: -2 * ONE + 65535, y: 0 });
    let b = Boid::new(Vec2 { x: 24 * ONE, y: 500 * ONE }, Vec2 { x: -4 * ONE, y: 0 });
    let nb = b.stepped(&vec![], STILL, 1000 * ONE, 1000 * ONE, &opt);
    assert!(nb.vel.x > b.vel.x);
}

#[test]
fn far_corner_maps_to_last_cell() {
    let opt = base_opt();
    assert_eq!(get_cell_for_point(Vec2 { x: 800 * ONE, y: 800 * ONE }, 800 * ONE, 800 * ONE, &opt), 99);
    assert_eq!(get_cell_for_point(Vec2 { x: -5 * ONE, y: -5 * ONE }, 800 * ONE, 800 * ONE, &opt), 0);
    let k = get_cell_for_point(Vec2 { x: 810 * ONE, y: 790 * ONE }, 810 * ONE, 790 * ONE, &opt);
    assert!(k < 110);
}

#[test]
fn ticks_keep_speeds_buckets_and_population() {
    let opt = jittery_opt();
    let mut rng = Xoroshiro128Plus::seed_from_u64(12345);
    let mut cloud = BoidCloud::new(300, 800 * ONE, 600 * ONE, &mut rng, opt);
    assert_eq!(cloud.boids().len(), 300);
    for _ in 0..8 {
        cloud.update(&mut rng);
        assert_eq!(cloud.boids().len(), 300);
        for (c, bucket) in cloud.boid_cells.iter().enumerate() {
            for b in bucket {
                assert!(speed_in_bounds(&cloud.opt, b.vel));
                assert_eq!(b.get_cell(cloud.width, cloud.height, &cloud.opt), c);
            }
        }
    }
    assert_eq!(cloud.boid_count, 300);
}

#[test]
fn zero_velocity_is_clamped_to_a_fixed_heading() {
    let opt = base_opt();
    let mut a = at(400, 300, 0, 0);
    a.limit_speed(&opt);
    assert_eq!(a.vel, Vec2 { x: 3 * ONE, y: 0 });
    let mut fast = at(400, 300, 30, 40);
    fast.limit_speed(&opt);
    assert_eq!(fast.vel, Vec2 { x: 3 * ONE, y: 4 * ONE });
}

#[test]
fn same_seed_gives_same_trajectories() {
    let run = || {
        let mut rng = Xoroshiro128Plus::seed_from_u64(99);
        let mut cloud = BoidCloud::new(150, 640 * ONE, 480 * ONE, &mut rng, jittery_opt());
        for _ in 0..5 {
            cloud.update(&mut rng);
        }
        cloud.boids()
    };
    assert_eq!(run(), run());
}

#[test]
fn construction_draws_spread_positions() {
    let opt = jittery_opt();
    let mut rng = Xoroshiro128Plus::seed_from_u64(3);
    let cloud = BoidCloud::new(50, 800 * ONE, 600 * ONE, &mut rng, opt);
    let all = cloud.boids();
    assert!(all.iter().any(|b| b.pos != all[0].pos));
    for b in &all {
        assert!(b.pos.x >= 0 && b.pos.x < 800 * ONE && b.pos.y >= 0 && b.pos.y < 600 * ONE);
        let s = 5 * ONE / 2;
        assert!(b.vel.x >= -(s / 2) && b.vel.x <= s - s / 2);
    }
}

#[test]
fn jitter_turns_the_velocity() {
    let mut opt = base_opt();
    opt.jitter_turns = vec![Turn { cos: 0, sin: ONE }];
    let mut a = at(100, 100, 2, 0);
    let mut rng = Xoroshiro128Plus::seed_from_u64(1);
    a.random_vel_change(&mut rng, &opt);
    assert_eq!(a.vel, Vec2 { x: 0, y: 2 * ONE });
}

#[test]
fn sight_and_distance() {
    let opt = base_opt();
    let a = at(100, 100, 1, 0);
    let ahead = at(103, 104, 0, 0);
    let behind = at(90, 100, 0, 0);
    let far = at(300, 100, 0, 0);
    assert_eq!(a.distance_to(&ahead), 5 * ONE);
    assert_eq!(a.sq_distance_to(&ahead), 25 * (ONE as u128) * (ONE as u128));
    assert!(a.in_sight_range(&ahead, &opt));
    assert!(!a.in_sight_range(&behind, &opt));
    assert!(!a.in_sight_range(&far, &opt));
    assert_eq!(a.get_dist_if_in_sight(&ahead, &opt), Some(5 * ONE));
    assert_eq!(a.get_dist_if_in_sight(&behind, &opt), None);
    assert!(!a.in_sight_range(&a, &opt));
}

#[test]
fn alignment_steers_toward_mean_velocity() {
    let mut opt = base_opt();
    opt.alignment = ONE / 2;
    let a = at(100, 100, 2, 0);
    let b = at(110, 100, 2, 4);
    assert_eq!(a.match_velocities(&vec![b], &opt), Vec2 { x: 0, y: 2 * ONE });
}

#[test]
fn neighbor_sample_excludes_self_and_respects_caps() {
    let mut opt = base_opt();
    opt.cur_cell_neighbors = 2;
    let boids = vec![at(100, 100, 1, 0), at(105, 100, 0, 1), at(106, 101, 0, 1), at(107, 99, 0, 1), at(90, 100, 0, 1)];
    let cloud = cloud_of(boids, 800 * ONE, 800 * ONE, opt);
    let n = cloud.neighbors_of(11, 0);
    assert_eq!(n.len(), 2);
    assert!(n.iter().all(|b| b.pos.x > 100 * ONE));
}

#[test]
fn integration_adds_velocity() {
    let mut a = at(100, 100, 3, -4);
    a.update_pos();
    assert_eq!(a.pos, Vec2 { x: 103 * ONE, y: 96 * ONE });
}

#[test]
fn configuration_and_plane_checks() {
    let opt = jittery_opt();
    assert!(opt.is_valid());
    let mut bad = base_opt();
    bad.min_speed = 6 * ONE;
    assert!(!bad.is_valid());
    let mut bad_turn = base_opt();
    bad_turn.jitter_turns = vec![Turn { cos: 2 * ONE, sin: 0 }];
    assert!(!bad_turn.is_valid());
    let mut empty = base_opt();
    empty.jitter_turns = vec![];
    assert!(!empty.is_valid());
    assert!(boids::boid::world_fits(800 * ONE, 600 * ONE));
    assert!(!boids::boid::world_fits(0, 600 * ONE));
    assert_eq!(boids::boid::cell_count_of(800 * ONE, 600 * ONE, 80 * ONE), Some(80));
    assert_eq!(boids::boid::cell_count_of(810 * ONE, 600 * ONE, 80 * ONE), Some(88));
}

#[test]
fn bucket_insert_and_swap_remove() {
    let opt = base_opt();
    let mut cloud = cloud_of(vec![at(10, 10, 1, 0), at(20, 10, 1, 0), at(30, 10, 1, 0)], 800 * ONE, 800 * ONE, opt);
    assert_eq!(cloud.boid_cells[0].len(), 3);
    let removed = cloud.remove_at(0, 0);
    assert_eq!(removed.pos.x, 10 * ONE);
    assert_eq!(cloud.boid_cells[0][0].pos.x, 30 * ONE);
    assert_eq!(cloud.boid_cells[0].len(), 2);
    assert_eq!(cloud.boid_count, 2);
    let b = at(700, 700, 1, 0);
    let k = b.get_cell(cloud.width, cloud.height, &cloud.opt);
    assert_eq!(k, 88);
    cloud.insert(b, k);
    assert_eq!(cloud.boid_cells[88], vec![b]);
    assert_eq!(cloud.boid_count, 3);
}

#[test]
fn agents_at_rest_converge_in_a_tick() {
    let mut opt = base_opt();
    opt.coherence = 3277;
    opt.min_speed = ONE;
    let mut cloud = cloud_of(vec![at(1000, 500, 0, 0), at(1005, 500, 0, 0)], 2000 * ONE, 1000 * ONE, opt);
    assert_eq!(cloud.boid_cells.len(), 325);
    assert_eq!(cloud.boid_cells[162].len(), 2);
    let mut rng = Xoroshiro128Plus::seed_from_u64(5);
    cloud.update(&mut rng);
    assert_eq!(cloud.boid_cells[162].len(), 2);
    let first = cloud.boid_cells[162][0];
    let second = cloud.boid_cells[162][1];
    assert_eq!(first.vel, Vec2 { x: ONE, y: 0 });
    assert_eq!(first.pos, Vec2 { x: 1001 * ONE, y: 500 * ONE });
    assert_eq!(second.vel, Vec2 { x: -ONE, y: 0 });
    assert_eq!(second.pos, Vec2 { x: 1004 * ONE, y: 500 * ONE });
}

#[test]
fn agent_at_rest_sees_all_around() {
    let mut opt = base_opt();
    opt.coherence = 3277;
    let a = at(100, 100, 0, 0);
    let b = at(95, 100, 0, 0);
    assert!(a.in_sight_range(&b, &opt));
    assert_eq!(a.fly_towards_center(&vec![b], &opt), Vec2 { x: -16385, y: 0 });
}

#[test]
fn draws_become_vectors() {
    assert_eq!(vec_from_draws(3, 7, 10, 20, false), Vec2 { x: 3, y: 7 });
    assert_eq!(vec_from_draws(3, 7, 10, 20, true), Vec2 { x: -2, y: -3 });
    assert_eq!(vec_from_draws(0, 0, 0, 0, true), Vec2 { x: 0, y: 0 });
    assert_eq!(vec_from_draws(9, 19, 10, 20, true), Vec2 { x: 4, y: 9 });
}

#[test]
fn jitter_table_turns_keep_speed() {
    let opt = jittery_opt();
    let mut rng = Xoroshiro128Plus::seed_from_u64(11);
    for _ in 0..20 {
        let mut a = at(100, 100, 3, 4);
        a.random_vel_change(&mut rng, &opt);
        let s = (a.vel.x as i128).pow(2) + (a.vel.y as i128).pow(2);
        let s0 = 25 * (ONE as i128) * (ONE as i128);
        let tol = 2 * s0 + (ONE as i128) * (4 * 7 * (ONE as i128) + 2);
        assert!((ONE as i128) * (s - s0).abs() <= tol);
    }
}
