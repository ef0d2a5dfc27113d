use boids::fixed::{div_floor, div_trunc_exec, isqrt, isqrt_ceil, ONE};
use boids::geom::{lerp, rescale, rotate, Turn, Vec2};

#[test]
fn square_roots() {
    assert_eq!(isqrt(0), 0);
    assert_eq!(isqrt(10), 3);
    assert_eq!(isqrt(16), 4);
    assert_eq!(isqrt_ceil(10), 4);
    assert_eq!(isqrt_ceil(16), 4);
    assert_eq!(isqrt(1u128 << 100), 1u128 << 50);
}

#[test]
fn divisions_round_as_stated() {
    assert_eq!(div_floor(-3, 2), -2);
    assert_eq!(div_floor(3, 2), 1);
    assert_eq!(div_floor(-4, 2), -2);
    assert_eq!(div_trunc_exec(-3, 2), -1);
    assert_eq!(div_trunc_exec(7, 2), 3);
}

#[test]
fn rotation_by_a_quarter_turn() {
    let q = Turn { cos: 0, sin: ONE };
    assert_eq!(rotate(Vec2 { x: ONE, y: 0 }, q), Vec2 { x: 0, y: ONE });
    assert_eq!(rotate(Vec2 { x: 0, y: ONE }, q), Vec2 { x: -ONE, y: 0 });
}

#[test]
fn lerp_moves_by_the_factor() {
    let r = lerp(Vec2 { x: 0, y: 100 }, Vec2 { x: 100, y: 0 }, ONE / 4);
    assert_eq!(r, Vec2 { x: 25, y: 75 });
}

#[test]
fn rescale_keeps_direction() {
    assert_eq!(rescale(Vec2 { x: 3, y: 4 }, 10), Vec2 { x: 6, y: 8 });
    assert_eq!(rescale(Vec2 { x: 0, y: 0 }, 7), Vec2 { x: 7, y: 0 });
    assert_eq!(rescale(Vec2 { x: 30 * ONE, y: -40 * ONE }, 5 * ONE), Vec2 { x: 3 * ONE, y: -4 * ONE });
}
