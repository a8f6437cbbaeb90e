//! The numbers against the machine's own.

use bevy::math::Quat;
use bevy::math::Vec2;
use bevy::math::Vec3;
use ertw::binary32::Binary32;
use ertw::interface::vector::Rotation;
use ertw::interface::Vec2Lite;

fn n(x: f32) -> Binary32 {
    Binary32::from_bits(x.to_bits())
}

fn f(x: Binary32) -> f32 {
    f32::from_bits(x.to_bits())
}

fn same(ours: Binary32, theirs: f32) -> bool {
    if theirs.is_nan() {
        ours.is_nan()
    } else {
        ours.to_bits() == theirs.to_bits()
    }
}

struct Stream(u64);

impl Stream {
    fn next(&mut self) -> u64 {
        self.0 ^= self.0 << 13;
        self.0 ^= self.0 >> 7;
        self.0 ^= self.0 << 17;
        self.0
    }

    fn pattern(&mut self) -> f32 {
        f32::from_bits((self.next() >> 16) as u32)
    }

    /// A number of ordinary size.
    fn ordinary(&mut self) -> f32 {
        let bits = (self.next() >> 20) as u32;
        f32::from_bits((bits & 0x807f_ffff) | ((110 + (bits >> 26) % 40) << 23))
    }

    /// A number that shares most leading bits with another.
    fn near(&mut self, x: f32) -> f32 {
        f32::from_bits(x.to_bits() ^ ((self.next() >> 30) as u32 & 0x8000_000f))
    }
}

const EDGES: [u32; 24] = [
    0x0000_0000,
    0x8000_0000,
    0x0000_0001,
    0x8000_0001,
    0x007f_ffff,
    0x0080_0000,
    0x0080_0001,
    0x3f7f_ffff,
    0x3f80_0000,
    0x3f80_0001,
    0xbf80_0000,
    0x3f00_0000,
    0x4000_0000,
    0x4b00_0000,
    0x4b7f_ffff,
    0x4b80_0000,
    0x7f00_0000,
    0x7f7f_ffff,
    0xff7f_ffff,
    0x7f80_0000,
    0xff80_0000,
    0x7fc0_0000,
    0xffc0_0000,
    0x7f80_0001,
];

fn check_pair(a: f32, b: f32) {
    assert!(same(n(a).plus(n(b)), a + b), "{a:e} + {b:e}");
    assert!(same(n(a).minus(n(b)), a - b), "{a:e} - {b:e}");
    assert!(same(n(a).times(n(b)), a * b), "{a:e} * {b:e}");
    assert!(same(n(a).over(n(b)), a / b), "{a:e} / {b:e}");
    assert!(same(n(a).rem(n(b)), a % b), "{a:e} % {b:e}");
    assert!(same(n(a).rem_euclid(n(b)), a.rem_euclid(b)), "{a:e} mod {b:e}");
    assert_eq!(n(a).lt(n(b)), a < b);
    assert_eq!(n(a).le(n(b)), a <= b);
    assert_eq!(n(a).eq_num(n(b)), a == b);
    assert_eq!(n(a).total_lt(n(b)), a.total_cmp(&b).is_lt());
    if a != b {
        assert!(same(n(a).max(n(b)), a.max(b)), "max {a:e} {b:e}");
        assert!(same(n(a).min(n(b)), a.min(b)), "min {a:e} {b:e}");
    }
    if a <= b {
        let x = n(a).plus(n(b));
        assert!(same(x.clamp(n(a), n(b)), f(x).clamp(a, b)));
    }
}

fn check_one(a: f32) {
    assert!(same(n(a).root(), a.sqrt()), "root {a:e}");
    assert_eq!(n(a).negated().to_bits(), (-a).to_bits());
    assert_eq!(n(a).abs().to_bits(), a.abs().to_bits());
    assert_eq!(n(a).is_nan(), a.is_nan());
    assert_eq!(n(a).is_finite(), a.is_finite());
    assert_eq!(n(a).is_infinite(), a.is_infinite());
    assert_eq!(n(a).is_negative(), a.is_sign_negative());
    assert_eq!(n(a).floor_to_i32(), a.floor() as i32, "floor {a:e}");
    assert_eq!(n(a).ceil_to_i32(), a.ceil() as i32, "ceil {a:e}");
    assert_eq!(n(a).to_u16(), a.clamp(0.0, u16::MAX as f32) as u16, "u16 {a:e}");
}

#[test]
fn arithmetic_agrees_on_edges() {
    for &x in EDGES.iter() {
        check_one(f32::from_bits(x));
        for &y in EDGES.iter() {
            check_pair(f32::from_bits(x), f32::from_bits(y));
        }
    }
}

#[test]
fn arithmetic_agrees_on_arbitrary_patterns() {
    let mut s = Stream(0x9e37_79b9_7f4a_7c15);
    for _ in 0..60_000 {
        let (a, b) = (s.pattern(), s.pattern());
        check_pair(a, b);
        check_one(a);
    }
}

#[test]
fn arithmetic_agrees_on_ordinary_numbers() {
    let mut s = Stream(0x1234_5678_9abc_def1);
    for _ in 0..60_000 {
        let a = s.ordinary();
        let b = s.ordinary();
        let c = s.near(a);
        check_pair(a, b);
        check_pair(a, c);
        check_one(a);
    }
}

#[test]
fn integers_convert_as_the_machine_does() {
    let mut s = Stream(77);
    for i in 0..2000u32 {
        assert_eq!(f(Binary32::from_u32(i)), i as f32);
        assert_eq!(f(Binary32::from_u32(16_777_215 - i)), (16_777_215 - i) as f32);
    }
    for _ in 0..20_000 {
        let k = (s.next() >> 20) as i32;
        assert_eq!(f(Binary32::from_i32(k)), k as f32);
        let u = (s.next() >> 40) as u32;
        assert_eq!(f(Binary32::from_u32(u)), u as f32);
    }
    for k in [i32::MIN, i32::MAX, 0, -1, 1, 16_777_217, -16_777_217, 33_554_435] {
        assert_eq!(f(Binary32::from_i32(k)), k as f32);
    }
}

fn v(x: Vec2) -> Vec2Lite {
    Vec2Lite::new(n(x.x), n(x.y))
}

fn same_vector(ours: Vec2Lite, theirs: Vec2) -> bool {
    same(ours.x, theirs.x) && same(ours.y, theirs.y)
}

#[test]
fn vectors_agree_with_the_engine() {
    let mut s = Stream(0xfeed_beef_0000_0001);
    for _ in 0..20_000 {
        let a = Vec2::new(s.ordinary(), s.ordinary());
        let b = Vec2::new(s.ordinary(), s.ordinary());
        let k = s.ordinary();
        assert!(same_vector(v(a).plus(v(b)), a + b));
        assert!(same_vector(v(a).minus(v(b)), a - b));
        assert!(same_vector(v(a).negated(), -a));
        assert!(same_vector(v(a).scaled(n(k)), a * k));
        assert!(same(v(a).length(), a.length()));
        assert!(same(v(a).length_squared(), a.length_squared()));
        assert!(same(v(a).distance(v(b)), a.distance(b)));
        assert!(same(v(a).distance_squared(v(b)), a.distance_squared(b)));
        assert!(same_vector(v(a).normalize_or_zero(), a.normalize_or_zero()));
    }
    assert!(same_vector(v(Vec2::ZERO).normalize_or_zero(), Vec2::ZERO));
}

#[test]
fn rotations_agree_with_the_engine() {
    let mut s = Stream(0x0dd_ba11);
    for _ in 0..20_000 {
        let angle = s.ordinary() % 7.0;
        let q = Quat::from_rotation_z(angle);
        let a = Vec2::new(s.ordinary(), s.ordinary());
        let ours = Rotation { x: n(q.x), y: n(q.y), z: n(q.z), w: n(q.w) };
        let turned = (q * a.extend(0.0)).truncate();
        let back = (q.inverse() * Vec3::new(a.x, a.y, 0.0)).truncate();
        let r = ours.rotate(v(a));
        let i = ours.inverse().rotate(v(a));
        assert!((f(r.x) - turned.x).abs() <= 1e-6 * (1.0 + a.length()));
        assert!((f(r.y) - turned.y).abs() <= 1e-6 * (1.0 + a.length()));
        assert!((f(i.x) - back.x).abs() <= 1e-6 * (1.0 + a.length()));
        assert!((f(i.y) - back.y).abs() <= 1e-6 * (1.0 + a.length()));
    }
}
