//! Numbers against the machine's own, bit for bit.
use gemma_wgpu::float::{F32, F64};

/// Patterns of every kind: zeros, subnormals, halves, large, infinite, no
/// number, and many in between.
fn patterns() -> Vec<u32> {
    let mut v = vec![
        0, 1, 2, 0x007f_ffff, 0x0080_0000, 0x0080_0001, 0x00ff_ffff, 0x3f7f_ffff, 0x3f80_0000, 0x3f80_0001, 0x4000_0000,
        0x4b00_0000, 0x4b7f_ffff, 0x5f00_0000, 0x7f7f_ffff, 0x7f80_0000, 0x7fc0_0000, 0x3eaa_aaab, 0x3dcc_cccd,
    ];
    let mut x: u32 = 0x1234_5678;
    for _ in 0..180 {
        x ^= x << 13;
        x ^= x >> 17;
        x ^= x << 5;
        v.push(x & 0x7fff_ffff);
        v.push(0x3f00_0000 + (x & 0x00ff_ffff));
    }
    let negative: Vec<u32> = v.iter().map(|b| b | 0x8000_0000).collect();
    v.extend(negative);
    v
}

fn agrees(mine: F32, theirs: f32) -> bool {
    if theirs.is_nan() {
        mine.is_nan()
    } else {
        mine.0 == theirs.to_bits()
    }
}

#[test]
fn sums_and_products_are_the_machines() {
    for &a in &patterns() {
        for &b in patterns().iter().step_by(3) {
            let (x, y) = (f32::from_bits(a), f32::from_bits(b));
            let (p, q) = (F32(a), F32(b));
            assert!(agrees(p.plus(q), x + y), "{x:e} + {y:e}");
            assert!(agrees(p.minus(q), x - y), "{x:e} - {y:e}");
            assert!(agrees(p.times(q), x * y), "{x:e} * {y:e}");
            assert_eq!(p.less(q), x < y, "{x:e} < {y:e}");
            assert_eq!(p.same(q), x == y, "{x:e} == {y:e}");
            assert!(agrees(p.larger(q), x.max(y)) || (x == y && p.larger(q).same(p)), "max {x:e} {y:e}");
        }
    }
}

#[test]
fn quotients_and_roots_are_the_machines() {
    for &a in patterns().iter().step_by(2) {
        let x = f32::from_bits(a);
        assert!(agrees(F32(a).root(), x.sqrt()), "sqrt {x:e}");
        for &b in patterns().iter().step_by(7) {
            let y = f32::from_bits(b);
            assert!(agrees(F32(a).over(F32(b)), x / y), "{x:e} / {y:e}");
        }
    }
}

#[test]
fn wide_numbers_are_the_machines() {
    let mut x: u64 = 0x9e37_79b9_7f4a_7c15;
    for _ in 0..2000 {
        x ^= x << 7;
        x ^= x >> 9;
        let (a, b) = (f64::from_bits(x), f64::from_bits(x.rotate_left(17)));
        let s = F64(a.to_bits()).plus(F64(b.to_bits()));
        assert!((a + b).is_nan() || s.0 == (a + b).to_bits(), "{a:e} + {b:e}");
        assert_eq!(F64(a.to_bits()).less(F64(b.to_bits())), a < b);
        assert!((a as f32).is_nan() || F64(a.to_bits()).to_f32().0 == (a as f32).to_bits(), "{a:e} as f32");
        assert_eq!(F64::from_u64(x).0, (x as f64).to_bits());
        assert_eq!(F64::from_i64(x as i64).0, (x as i64 as f64).to_bits());
        assert_eq!(F32::from_u64(x).0, (x as f32).to_bits());
        assert_eq!(F32::from_i32(x as i32).0, (x as i32 as f32).to_bits());
        let m = x >> 11;
        assert_eq!(F64::from_fraction53(m).0, (m as f64 / (1u64 << 53) as f64).to_bits());
    }
    // ordinary sizes, where roundings to f32 are not all infinite
    for i in 0..2000 {
        let a = (i as f64 * 0.7310585786300049 - 700.0) * 1.0e-3;
        assert_eq!(F64(a.to_bits()).to_f32().0, (a as f32).to_bits());
    }
}

#[test]
fn counts_are_cut_and_rounded() {
    for &a in &patterns() {
        let x = f32::from_bits(a);
        assert_eq!(F32(a).whole_part(), x as u32, "{x:e} as u32");
        assert_eq!(F32(a).rounded_count(), x.round() as usize, "{x:e} rounded");
        assert_eq!(F32(a).is_finite(), x.is_finite());
        assert_eq!(F32(a).negated().0, (-x).to_bits());
    }
    for x in [0.5f32, 1.5, 2.5, 8.49, 63.5] {
        assert_eq!(F32(x.to_bits()).rounded_count(), x.round() as usize);
    }
}

#[test]
fn halves_are_exact() {
    for h in 0..=u16::MAX {
        let (s, e, m) = (h >> 15, (h >> 10) & 31, (h & 1023) as f32);
        let v = match e {
            0 => m / 1024.0 * 2f32.powi(-14),
            31 if m == 0.0 => f32::INFINITY,
            31 => f32::NAN,
            _ => (1.0 + m / 1024.0) * 2f32.powi(e as i32 - 15),
        };
        assert!(agrees(F32::from_half(h), if s == 1 { -v } else { v }), "{h:#x}");
    }
}
