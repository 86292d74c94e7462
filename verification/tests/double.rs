use wsl_tray::display::stats_line;
use wsl_tray::double::Double;
use wsl_tray::monitor::{format_bytes, Monitor};
use wsl_tray::resample::resample;
use wsl_tray::status::Status;

/// A floating-point number as the library holds it.
fn double(x: f64) -> Double {
    let bits = x.to_bits();
    let (e, m) = ((bits >> 52) as i32, bits & 0xF_FFFF_FFFF_FFFF);
    if e == 0 {
        Double { m, e: -1074 }
    } else {
        Double { m: m | 1 << 52, e: e - 1075 }
    }
}

/// Numbers of many sizes, from a fixed sequence.
fn numbers(count: usize) -> Vec<u64> {
    let mut x = 0x9E37_79B9_7F4A_7C15u64;
    (0..count)
        .map(|i| {
            x ^= x << 13;
            x ^= x >> 7;
            x ^= x << 17;
            x >> (i * 7 % 64)
        })
        .collect()
}

/// Doubles of many sizes.
fn doubles() -> Vec<f64> {
    let mut all = vec![
        0.0,
        1.0,
        0.1,
        1.0 / 3.0,
        100.0,
        f64::MIN_POSITIVE,
        5e-324,
        1.5e-310,
        4.9e-162,
        1e300,
        f64::MAX,
        9007199254740991.0,
        1.0 + f64::EPSILON,
        2.0 - f64::EPSILON,
    ];
    for n in numbers(60) {
        all.push(n as f64);
        all.push(n as f64 / 1e9);
        all.push(n as f64 / 3e200);
    }
    all
}

#[test]
fn whole_numbers_are_converted() {
    for n in numbers(3000) {
        assert_eq!(Double::of(n), double(n as f64));
    }
    assert_eq!(Double::of(0), Double::nothing());
    assert_eq!(Double::of(u64::MAX), double(u64::MAX as f64));
}

#[test]
fn arithmetic_is_that_of_the_machine() {
    for a in doubles() {
        for b in doubles() {
            let (x, y) = (double(a), double(b));
            if (a * b).is_finite() {
                assert_eq!(x.times(y), double(a * b), "{a:e} * {b:e}");
            }
            if b > 0.0 && (a / b).is_finite() {
                assert_eq!(x.over(y), double(a / b), "{a:e} / {b:e}");
            }
            if (a + b).is_finite() {
                assert_eq!(x.plus(y), double(a + b), "{a:e} + {b:e}");
            }
            if a >= b {
                assert_eq!(x.minus(y), double(a - b), "{a:e} - {b:e}");
            }
            assert_eq!(x.is_less(y), a < b);
        }
    }
    // What is too large stays so.
    let most = double(f64::MAX);
    let infinite = most.plus(most);
    assert_eq!(infinite, double(f64::INFINITY));
    assert_eq!(infinite.plus(most), infinite);
    assert_eq!(infinite.times(Double::of(1_000)), infinite);
}

#[test]
fn numbers_are_rounded() {
    for a in doubles() {
        let x = double(a);
        assert_eq!(x.to_nearest(), a.round() as u64, "{a:e}");
        assert_eq!(x.to_size(), a as usize, "{a:e}");
        for n in [0u32, 1, 50, 75, 100, u32::MAX] {
            assert_eq!(x.is_above(n), a > n as f64);
            assert_eq!(x.is_at_least(n), a >= n as f64);
        }
        if a < 1e28 {
            let text = format!("{:.1}", a);
            let shown = Status { running: true, mem_pct: x, ..Default::default() };
            assert!(stats_line(&shown).ends_with(&format!("({text} %)")), "{a:e}");
        }
    }
    for half in [0.25, 0.75, 0.35, 1.25, 2.5, 0.05, 0.15, 12.45] {
        let shown = Status { running: true, mem_pct: double(half), ..Default::default() };
        assert!(stats_line(&shown).ends_with(&format!("({half:.1} %)")));
    }
}

#[test]
fn shares_are_in_double_precision() {
    for total in numbers(80) {
        let m = Monitor::new("x", 1, 1, total, 0);
        for bytes in numbers(80) {
            let expected = if total == 0 {
                0.0
            } else {
                bytes as f64 / total as f64 * 100.0
            };
            assert_eq!(m.mem_pct(bytes), double(expected), "{bytes} of {total}");
        }
        if total > 0 {
            assert_eq!(m.mem_pct(total), double(100.0));
        }
    }
    // Above 75 percent by too little to tell.
    let m = Monitor::new("x", 1, 1, 1 << 62, 0);
    assert!(!m.mem_pct(3 * (1 << 60) + 1).is_above(75));
}

#[test]
fn sizes_are_shown_in_double_precision() {
    for b in numbers(2000) {
        if b >= 1 << 30 {
            assert_eq!(format_bytes(b), format!("{:.2} GB", b as f64 / (1u64 << 30) as f64));
        }
    }
}

/// Area averaging in the machine's own arithmetic.
fn averaged(src: &[u8], sw: usize, sh: usize, dw: usize, dh: usize) -> Vec<u8> {
    let mut dst = vec![0u8; dw * dh];
    let fx = sw as f64 / dw as f64;
    let fy = sh as f64 / dh as f64;
    for y in 0..dh {
        let (top, bottom) = (y as f64 * fy, (y + 1) as f64 * fy);
        for x in 0..dw {
            let (left, right) = (x as f64 * fx, (x + 1) as f64 * fx);
            let (mut sum, mut area) = (0.0, 0.0);
            let mut sy = top as usize;
            while (sy as f64) < bottom && sy < sh {
                let wy = bottom.min((sy + 1) as f64) - top.max(sy as f64);
                let mut sx = left as usize;
                while (sx as f64) < right && sx < sw {
                    let wx = right.min((sx + 1) as f64) - left.max(sx as f64);
                    sum += src[sy * sw + sx] as f64 * wx * wy;
                    area += wx * wy;
                    sx += 1;
                }
                sy += 1;
            }
            if area > 0.0 {
                dst[y * dw + x] = (sum / area).round() as u8;
            }
        }
    }
    dst
}

#[test]
fn averages_are_in_double_precision() {
    let src: Vec<u8> = numbers(64 * 64).iter().map(|n| (n % 256) as u8).collect();
    for (sw, sh) in [(1, 1), (3, 2), (7, 5), (17, 13), (64, 61), (0, 4), (4, 0)] {
        for (dw, dh) in [(1, 1), (2, 3), (5, 4), (16, 16), (23, 9), (40, 37), (0, 3)] {
            assert_eq!(
                resample(&src, sw, sh, dw, dh),
                averaged(&src, sw, sh, dw, dh),
                "{sw}x{sh} to {dw}x{dh}"
            );
        }
    }
    // Every two by two picture of halves, to one pixel.
    for i in 0..256usize {
        let four = [0, (i % 4) as u8, (i / 4 % 8) as u8, (i / 32) as u8];
        assert_eq!(resample(&four, 2, 2, 1, 1), averaged(&four, 2, 2, 1, 1));
        assert_eq!(resample(&four, 4, 1, 3, 1), averaged(&four, 4, 1, 3, 1));
    }
}

/// More in use is never a smaller share.
#[test]
fn shares_grow() {
    for total in [1u64, 3, 1 << 40, u64::MAX / 7, u64::MAX] {
        let m = Monitor::new("x", 1, 1, total, 0);
        let mut all = numbers(300);
        all.sort();
        for pair in all.windows(2) {
            assert!(!m.mem_pct(pair[1]).is_less(m.mem_pct(pair[0])));
        }
        assert_eq!(m.mem_pct(0), Double::nothing());
    }
}
