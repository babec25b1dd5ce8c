use open_task::format::{bytes, bytes_of, count, human};
use open_task::model::Bytes;

fn s(f: impl FnOnce(&mut String)) -> String {
    let mut b = String::from("stale");
    f(&mut b);
    b
}

const UNITS: [&str; 6] = ["B", "KB", "MB", "GB", "TB", "PB"];

/// The float-based formatting these functions are specified to agree with.
fn float_bytes(raw: u64) -> String {
    let mut v = raw as f64;
    let mut u = 0;
    while v >= 1024.0 && u < UNITS.len() - 1 {
        v /= 1024.0;
        u += 1;
    }
    if u == 0 {
        format!("{raw} B")
    } else if v >= 100.0 {
        format!("{v:.0} {}", UNITS[u])
    } else if v >= 10.0 {
        format!("{v:.1} {}", UNITS[u])
    } else {
        format!("{v:.2} {}", UNITS[u])
    }
}

fn float_bytes_of(used: u64, total: u64) -> String {
    let mut scale = total.max(used) as f64;
    let mut u = 0;
    while scale >= 1024.0 && u < UNITS.len() - 1 {
        scale /= 1024.0;
        u += 1;
    }
    let div = 1024f64.powi(u as i32);
    let a = used as f64 / div;
    let b = total as f64 / div;
    format!("{a:.1} / {b:.1} {}", UNITS[u])
}

fn float_human(raw: u64) -> String {
    const U: [&str; 5] = ["B", "K", "M", "G", "T"];
    let mut v = raw as f64;
    let mut u = 0;
    while v >= 1024.0 && u < U.len() - 1 {
        v /= 1024.0;
        u += 1;
    }
    if u == 0 {
        format!("{v:.0}{}", U[u])
    } else {
        format!("{v:.1}{}", U[u])
    }
}

fn samples() -> Vec<u64> {
    let mut v = vec![0, 1, 9, 10, 99, 100, 1023, 1024, 1025, 1152, 1536, 10239, 10240, 10241];
    let mut x: u64 = 1;
    while x < u64::MAX / 3 {
        v.extend([x, x + 1, x.saturating_sub(1), x * 3 / 2, x * 5 / 4, x * 9 / 8, x * 1000 / 1024]);
        x = x.wrapping_mul(2);
    }
    // Values that sit exactly on a rounding tie at each precision.
    for u in 1..6u32 {
        let d = 1024u64.pow(u);
        for num in [1125u64, 1375, 2625, 9995, 10005, 995, 1005, 105, 115, 125] {
            // num / 1000 of a unit, and num / 100, num / 10.
            for den in [1000u64, 100, 10] {
                if let Some(p) = d.checked_mul(num) {
                    v.push(p / den);
                }
            }
        }
        v.push(d * 1023 / 1);
    }
    v.extend([u64::MAX, u64::MAX - 1, 1 << 53, (1 << 53) + 1, (1 << 54) + 2, (1 << 54) + 6, 0x0020_0000_0000_0001]);
    let mut seed: u64 = 0x9E37_79B9_7F4A_7C15;
    for _ in 0..20000 {
        seed ^= seed << 13;
        seed ^= seed >> 7;
        seed ^= seed << 17;
        let shift = seed % 64;
        v.push(seed >> shift);
    }
    v
}

#[test]
fn bytes_picks_three_significant_figures() {
    assert_eq!(s(|b| bytes(b, Bytes(12))), "12 B");
    assert_eq!(s(|b| bytes(b, Bytes(1536))), "1.50 KB");
    assert_eq!(
        s(|b| bytes(b, Bytes(45 * 1024 * 1024 + 600 * 1024))),
        "45.6 MB"
    );
    assert_eq!(s(|b| bytes(b, Bytes(789 * 1024 * 1024))), "789 MB");
    assert_eq!(s(|b| bytes(b, Bytes(1_320_702_444))), "1.23 GB");
}

#[test]
fn bytes_of_shares_a_unit() {
    let gb = 1024 * 1024 * 1024;
    assert_eq!(
        s(|b| bytes_of(b, Bytes(52 * gb + gb / 3), Bytes(64 * gb))),
        "52.3 / 64.0 GB"
    );
}

#[test]
fn bytes_agrees_with_float_formatting() {
    for raw in samples() {
        assert_eq!(s(|b| bytes(b, Bytes(raw))), float_bytes(raw), "raw = {raw}");
    }
}

#[test]
fn bytes_of_agrees_with_float_formatting() {
    let xs = samples();
    for (i, &a) in xs.iter().enumerate() {
        let b = xs[(i * 7 + 3) % xs.len()];
        assert_eq!(s(|o| bytes_of(o, Bytes(a), Bytes(b))), float_bytes_of(a, b), "{a} {b}");
    }
}

#[test]
fn human_agrees_with_float_formatting() {
    for raw in samples() {
        assert_eq!(human(Bytes(raw)), float_human(raw), "raw = {raw}");
    }
}

#[test]
fn bytes_rounds_ties_to_even() {
    // 1.125 KB and 1.375 KB sit exactly between two two-decimal values.
    assert_eq!(s(|b| bytes(b, Bytes(1152))), "1.12 KB");
    assert_eq!(s(|b| bytes(b, Bytes(1408))), "1.38 KB");
}

#[test]
fn bytes_of_small_values_stay_in_bytes() {
    assert_eq!(s(|b| bytes_of(b, Bytes(12), Bytes(1000))), "12.0 / 1000.0 B");
    assert_eq!(s(|b| bytes_of(b, Bytes(2048), Bytes(1024))), "2.0 / 1.0 KB");
}

#[test]
fn count_writes_plain_integers() {
    assert_eq!(s(|b| count(b, 0)), "0");
    assert_eq!(s(|b| count(b, 1234)), "1234");
    assert_eq!(s(|b| count(b, u32::MAX)), "4294967295");
}

#[test]
fn human_uses_one_letter_units() {
    assert_eq!(human(Bytes(512)), "512B");
    assert_eq!(human(Bytes(1536)), "1.5K");
    assert_eq!(human(Bytes(3 * 1024 * 1024 * 1024)), "3.0G");
}
