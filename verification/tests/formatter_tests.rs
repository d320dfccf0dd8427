use dupy::formatter::{format_bytes, format_bytes_short};

/// The size text as floating point arithmetic and `{:.2}` produce it.
fn float_reference(bytes: u64) -> String {
    const KB: u64 = 1024;
    const MB: u64 = KB * 1024;
    const GB: u64 = MB * 1024;
    if bytes >= GB {
        format!("{:.2} GB", bytes as f64 / GB as f64)
    } else if bytes >= MB {
        format!("{:.2} MB", bytes as f64 / MB as f64)
    } else if bytes >= KB {
        format!("{:.2} KB", bytes as f64 / KB as f64)
    } else {
        format!("{} B", bytes)
    }
}

#[test]
fn bytes_below_one_kb() {
    assert_eq!(format_bytes(0), "0 B");
    assert_eq!(format_bytes(1), "1 B");
    assert_eq!(format_bytes(1023), "1023 B");
}

#[test]
fn unit_thresholds() {
    assert_eq!(format_bytes(1024), "1.00 KB");
    assert_eq!(format_bytes(1024 * 1024 - 1), "1024.00 KB");
    assert_eq!(format_bytes(1024 * 1024), "1.00 MB");
    assert_eq!(format_bytes(1024 * 1024 * 1024), "1.00 GB");
    assert_eq!(format_bytes(1536), "1.50 KB");
    assert_eq!(format_bytes(524288), "512.00 KB");
    assert_eq!(format_bytes(1258291), "1.20 MB");
    assert_eq!(format_bytes(2516582), "2.40 MB");
}

#[test]
fn ties_round_to_even() {
    // 1152 bytes are exactly 1.125 KB.
    assert_eq!(format_bytes(1152), float_reference(1152));
    // 1408 bytes are exactly 1.375 KB.
    assert_eq!(format_bytes(1408), float_reference(1408));
}

#[test]
fn huge_sizes() {
    assert_eq!(format_bytes(u64::MAX), float_reference(u64::MAX));
    assert_eq!(format_bytes(u64::MAX), "17179869184.00 GB");
    let big = (1u64 << 53) + 1;
    assert_eq!(format_bytes(big), float_reference(big));
    let odd = (1u64 << 60) + (1u64 << 7) + 3;
    assert_eq!(format_bytes(odd), float_reference(odd));
}

#[test]
fn agrees_with_float_formatting() {
    let mut b: u64 = 1;
    let mut step: u64 = 1;
    while b < u64::MAX / 3 {
        for d in 0..40u64 {
            let v = b.wrapping_add(d * 37);
            assert_eq!(format_bytes(v), float_reference(v), "bytes = {}", v);
        }
        b = b.saturating_add(step);
        step = step.saturating_mul(3) / 2 + 7;
    }
    for v in 1000..70000u64 {
        assert_eq!(format_bytes(v), float_reference(v), "bytes = {}", v);
    }
    for k in 0..64u32 {
        for delta in [0u64, 1, 2, 127, 128, 129, 511, 512, 513, 1023, 1024] {
            let v = (1u64 << k).wrapping_add(delta);
            assert_eq!(format_bytes(v), float_reference(v), "bytes = {}", v);
            let w = (1u64 << k).wrapping_sub(delta);
            assert_eq!(format_bytes(w), float_reference(w), "bytes = {}", w);
        }
    }
}

#[test]
fn short_sizes_drop_trailing_zeros() {
    assert_eq!(format_bytes_short(512), "512 B");
    assert_eq!(format_bytes_short(1024), "1 KB");
    assert_eq!(format_bytes_short(1536), "1.5 KB");
    assert_eq!(format_bytes_short(1280), "1.25 KB");
    assert_eq!(format_bytes_short(524288), "512 KB");
    assert_eq!(format_bytes_short(1258291), "1.2 MB");
    assert_eq!(format_bytes_short(3040870), "2.9 MB");
    assert_eq!(format_bytes_short(1073741824), "1 GB");
    // 1.005 KB rounds to 1.00 and then drops to 1.
    assert_eq!(format_bytes_short(1029), "1 KB");
}

#[test]
fn short_sizes_agree_with_two_places() {
    for v in (0..5_000_000u64).step_by(997) {
        let long = format_bytes(v);
        let mut short = long.clone();
        if short.contains('.') {
            let unit_at = short.find(' ').unwrap();
            let (number, unit) = short.split_at(unit_at);
            let number = number.trim_end_matches('0').trim_end_matches('.');
            short = format!("{}{}", number, unit);
        }
        assert_eq!(format_bytes_short(v), short, "bytes = {}", v);
    }
}
