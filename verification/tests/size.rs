use falcon::size::{format_size, GB, KB, MB, TB};

/// The text that double-precision arithmetic gives.
fn float_text(bytes: u64) -> String {
    let b = bytes as f64;
    let kb = 1024.0_f64;
    let mb = kb * 1024.0;
    let gb = mb * 1024.0;
    let tb = gb * 1024.0;
    if b >= tb {
        format!("{:.2} TB", b / tb)
    } else if b >= gb {
        format!("{:.2} GB", b / gb)
    } else if b >= mb {
        format!("{:.2} MB", b / mb)
    } else if b >= kb {
        format!("{:.2} KB", b / kb)
    } else {
        format!("{} B", bytes)
    }
}

#[test]
fn bytes_stand_alone() {
    assert_eq!(format_size(0), "0 B");
    assert_eq!(format_size(7), "7 B");
    assert_eq!(format_size(1023), "1023 B");
}

#[test]
fn units_start_at_one() {
    assert_eq!(format_size(KB), "1.00 KB");
    assert_eq!(format_size(MB), "1.00 MB");
    assert_eq!(format_size(GB), "1.00 GB");
    assert_eq!(format_size(TB), "1.00 TB");
    assert_eq!(format_size(1536), "1.50 KB");
    assert_eq!(format_size(123_456_789), "117.74 MB");
}

#[test]
fn just_below_a_unit_rounds_up_to_1024() {
    assert_eq!(format_size(MB - 1), "1024.00 KB");
    assert_eq!(format_size(TB - 1), "1024.00 GB");
}

#[test]
fn halves_round_to_even() {
    // 1024 * 1.125 is exactly halfway between two texts, and so is 1024 * 1.375.
    assert_eq!(format_size(1152), "1.12 KB");
    assert_eq!(format_size(1408), "1.38 KB");
}

#[test]
fn largest_count() {
    assert_eq!(format_size(u64::MAX), "16777216.00 TB");
}

#[test]
fn agrees_with_double_precision() {
    let mut bytes: u64 = 1;
    for step in 0..200_000u64 {
        assert_eq!(format_size(bytes), float_text(bytes));
        bytes = bytes.wrapping_mul(6_364_136_223_846_793_005).wrapping_add(step) >> (step % 60);
    }
    for shift in 0..64 {
        for delta in 0..40u64 {
            let near = (1u64 << shift).wrapping_add(delta).wrapping_sub(20);
            assert_eq!(format_size(near), float_text(near));
            let wide = (1u64 << shift).wrapping_add(delta << (shift / 2));
            assert_eq!(format_size(wide), float_text(wide));
        }
    }
    for eighth in 0..20_000u64 {
        assert_eq!(format_size(eighth * 128), float_text(eighth * 128));
        assert_eq!(format_size(eighth * (TB / 8)), float_text(eighth * (TB / 8)));
    }
    for low in 0..5_000u64 {
        assert_eq!(format_size(u64::MAX - low), float_text(u64::MAX - low));
        let double_edge = (1u64 << 53) + low;
        assert_eq!(format_size(double_edge), float_text(double_edge));
    }
}
