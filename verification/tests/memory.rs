use lama_inpaint::mem::{check_capacity, estimated_bytes, mib, DeviceMemory};

/// The estimate is a straight line through the three measured points.
#[test]
fn estimate_matches_the_measured_points() {
    for (side, expect_mib) in [(1536usize, 2933u64), (2048, 5051), (2560, 7619)] {
        let got = estimated_bytes(side as u64 * side as u64) / (1 << 20);
        assert!(
            got.abs_diff(expect_mib) <= expect_mib / 50,
            "{side}x{side}: estimated {got} MiB, measured {expect_mib} MiB"
        );
    }
}

/// The window that failed must be estimated beyond an 8 GB card, and a
/// 512x512 pass well inside one - the two facts the guard turns on.
#[test]
fn the_failing_window_is_out_of_range_and_a_section_is_not() {
    let gb8 = 8192u64 << 20;
    assert!(estimated_bytes(3472 * 3472) > gb8, "3472x3472 must not fit 8 GB");
    assert!(estimated_bytes(3072 * 3072) > gb8, "3072x3072 measured OOM on 8 GB");
    assert!(estimated_bytes(2560 * 2560) < gb8, "2560x2560 measured 7619 MiB");
    let pass = estimated_bytes(512 * 512);
    assert!(pass < gb8 / 8, "a 512x512 pass must fit even a 1 GB card: {pass}");
}

/// The estimate must grow with area and never wrap.
#[test]
fn estimate_is_monotone_and_saturating() {
    let mut last = 0;
    for side in [1usize, 64, 512, 1024, 2048, 4096] {
        let v = estimated_bytes(side as u64 * side as u64);
        assert!(v > last);
        last = v;
    }
    // Absurd sizes saturate rather than wrap around to a small number.
    assert!(estimated_bytes(u64::MAX / 2) >= last);
}

#[test]
fn memory_is_formatted_readably() {
    assert_eq!(mib(512 << 20), "512 MB");
    assert_eq!(mib(2 << 30), "2.0 GB");
}

fn device(free: u64) -> Option<DeviceMemory> {
    Some(DeviceMemory { free, total: 8 << 30, name: "Card".to_string() })
}

#[test]
fn sizes_are_rounded_to_the_unit_they_are_given_in() {
    assert_eq!(mib(0), "0 MB");
    assert_eq!(mib((1 << 20) + (1 << 19)), "2 MB");
    assert_eq!(mib((1 << 30) - 1), "1024 MB");
    assert_eq!(mib(3 << 29), "1.5 GB");
    assert_eq!(mib((1 << 30) + (51 << 20)), "1.0 GB");
    assert_eq!(mib(u64::MAX), "17179869184.0 GB");
}

#[test]
fn the_estimate_is_a_straight_line() {
    assert_eq!(estimated_bytes(0), 343 << 20);
    assert_eq!(estimated_bytes(1000), (343 << 20) + 1_170_000);
    assert_eq!(estimated_bytes(u64::MAX), u64::MAX);
}

#[test]
fn a_pass_is_refused_exactly_when_it_leaves_no_headroom() {
    let need = estimated_bytes(512 * 512);
    let mut free = need;
    while free - free / 10 < need {
        free += 1;
    }
    assert!(check_capacity(512, 512, "hint", &device(free)).is_ok());
    assert!(check_capacity(512, 512, "hint", &device(free - 1)).is_err());
    assert!(check_capacity(512, 512, "hint", &None).is_ok());
}

#[test]
fn a_refusal_names_the_sizes_the_device_and_the_way_out() {
    let e = check_capacity(3472, 3464, "Use --sections.", &device(7 << 30)).unwrap_err();
    assert_eq!(
        e,
        "an inference over 3464x3472 needs about 13.4 GB of device memory, but only 7.0 GB is free \
         of 8.0 GB on \"Card\".  Use --sections."
    );
}

#[test]
fn more_free_memory_never_turns_a_pass_away() {
    let mut accepted = false;
    for free in (0..40).map(|i| i * (64 << 20)) {
        let ok = check_capacity(512, 512, "", &device(free)).is_ok();
        assert!(ok || !accepted);
        accepted = ok;
    }
    assert!(accepted);
}
