use gain::quantize::{level_for_value, quantize, VOLUME_SCALE};

#[test]
fn tenth_step_rounds_to_half() {
    assert_eq!(level_for_value(505, 100_000), 500_000);
}

#[test]
fn ends_of_the_scale() {
    assert_eq!(level_for_value(0, 10_000), 0);
    assert_eq!(level_for_value(1023, 10_000), VOLUME_SCALE);
    assert_eq!(level_for_value(1023, VOLUME_SCALE), VOLUME_SCALE);
    assert_eq!(level_for_value(511, VOLUME_SCALE), 0);
    assert_eq!(level_for_value(512, VOLUME_SCALE), VOLUME_SCALE);
}

#[test]
fn step_that_overshoots_is_clamped() {
    // 1.0 / 0.4 = 2.5 rounds to 3, and 1.2 is clamped to full volume
    assert_eq!(level_for_value(1023, 400_000), VOLUME_SCALE);
    // 1.0 / 0.3 = 3.33 rounds to 3
    assert_eq!(level_for_value(1023, 300_000), 900_000);
}

#[test]
fn quantize_snaps_and_is_idempotent() {
    assert_eq!(quantize(473_000, 100_000), 500_000);
    assert_eq!(quantize(449_999, 100_000), 400_000);
    for step in [1u32, 10_000, 100_000, 300_000, 400_000, VOLUME_SCALE] {
        for x in [0u32, 1, 49_999, 50_000, 333_333, 949_999, 999_999, VOLUME_SCALE] {
            let q = quantize(x, step);
            assert_eq!(quantize(q, step), q);
        }
        for v in [0u16, 1, 505, 1000, 1023] {
            let l = level_for_value(v, step);
            assert_eq!(quantize(l, step), l);
        }
    }
}
