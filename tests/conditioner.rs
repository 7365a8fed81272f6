use gain::conditioner::Potentiometer;

fn feed(p: &mut Potentiometer, raws: &[u16]) -> Vec<u16> {
    raws.iter().map(|&r| p.update(r)).collect()
}

#[test]
fn first_reading_seeds_the_average() {
    let mut p = Potentiometer::new();
    assert_eq!(p.update(500), 500);
    assert_eq!(p.accumulator, 1000);
    assert_eq!(p.last_stable_val, 500);
}

#[test]
fn moving_average_halves_the_step() {
    let mut p = Potentiometer::new();
    p.update(500);
    // accumulator 1000 - 500 + 600 = 1100, smoothed 550
    assert_eq!(p.update(600), 550);
    assert_eq!(p.accumulator, 1100);
}

#[test]
fn small_moves_are_ignored() {
    let mut p = Potentiometer::new();
    p.update(500);
    // smoothed (1000 - 500 + 508) / 2 = 504: a move of 4 is kept out
    assert_eq!(p.update(508), 500);
    assert_eq!(p.last_stable_val, 500);
    // smoothed (1008 - 504 + 512) / 2 = 508: a move of 8 is taken
    assert_eq!(p.update(512), 508);
}

#[test]
fn edges_clamp_to_the_rails() {
    let mut p = Potentiometer::new();
    assert_eq!(p.update(1020), 1023);
    let mut q = Potentiometer::new();
    assert_eq!(q.update(3), 0);
    let mut r = Potentiometer::new();
    assert_eq!(r.update(1018), 1018);
    let mut s = Potentiometer::new();
    assert_eq!(s.update(5), 5);
}

#[test]
fn output_stays_in_range_for_extreme_readings() {
    let mut p = Potentiometer::new();
    let outs = feed(&mut p, &[65535, 0, 65535, 65535, 1, 40000, 0, 0, 0, 65535]);
    for o in outs {
        assert!(o <= 1023);
    }
}

#[test]
fn constant_input_settles() {
    let mut p = Potentiometer::new();
    p.update(100);
    let outs = feed(&mut p, &[700; 18]);
    let settled = p;
    let last = *outs.last().unwrap();
    for _ in 0..50 {
        assert_eq!(p.update(700), last);
    }
    assert_eq!(p.accumulator, settled.accumulator);
    assert_eq!(p.last_stable_val, settled.last_stable_val);
    // hysteresis holds the stable value within the threshold of the reading
    assert_eq!(last, 698);
}

#[test]
fn unit_jitter_keeps_the_output() {
    let mut p = Potentiometer::new();
    feed(&mut p, &[500; 20]);
    let before = p.update(500);
    assert_eq!(before, 500);
    for i in 0..100 {
        let raw = if i % 2 == 0 { 501 } else { 500 };
        assert_eq!(p.update(raw), before);
    }
}
