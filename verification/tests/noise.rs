use klattsch::noise::Xorshift32;

fn next_sample(rng: &mut Xorshift32) -> f32 {
    (rng.next_raw() as f32) / 2_147_483_648.0
}

#[test]
fn xorshift_matches_js_first_samples() {
    let mut rng = Xorshift32::new();

    let s1 = next_sample(&mut rng);
    assert_eq!(rng.state(), 0xb6c5_cbbf);
    assert_eq!(s1.to_bits(), 0xbf12_7469);

    let s2 = next_sample(&mut rng);
    assert_eq!(rng.state(), 0xf9f7_a0a6);
    assert_eq!(s2.to_bits(), 0xbd41_0beb);

    let s3 = next_sample(&mut rng);
    assert_eq!(rng.state(), 0xb18f_acb7);
    assert_eq!(s3.to_bits(), 0xbf1c_e0a7);
}

#[test]
fn new_and_default_start_at_the_default_seed() {
    assert_eq!(Xorshift32::new().state(), Xorshift32::DEFAULT_SEED);
    assert_eq!(Xorshift32::default().state(), 0xACE1_ACE1);
}

#[test]
fn reset_rewinds_the_sequence() {
    let mut rng = Xorshift32::with_seed(0x1234_5678);
    let first = rng.next_raw();
    rng.next_raw();
    rng.reset(0x1234_5678);
    assert_eq!(rng.state(), 0x1234_5678);
    assert_eq!(rng.next_raw(), first);
}

#[test]
fn zero_seed_stays_at_zero() {
    let mut rng = Xorshift32::with_seed(0);
    for _ in 0..5 {
        assert_eq!(rng.next_raw(), 0);
    }
}

#[test]
fn nonzero_seed_never_reaches_zero() {
    let mut rng = Xorshift32::with_seed(1);
    for _ in 0..10_000 {
        assert_ne!(rng.next_raw(), 0);
    }
}

#[test]
fn next_raw_is_the_new_state_as_signed() {
    let mut rng = Xorshift32::new();
    let raw = rng.next_raw();
    assert_eq!(raw as u32, rng.state());
    assert_eq!(raw, 0xb6c5_cbbf_u32 as i32);
}
