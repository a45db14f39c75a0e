use mill_core::rng::Rng;

#[test]
fn deterministic_for_same_seed() {
    let mut a = Rng::new(42);
    let mut b = Rng::new(42);
    for _ in 0..100 {
        assert_eq!(a.next_u64(), b.next_u64());
    }
}

#[test]
fn zero_seed_is_remapped() {
    let mut rng = Rng::new(0);
    // Should not panic or get stuck at zero.
    assert_ne!(rng.next_u64(), 0);
}

#[test]
fn first_outputs_match_the_xorshift64_star_formula() {
    let mut rng = Rng::new(1);
    assert_eq!(rng.next_u64(), 0xbafa_cf62_4f01_c45d);
    assert_eq!(rng.next_u64(), 0x02da_6891_e507_685d);
    assert_eq!(rng.next_u64(), 0xfe17_a361_146f_b7a5);

    let mut rng = Rng::new(42);
    assert_eq!(rng.next_u64(), 0x089b_8aba_0d62_3742);
    assert_eq!(rng.next_u64(), 0x95bc_77bf_ee2d_32a3);
    assert_eq!(rng.next_u64(), 0xce46_e7f7_169b_a4d2);
}

#[test]
fn zero_seed_behaves_like_the_remapped_seed() {
    let mut zero = Rng::new(0);
    let mut remapped = Rng::new(0x9E37_79B9_7F4A_7C15);
    assert_eq!(zero.next_u64(), 0x7403_d1a2_8c9a_2599);
    assert_eq!(remapped.next_u64(), 0x7403_d1a2_8c9a_2599);
    for _ in 0..50 {
        assert_eq!(zero.next_u64(), remapped.next_u64());
    }
}

#[test]
fn a_clone_continues_the_same_sequence() {
    let mut a = Rng::new(7);
    a.next_u64();
    let mut b = a.clone();
    for _ in 0..20 {
        assert_eq!(a.next_u64(), b.next_u64());
    }
}

#[test]
fn outputs_are_never_zero_over_a_long_run() {
    let mut rng = Rng::new(123_456_789);
    for _ in 0..10_000 {
        assert_ne!(rng.next_u64(), 0);
    }
}

#[test]
fn different_seeds_give_different_sequences() {
    let mut a = Rng::new(1);
    let mut b = Rng::new(2);
    let sa: Vec<u64> = (0..4).map(|_| a.next_u64()).collect();
    let sb: Vec<u64> = (0..4).map(|_| b.next_u64()).collect();
    assert_ne!(sa, sb);
}
