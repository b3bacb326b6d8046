use zipvoice_rs::rng::XorShift64;

#[test]
fn xorshift_known_sequence() {
    let mut g = XorShift64::new(42);
    assert_eq!(g.next_u32(), 10);
    assert_eq!(g.next_u32(), 2685053693);
    assert_eq!(g.next_u32(), 2333292956);
}

#[test]
fn xorshift_zero_seed_is_one() {
    let mut zero = XorShift64::new(0);
    let mut one = XorShift64::new(1);
    for _ in 0..5 {
        assert_eq!(zero.next_u32(), one.next_u32());
    }
}

#[test]
fn xorshift_state_never_zero_over_many_steps() {
    let mut g = XorShift64::new(u64::MAX);
    let mut any_nonzero = false;
    for _ in 0..1000 {
        if g.next_u32() != 0 {
            any_nonzero = true;
        }
    }
    assert!(any_nonzero);
}
