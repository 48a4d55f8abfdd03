use evo2::rng::Rng;

#[test]
fn seeded_streams_are_deterministic() {
    let mut a = Rng::new(0);
    let expected: [u64; 5] = [
        7255456701419393109,
        3842803101360640997,
        8613611020625023569,
        14588816789788042894,
        1286113878805229948,
    ];
    for e in expected {
        assert_eq!(a.next_u64(), e);
    }
    let mut b = Rng::new(42);
    assert_eq!(b.next_u64(), 4447118735901508026);
    assert_eq!(b.next_u64(), 1235227598947231803);
    assert_eq!(b.next_u64(), 4779757539742100894);
}

#[test]
fn same_seed_same_stream() {
    let mut a = Rng::new(123456789);
    let mut b = Rng::new(123456789);
    for _ in 0..100 {
        assert_eq!(a.next_u64(), b.next_u64());
    }
}

#[test]
fn below_stays_in_range() {
    let mut r = Rng::new(0);
    let got: Vec<usize> = (0..5).map(|_| r.below(10)).collect();
    assert_eq!(got, vec![9, 7, 9, 4, 8]);
    for n in 1..50usize {
        assert!(r.below(n) < n);
    }
}

#[test]
fn below_zero_draws_nothing() {
    let mut r = Rng::new(0);
    assert_eq!(r.below(0), 0);
    assert_eq!(r.next_u64(), 7255456701419393109);
}

#[test]
fn unit_bits_are_the_top_24_bits() {
    let mut r = Rng::new(7);
    assert_eq!(r.next_unit_bits(), 7325334);
    for _ in 0..100 {
        assert!(r.next_unit_bits() < (1 << 24));
    }
}

#[test]
fn stream_never_sticks_at_zero() {
    let mut r = Rng::new(u64::MAX);
    let mut zeros = 0;
    for _ in 0..1000 {
        if r.next_u64() == 0 {
            zeros += 1;
        }
    }
    assert!(zeros < 2);
}
