use koala_mds::field::{monty_reduce, KoalaBear, P};

#[test]
fn canonical_round_trip() {
    for x in [0u32, 1, 2, 12345, P - 1] {
        assert_eq!(KoalaBear::from_canonical_u32(x).as_canonical_u32(), x);
    }
}

#[test]
fn montgomery_form_of_one() {
    // 2^32 mod p.
    assert_eq!(KoalaBear::from_canonical_u32(1).value, 33554430);
    assert_eq!(KoalaBear::one().value, 33554430);
}

#[test]
fn monty_reduce_values() {
    assert_eq!(monty_reduce(0), 0);
    // 2^32 * 7 reduces to 7.
    assert_eq!(monty_reduce(7u64 << 32), 7);
    // 1 reduces to 2^-32 mod p.
    assert_eq!(monty_reduce(1), 1057030144);
    let top = (1u64 << 32) * (P as u64) - 1;
    let r = monty_reduce(top);
    assert!(r < P);
    assert_eq!((r as u64) * (1u64 << 32) % (P as u64), top % (P as u64));
}

#[test]
fn arithmetic_on_canonical_values() {
    let a = KoalaBear::from_canonical_u32(P - 3);
    let b = KoalaBear::from_canonical_u32(10);
    assert_eq!(a.add(b).as_canonical_u32(), 7);
    assert_eq!(b.sub(a).as_canonical_u32(), 13);
    assert_eq!(b.neg().as_canonical_u32(), P - 10);
    assert_eq!(KoalaBear::zero().neg(), KoalaBear::zero());
    assert_eq!(a.mul(b).as_canonical_u32(), P - 30);
    assert_eq!(b.exp_u64(3).as_canonical_u32(), 1000);
    assert_eq!(b.exp_u64(0).as_canonical_u32(), 1);
}
