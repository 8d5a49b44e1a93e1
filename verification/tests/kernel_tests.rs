use reality_engine::kernel::rng::Xorshift64;

#[test]
fn xorshift_first_step_from_one() {
    let mut r = Xorshift64::new(1);
    assert_eq!(r.next(), 1082269761);
}

#[test]
fn xorshift_zero_seed_is_replaced() {
    let mut a = Xorshift64::new(0);
    let mut b = Xorshift64::new(0xdeadbeef_cafebabe);
    for _ in 0..10 {
        let x = a.next();
        assert_eq!(x, b.next());
        assert_ne!(x, 0);
    }
}

#[test]
fn xorshift_same_seed_same_stream() {
    let mut a = Xorshift64::new(123);
    let mut b = Xorshift64::new(123);
    let mut c = Xorshift64::new(124);
    let mut differs = false;
    for _ in 0..20 {
        let x = a.next();
        assert_eq!(x, b.next());
        if x != c.next() {
            differs = true;
        }
    }
    assert!(differs);
}
