use reality_engine::transform::local::{D_PHI, D_TAU, RATE_SCALE};

#[test]
fn test_transform_turing_diffusion_asymmetry() {
    // D_TAU > D_PHI means tau diffuses faster than phi
    assert!(D_TAU > D_PHI, "Turing instability requires D_TAU > D_PHI");
}

#[test]
fn rates_are_hundredths() {
    assert_eq!(RATE_SCALE, 100);
    assert_eq!((D_PHI, D_TAU), (15, 30));
}
