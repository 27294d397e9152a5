//! Cross-implementation checks against concrete-ntt's negacyclic plan for
//! the same prime and size.

use ntt::field::GOLDILOCKS_P;
use ntt::plonky2::Plonky2Ntt;
use ntt::Ntt;

/// The baseline's own round trip at the shared prime, as a sanity check of
/// the comparison harness.
#[test]
fn baseline_round_trip() {
    let n: usize = 64;
    let plan = concrete_ntt::prime64::Plan::try_new(n, GOLDILOCKS_P).unwrap();
    let engine = Plonky2Ntt::new(n);
    let a = engine.rand();
    let mut buf = a.clone();
    plan.fwd(&mut buf);
    plan.inv(&mut buf);
    plan.normalize(&mut buf);
    assert_eq!(buf, a);
}

/// Both implementations transform onto the same coset: the forward outputs
/// hold exactly the same set of evaluations. They are not element-wise
/// identical, because each implementation picks its own primitive 2n-th
/// root of unity, which permutes the evaluation order.
#[test]
fn cross_coset_agreement() {
    for n in (4..12).map(|log_n| 1usize << log_n) {
        let plan = concrete_ntt::prime64::Plan::try_new(n, GOLDILOCKS_P).unwrap();
        let engine = Plonky2Ntt::new(n);
        let a = engine.rand();
        let mut ours = a.clone();
        engine.forward(&mut ours);
        let mut theirs = a.clone();
        plan.fwd(&mut theirs);
        ours.sort_unstable();
        theirs.sort_unstable();
        assert_eq!(ours, theirs);
    }
}
