use rav1e::hash::hashcoeffs;
use rav1e::hash::HashFrame;
use rav1e::transform::TxType;
use rav1e::version;

#[test]
fn version_components() {
    assert_eq!(version::major(), 0);
    assert_eq!(version::minor(), 1);
    assert_eq!(version::patch(), 0);
    assert_eq!(version::short(), "0.1.0");
    assert_eq!(version::hash(), "UNKNOWN");
    assert_eq!(version::long(), "0.1.0 - UNKNOWN");
    assert_eq!(version::full(), "0.1.0 (UNKNOWN)");
}

#[test]
fn hashcoeffs_is_deterministic() {
    let coeffs = vec![3, 0, -7, 1, 0, 0, 2];
    let a = hashcoeffs(&coeffs, 4, TxType::Dct, 8, 8);
    let b = hashcoeffs(&coeffs, 4, TxType::Dct, 8, 8);
    assert_eq!(a, b);
}

#[test]
fn hashcoeffs_skips_zero_coefficients() {
    // zero coefficients never reach the hasher, so streams that differ only
    // in zeros collide on purpose.
    let with_zeros = vec![0, 5, 0, -2, 0];
    let without = vec![5, -2];
    assert_eq!(
        hashcoeffs(&with_zeros, 3, TxType::Identity, 16, 16),
        hashcoeffs(&without, 3, TxType::Identity, 16, 16)
    );
}

#[test]
fn hashcoeffs_folds_eob_zero_and_one_together() {
    let coeffs = vec![9, 9];
    assert_eq!(
        hashcoeffs(&coeffs, 0, TxType::Dct, 4, 4),
        hashcoeffs(&coeffs, 1, TxType::Dct, 4, 4)
    );
}

#[test]
fn hashcoeffs_depends_on_its_inputs() {
    let coeffs = vec![1, 2, 3];
    let base = hashcoeffs(&coeffs, 3, TxType::Dct, 8, 8);
    assert_ne!(base, hashcoeffs(&vec![1, 2, 4], 3, TxType::Dct, 8, 8));
    assert_ne!(base, hashcoeffs(&coeffs, 2, TxType::Dct, 8, 8));
    assert_ne!(base, hashcoeffs(&coeffs, 3, TxType::Identity, 8, 8));
    assert_ne!(base, hashcoeffs(&coeffs, 3, TxType::Dct, 4, 8));
    assert_ne!(base, hashcoeffs(&coeffs, 3, TxType::Dct, 8, 4));
}

#[test]
fn hashframe_round_trips_planes_and_hashes_deterministically() {
    let planes = vec![vec![1u16, 2, 3], vec![400u16, 500]];
    let f = HashFrame::new(planes.clone());
    let g = HashFrame::new(planes.clone());
    assert_eq!(f.hash(), g.hash());
    let h = HashFrame::new(vec![vec![1u16, 2, 4], vec![400u16, 500]]);
    assert_ne!(f.hash(), h.hash());
    assert_eq!(f.into_planes(), planes);
}
