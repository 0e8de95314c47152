use rav1e::ec::Coder;
use rav1e::ec::CTX_SKIP;
use rav1e::ec::CTX_SIG;
use rav1e::ec::CTX_SPLIT;

#[test]
fn fresh_coder_charges_one_bit_per_symbol() {
    // counts (1, 1): inverse probability 2, exactly one bit in 1/256 units.
    let c = Coder::new();
    assert_eq!(c.estimate_cost(CTX_SKIP, false), 256);
    assert_eq!(c.estimate_cost(CTX_SKIP, true), 256);
}

#[test]
fn adapted_table_has_exact_fractional_costs() {
    let mut c = Coder::new();
    c.encode_symbol(CTX_SKIP, false);
    // counts (2, 1): cost(false) = log2(384/256)-scaled, cost(true) dearer.
    assert_eq!(c.estimate_cost(CTX_SKIP, false), 128);
    assert_eq!(c.estimate_cost(CTX_SKIP, true), 384);
}

#[test]
fn more_probable_symbol_never_estimates_dearer() {
    let mut c = Coder::new();
    for _ in 0..50 {
        c.encode_symbol(CTX_SIG, false);
    }
    assert!(c.estimate_cost(CTX_SIG, false) <= c.estimate_cost(CTX_SIG, true));
}

#[test]
fn estimation_is_pure() {
    let mut c = Coder::new();
    c.encode_symbol(CTX_SKIP, true);
    c.encode_symbol(CTX_SIG, false);
    let first = c.estimate_cost(CTX_SIG, true);
    // interleave many estimates with identical and different arguments
    for cat in 0..6 {
        for val in [false, true] {
            let a = c.estimate_cost(cat, val);
            let b = c.estimate_cost(cat, val);
            assert_eq!(a, b);
        }
    }
    assert_eq!(c.estimate_cost(CTX_SIG, true), first);
}

#[test]
fn checkpoint_then_restore_discards_the_trial() {
    let mut a = Coder::new();
    let mut b = Coder::new();
    let prefix = [
        (CTX_SKIP, true),
        (CTX_SIG, false),
        (CTX_SIG, true),
        (CTX_SPLIT, true),
        (CTX_SIG, true),
    ];
    for &(cat, val) in prefix.iter() {
        a.encode_symbol(cat, val);
        b.encode_symbol(cat, val);
    }
    let ck = a.checkpoint();
    let len_before = a.output_len();
    // a speculative trial that loses
    for _ in 0..200 {
        a.encode_symbol(CTX_SIG, true);
        a.encode_symbol(CTX_SKIP, false);
    }
    a.restore(&ck);
    assert_eq!(a.output_len(), len_before);
    // subsequent behavior is indistinguishable from never trialing
    let tail = [(CTX_SIG, false), (CTX_SKIP, true), (CTX_SPLIT, false)];
    for &(cat, val) in tail.iter() {
        a.encode_symbol(cat, val);
        b.encode_symbol(cat, val);
    }
    assert_eq!(a.finish(), b.finish());
}

#[test]
fn identical_symbol_streams_give_identical_bytes() {
    let mut a = Coder::new();
    let mut b = Coder::new();
    for i in 0..300usize {
        let cat = i % 6;
        let val = (i % 3) == 0;
        a.encode_symbol(cat, val);
        b.encode_symbol(cat, val);
    }
    let ba = a.finish();
    let bb = b.finish();
    assert_eq!(ba, bb);
    assert!(!ba.is_empty());
}
