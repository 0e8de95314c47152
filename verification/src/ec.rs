//! Adaptive binary range coder.
//!
//! The coder owns per-category adaptive probability tables (the context
//! state) and the output byte buffer of one tile. Committed encodes narrow a
//! finite-precision range proportionally to the current probability, emit
//! completed bytes on renormalization, and propagate carries exactly into
//! already-buffered bytes. Cost estimation is read-only and returns the
//! fractional bit cost a symbol would take under the current tables.

use vstd::prelude::*;
use vstd::arithmetic::div_mod::*;
use vstd::arithmetic::mul::*;
use vstd::arithmetic::power2::*;

verus! {

/// Number of symbol categories (context slots) the engine uses.
pub const NUM_CTX: usize = 6;

/// Category of the split/no-split symbol of a partition node.
pub const CTX_SPLIT: usize = 0;

/// Category of the skip flag of a block.
pub const CTX_SKIP: usize = 1;

/// Category of the bits of a block's predicted base value.
pub const CTX_DC: usize = 2;

/// Category of the per-coefficient significance flag.
pub const CTX_SIG: usize = 3;

/// Category of the sign of a nonzero coefficient level.
pub const CTX_SIGN: usize = 4;

/// Category of the magnitude bits of a nonzero coefficient level.
pub const CTX_LEVEL: usize = 5;

/// Saturation bound of the per-symbol frequency counts: adaptation never
/// raises a count above this, which keeps every probability strictly
/// between zero and one.
pub const CTX_COUNT_SAT: u32 = 0x8000;

/// Renormalization threshold of the coder's range.
pub const RANGE_BOTTOM: u32 = 0x100_0000;

/// Upper bound (inclusive) on the value `estimate_cost` returns; costs are
/// in 1/256-bit units, and no table state can make one symbol dearer than
/// this.
pub const MAX_SYMBOL_COST: u64 = 4400;

/// One adaptive probability table: frequency counts of the two symbol
/// values of a binary category.
#[derive(Clone, Copy, PartialEq, Eq, Structural, Debug)]
pub struct CtxTable {
    pub c0: u32,
    pub c1: u32,
}

/// Mathematical model of a coder (and of a checkpoint, which snapshots one).
pub ghost struct CoderView {
    /// Low end of the current coding interval.
    pub low: int,
    /// Width of the current coding interval.
    pub range: int,
    /// Output bytes buffered so far.
    pub bytes: Seq<u8>,
    /// Adaptive probability tables, one per category.
    pub ctx: Seq<CtxTable>,
}

/// Well-formedness of a coder model: the interval is in its normalized
/// window and every frequency count is in `[1, CTX_COUNT_SAT]`.
pub open spec fn wf_view(v: CoderView) -> bool {
    &&& 0 <= v.low < 0x1_0000_0000
    &&& RANGE_BOTTOM <= v.range < 0x1_0000_0000
    &&& v.ctx.len() == NUM_CTX
    &&& forall|i: int|
        0 <= i < v.ctx.len() ==> 1 <= (#[trigger] v.ctx[i]).c0 <= CTX_COUNT_SAT && 1 <= v.ctx[i].c1
            <= CTX_COUNT_SAT
}

/// The model of a freshly reset coder: full range, empty output, all
/// counts one.
pub open spec fn spec_init() -> CoderView {
    CoderView {
        low: 0,
        range: 0xFFFF_FFFF,
        bytes: Seq::empty(),
        ctx: Seq::new(NUM_CTX as nat, |i: int| CtxTable { c0: 1, c1: 1 }),
    }
}

/// Exact carry propagation into the buffered output: adding one to the
/// byte string read as a big number, where every trailing 0xFF wraps to
/// zero and the carry moves left.
pub open spec fn spec_carry(s: Seq<u8>) -> Seq<u8>
    decreases s.len(),
{
    if s.len() == 0 {
        s
    } else if s.last() == 255 {
        spec_carry(s.drop_last()).push(0)
    } else {
        s.update(s.len() - 1, (s.last() + 1) as u8)
    }
}

/// Renormalization: while the range is below the threshold, the top byte
/// of `low` is emitted and range and low are scaled by 256.
pub open spec fn spec_renorm(low: int, range: int, bytes: Seq<u8>) -> (int, int, Seq<u8>)
    decreases (if range >= RANGE_BOTTOM { 0int } else { RANGE_BOTTOM - range }),
{
    if range >= RANGE_BOTTOM || range < 1 {
        (low, range, bytes)
    } else {
        spec_renorm((low % 0x100_0000) * 256, range * 256, bytes.push((low / 0x100_0000) as u8))
    }
}

/// Frequency adaptation after a committed symbol: the coded value's count
/// grows by one, saturating at `CTX_COUNT_SAT`.
pub open spec fn spec_adapt(t: CtxTable, val: bool) -> CtxTable {
    if !val {
        if t.c0 < CTX_COUNT_SAT {
            CtxTable { c0: (t.c0 + 1) as u32, c1: t.c1 }
        } else {
            t
        }
    } else {
        if t.c1 < CTX_COUNT_SAT {
            CtxTable { c0: t.c0, c1: (t.c1 + 1) as u32 }
        } else {
            t
        }
    }
}

/// Interval narrowing of one committed symbol, before renormalization:
/// the range splits proportionally to the two counts, value zero keeping
/// the lower part and value one the upper part (with exact carry into the
/// buffer when `low` overflows).
pub open spec fn spec_narrow(v: CoderView, cat: int, val: bool) -> (int, int, Seq<u8>) {
    let t = v.ctx[cat];
    let total = t.c0 + t.c1;
    let part = (v.range / total) * t.c0;
    if !val {
        (v.low, part, v.bytes)
    } else {
        let lraw = v.low + part;
        if lraw >= 0x1_0000_0000 {
            (lraw - 0x1_0000_0000, v.range - part, spec_carry(v.bytes))
        } else {
            (lraw, v.range - part, v.bytes)
        }
    }
}

/// The full effect of one committed `encode_symbol` call on the model.
pub open spec fn spec_encode(v: CoderView, cat: int, val: bool) -> CoderView {
    let (l1, r1, b1) = spec_narrow(v, cat, val);
    let (l2, r2, b2) = spec_renorm(l1, r1, b1);
    CoderView { low: l2, range: r2, bytes: b2, ctx: v.ctx.update(cat, spec_adapt(v.ctx[cat], val)) }
}

/// The effect of a whole sequence of committed encodes.
pub open spec fn apply_encodes(v: CoderView, ops: Seq<(usize, bool)>) -> CoderView
    decreases ops.len(),
{
    if ops.len() == 0 {
        v
    } else {
        apply_encodes(spec_encode(v, ops[0].0 as int, ops[0].1), ops.drop_first())
    }
}

/// Integer base-two logarithm, rounded down.
pub open spec fn ilog2(n: int) -> int
    decreases n,
{
    if n < 2 {
        0
    } else {
        1 + ilog2(n / 2)
    }
}

/// Base-two logarithm in 1/256 units with a linear interpolation between
/// powers of two; defined for `n >= 1`.
pub open spec fn spec_log2q8(n: int) -> int {
    let e = ilog2(n);
    let p = pow2(e as nat) as int;
    e * 256 + ((n - p) * 256) / p
}

/// Fractional bit cost, in 1/256-bit units, of a symbol whose count is
/// `p` out of `total`: the log of the inverse probability.
pub open spec fn spec_bit_cost(p: int, total: int) -> int {
    spec_log2q8((total * 256) / p) - 2048
}

/// What `estimate_cost` returns: the cost implied by the current table of
/// the category, untouched by the call.
pub open spec fn spec_estimate(v: CoderView, cat: int, val: bool) -> int {
    let t = v.ctx[cat];
    spec_bit_cost(if val { t.c1 as int } else { t.c0 as int }, t.c0 + t.c1)
}

/// Estimated rate of a symbol sequence against one fixed table state: the
/// sum of the per-symbol estimates. Estimation never adapts the tables.
pub open spec fn spec_rate(v: CoderView, syms: Seq<(usize, bool)>) -> int
    decreases syms.len(),
{
    if syms.len() == 0 {
        0
    } else {
        spec_estimate(v, syms[0].0 as int, syms[0].1) + spec_rate(v, syms.drop_first())
    }
}

/// What a checkpoint captures: the whole model.
pub open spec fn spec_checkpoint(v: CoderView) -> CoderView {
    v
}

/// What restoring does to the current model: it is replaced by the
/// snapshot, whatever happened in between.
pub open spec fn spec_restore(cur: CoderView, ck: CoderView) -> CoderView {
    ck
}

/// The trailing bytes emitted when a tile's coder is finished: four final
/// scalings flush the whole of `low`.
pub open spec fn spec_flush(low: int, k: nat) -> Seq<u8>
    decreases k,
{
    if k == 0 {
        Seq::empty()
    } else {
        seq![(low / 0x100_0000) as u8] + spec_flush((low % 0x100_0000) * 256, (k - 1) as nat)
    }
}

/// The final byte stream of a coder: everything buffered plus the flush.
pub open spec fn spec_finish(v: CoderView) -> Seq<u8> {
    v.bytes + spec_flush(v.low, 4)
}

/// Checkpoint idempotence: taking a checkpoint, committing any sequence
/// of symbol encodes, and restoring leaves the model — context tables,
/// interval and buffered output alike — exactly as it was before the
/// checkpoint.
pub proof fn lemma_checkpoint_idempotence(v: CoderView, ops: Seq<(usize, bool)>)
    ensures
        spec_restore(apply_encodes(v, ops), spec_checkpoint(v)) == v,
{
}

/// The results of a sequence of estimate queries against one state.
pub open spec fn estimate_results(v: CoderView, qs: Seq<(usize, bool)>) -> Seq<int> {
    qs.map(|i: int, q: (usize, bool)| spec_estimate(v, q.0 as int, q.1))
}

/// Estimation purity: within any sequence of `estimate_cost` calls the
/// state never moves, so two queries with identical arguments give
/// identical results, wherever they stand in the sequence.
pub proof fn lemma_estimation_purity(v: CoderView, qs: Seq<(usize, bool)>, i: int, j: int)
    requires
        0 <= i < qs.len(),
        0 <= j < qs.len(),
        qs[i] == qs[j],
    ensures
        estimate_results(v, qs)[i] == estimate_results(v, qs)[j],
{
}

// ---------------------------------------------------------------------
// Properties of the integer logarithm.
// ---------------------------------------------------------------------

/// `pow2(ilog2(n)) <= n < 2 * pow2(ilog2(n))` for positive `n`.
pub proof fn lemma_ilog2_bounds(n: int)
    requires
        n >= 1,
    ensures
        ilog2(n) >= 0,
        pow2(ilog2(n) as nat) <= n,
        n < 2 * pow2(ilog2(n) as nat),
    decreases n,
{
    if n < 2 {
        assert(pow2(0) == 1) by {
            lemma2_to64();
        }
    } else {
        lemma_ilog2_bounds(n / 2);
        let e = ilog2(n / 2);
        assert(pow2((e + 1) as nat) == 2 * pow2(e as nat)) by {
            lemma_pow2_adds(1, e as nat);
            lemma2_to64();
        }
        lemma_fundamental_div_mod(n, 2);
    }
}

/// The integer logarithm is monotone.
pub proof fn lemma_ilog2_monotone(a: int, b: int)
    requires
        1 <= a <= b,
    ensures
        ilog2(a) <= ilog2(b),
    decreases b,
{
    if a >= 2 {
        lemma_div_is_ordered(a, b, 2);
        lemma_ilog2_monotone(a / 2, b / 2);
    } else {
        lemma_ilog2_bounds(b);
    }
}

/// If `n < pow2(k)` then `ilog2(n) < k`.
pub proof fn lemma_ilog2_lt(n: int, k: nat)
    requires
        1 <= n,
        n < pow2(k),
    ensures
        ilog2(n) < k,
{
    lemma_ilog2_bounds(n);
    let e = ilog2(n) as nat;
    if e >= k {
        if e > k {
            lemma_pow2_strictly_increases(k, e);
        }
        assert(pow2(k) <= pow2(e));
        assert(false);
    }
}

/// If `pow2(k) <= n` then `k <= ilog2(n)`.
pub proof fn lemma_ilog2_ge(n: int, k: nat)
    requires
        pow2(k) <= n,
    ensures
        k <= ilog2(n),
{
    lemma_pow2_pos(k);
    lemma_ilog2_bounds(n);
    let e = ilog2(n) as nat;
    if e < k {
        lemma_pow2_strictly_increases(e, k);
        assert(2 * pow2(e) <= 2 * pow2((k - 1) as nat)) by {
            if e < k - 1 {
                lemma_pow2_strictly_increases(e, (k - 1) as nat);
            }
        }
        assert(pow2(k) == 2 * pow2((k - 1) as nat)) by {
            lemma_pow2_adds(1, (k - 1) as nat);
            lemma2_to64();
        }
        assert(false);
    }
}

/// The interpolated logarithm is monotone.
pub proof fn lemma_log2q8_monotone(a: int, b: int)
    requires
        1 <= a <= b,
    ensures
        spec_log2q8(a) <= spec_log2q8(b),
{
    lemma_ilog2_bounds(a);
    lemma_ilog2_bounds(b);
    lemma_ilog2_monotone(a, b);
    let ea = ilog2(a);
    let eb = ilog2(b);
    let pa = pow2(ea as nat) as int;
    let pb = pow2(eb as nat) as int;
    lemma_pow2_pos(ea as nat);
    lemma_pow2_pos(eb as nat);
    if ea == eb {
        lemma_mul_inequality(a - pa, b - pa, 256);
        lemma_div_is_ordered((a - pa) * 256, (b - pa) * 256, pa);
    } else {
        // value at `a` stays under the next whole bit; value at `b` is at
        // least `eb` whole bits.
        assert((a - pa) * 256 < pa * 256) by {
            lemma_mul_strict_inequality(a - pa, pa, 256);
        }
        assert(((a - pa) * 256) / pa < 256) by {
            lemma_multiply_divide_lt((a - pa) * 256, pa, 256);
        }
        assert(((b - pb) * 256) / pb >= 0) by {
            lemma_mul_inequality(0, b - pb, 256);
            lemma_div_pos_is_pos((b - pb) * 256, pb);
        }
        assert(ea * 256 + 256 <= eb * 256) by {
            lemma_mul_inequality(ea + 1, eb, 256);
        }
    }
}

/// Bounds of the fractional bit cost: it is never negative, and for any
/// table the engine can hold (`total <= 2 * CTX_COUNT_SAT`) never above
/// `MAX_SYMBOL_COST`.
pub proof fn lemma_bit_cost_bounds(p: int, total: int)
    requires
        1 <= p <= total,
        total <= 2 * CTX_COUNT_SAT,
    ensures
        0 <= spec_bit_cost(p, total) <= MAX_SYMBOL_COST,
{
    let q = (total * 256) / p;
    assert(q >= 256) by {
        lemma_mul_inequality(p, total, 256);
        assert(p * 256 <= total * 256);
        lemma_div_multiples_vanish(256, p);
        lemma_div_is_ordered(p * 256, total * 256, p);
    }
    assert(q <= 0x100_0000) by {
        assert(total * 256 <= 0x100_0000);
        lemma_div_is_ordered(total * 256, 0x100_0000, p);
        lemma_div_is_ordered_by_denominator(0x100_0000, 1, p);
    }
    lemma_ilog2_bounds(q);
    let e = ilog2(q);
    let pw = pow2(e as nat) as int;
    lemma_pow2_pos(e as nat);
    assert(e >= 8) by {
        assert(pow2(8) == 256) by {
            lemma2_to64();
        }
        lemma_ilog2_ge(q, 8);
    }
    assert(e <= 24) by {
        assert(pow2(25) == 0x200_0000) by {
            lemma2_to64();
        }
        lemma_ilog2_lt(q, 25);
    }
    assert(((q - pw) * 256) / pw >= 0) by {
        lemma_mul_inequality(0, q - pw, 256);
        lemma_div_pos_is_pos((q - pw) * 256, pw);
    }
    assert(((q - pw) * 256) / pw < 256) by {
        lemma_mul_strict_inequality(q - pw, pw, 256);
        lemma_multiply_divide_lt((q - pw) * 256, pw, 256);
    }
    assert(e * 256 <= 24 * 256) by {
        lemma_mul_inequality(e, 24, 256);
    }
    assert(e * 256 >= 8 * 256) by {
        lemma_mul_inequality(8, e, 256);
    }
}

/// The monotone-consistency invariant of estimation: under one table
/// state, the more probable symbol of a category never estimates dearer
/// than the less probable one.
pub proof fn lemma_estimate_monotone(v: CoderView, cat: int)
    requires
        wf_view(v),
        0 <= cat < v.ctx.len(),
    ensures
        v.ctx[cat].c0 >= v.ctx[cat].c1 ==> spec_estimate(v, cat, false) <= spec_estimate(
            v,
            cat,
            true,
        ),
        v.ctx[cat].c1 >= v.ctx[cat].c0 ==> spec_estimate(v, cat, true) <= spec_estimate(
            v,
            cat,
            false,
        ),
{
    let t = v.ctx[cat];
    let total = t.c0 + t.c1;
    if t.c0 >= t.c1 {
        lemma_bit_cost_antitone(t.c0 as int, t.c1 as int, total);
    }
    if t.c1 >= t.c0 {
        lemma_bit_cost_antitone(t.c1 as int, t.c0 as int, total);
    }
}

/// A higher count never estimates a higher cost: `p1 >= p2` gives
/// `spec_bit_cost(p1, total) <= spec_bit_cost(p2, total)`.
pub proof fn lemma_bit_cost_antitone(p1: int, p2: int, total: int)
    requires
        1 <= p2 <= p1 <= total,
    ensures
        p1 >= p2 ==> spec_bit_cost(p1, total) <= spec_bit_cost(p2, total),
{
    let q1 = (total * 256) / p1;
    let q2 = (total * 256) / p2;
    lemma_mul_inequality(1, total, 256);
    lemma_div_is_ordered_by_denominator(total * 256, p2, p1);
    assert(q1 >= 1) by {
        lemma_mul_inequality(p1, total, 256);
        lemma_div_multiples_vanish(256, p1);
        lemma_div_is_ordered(p1 * 256, total * 256, p1);
    }
    lemma_log2q8_monotone(q1, q2);
}

// ---------------------------------------------------------------------
// Composition lemmas for sequences of symbols.
// ---------------------------------------------------------------------

/// Appending one op to a committed sequence composes with one more encode.
pub proof fn lemma_apply_encodes_snoc(v: CoderView, ops: Seq<(usize, bool)>, op: (usize, bool))
    ensures
        apply_encodes(v, ops.push(op)) == spec_encode(apply_encodes(v, ops), op.0 as int, op.1),
    decreases ops.len(),
{
    reveal_with_fuel(apply_encodes, 3);
    if ops.len() == 0 {
        assert(ops.push(op)[0] == op);
        assert(ops.push(op).drop_first() =~= Seq::<(usize, bool)>::empty());
    } else {
        assert(ops.push(op)[0] == ops[0]);
        assert(ops.push(op).drop_first() =~= ops.drop_first().push(op));
        lemma_apply_encodes_snoc(spec_encode(v, ops[0].0 as int, ops[0].1), ops.drop_first(), op);
    }
}

/// The rate of a sequence with one more symbol adds that symbol's estimate.
pub proof fn lemma_rate_snoc(v: CoderView, syms: Seq<(usize, bool)>, s: (usize, bool))
    ensures
        spec_rate(v, syms.push(s)) == spec_rate(v, syms) + spec_estimate(v, s.0 as int, s.1),
    decreases syms.len(),
{
    reveal_with_fuel(spec_rate, 3);
    if syms.len() == 0 {
        assert(syms.push(s)[0] == s);
        assert(syms.push(s).drop_first() =~= Seq::<(usize, bool)>::empty());
    } else {
        assert(syms.push(s)[0] == syms[0]);
        assert(syms.push(s).drop_first() =~= syms.drop_first().push(s));
        lemma_rate_snoc(v, syms.drop_first(), s);
    }
}

/// Estimated rates are non-negative and bounded by the per-symbol cap.
pub proof fn lemma_rate_bounds(v: CoderView, syms: Seq<(usize, bool)>)
    requires
        wf_view(v),
        forall|i: int| 0 <= i < syms.len() ==> (#[trigger] syms[i]).0 < NUM_CTX,
    ensures
        0 <= spec_rate(v, syms) <= MAX_SYMBOL_COST * syms.len(),
    decreases syms.len(),
{
    if syms.len() > 0 {
        let t = v.ctx[syms[0].0 as int];
        lemma_bit_cost_bounds(if syms[0].1 { t.c1 as int } else { t.c0 as int }, t.c0 + t.c1);
        assert(forall|i: int|
            0 <= i < syms.drop_first().len() ==> (#[trigger] syms.drop_first()[i]).0 < NUM_CTX);
        lemma_rate_bounds(v, syms.drop_first());
    }
}

// ---------------------------------------------------------------------
// The executable coder.
// ---------------------------------------------------------------------

/// An adaptive binary range coder scoped to one tile: probability tables,
/// the coding interval, and the buffered output bytes.
pub struct Coder {
    low: u64,
    range: u32,
    bytes: Vec<u8>,
    ctx: Vec<CtxTable>,
}

/// An immutable snapshot of a coder, taken before a speculative trial;
/// restoring it discards every effect of the trial.
pub struct Checkpoint {
    low: u64,
    range: u32,
    bytes: Vec<u8>,
    ctx: Vec<CtxTable>,
}

impl View for Coder {
    type V = CoderView;

    closed spec fn view(&self) -> CoderView {
        CoderView { low: self.low as int, range: self.range as int, bytes: self.bytes@, ctx: self.ctx@ }
    }
}

impl View for Checkpoint {
    type V = CoderView;

    closed spec fn view(&self) -> CoderView {
        CoderView { low: self.low as int, range: self.range as int, bytes: self.bytes@, ctx: self.ctx@ }
    }
}

/// A verified element-wise copy of a vector of plain values.
fn copy_vec<T: Copy>(v: &Vec<T>) -> (r: Vec<T>)
    ensures
        r@ == v@,
{
    let mut r: Vec<T> = Vec::new();
    let mut i: usize = 0;
    while i < v.len()
        invariant
            i <= v.len(),
            r@ =~= v@.subrange(0, i as int),
        decreases v.len() - i,
    {
        r.push(v[i]);
        i = i + 1;
    }
    proof {
        assert(r@ =~= v@);
    }
    r
}

/// Adds one to the buffered byte string read as a big number: trailing
/// 0xFF bytes wrap to zero and the carry moves left. Exactness here is
/// what keeps every later output byte of the tile valid.
fn propagate_carry(bytes: &mut Vec<u8>)
    ensures
        final(bytes)@ == spec_carry(old(bytes)@),
{
    let ghost orig = bytes@;
    let mut i: usize = bytes.len();
    proof {
        assert(orig.subrange(0, orig.len() as int) =~= orig);
        assert(bytes@.subrange(orig.len() as int, orig.len() as int) =~= Seq::<u8>::empty());
        assert(spec_carry(orig) =~= spec_carry(orig.subrange(0, i as int)) + bytes@.subrange(
            i as int,
            orig.len() as int,
        ));
    }
    while i > 0
        invariant
            orig == old(bytes)@,
            i <= bytes@.len(),
            bytes@.len() == orig.len(),
            bytes@.subrange(0, i as int) =~= orig.subrange(0, i as int),
            spec_carry(orig) =~= spec_carry(orig.subrange(0, i as int)) + bytes@.subrange(
                i as int,
                orig.len() as int,
            ),
        decreases i,
    {
        let b = bytes[i - 1];
        let ghost pre = bytes@;
        proof {
            assert forall|j: int| 0 <= j < i implies pre[j] == orig[j] by {
                assert(pre.subrange(0, i as int)[j] == orig.subrange(0, i as int)[j]);
            }
            assert(b == orig[i - 1]);
        }
        if b == 255 {
            bytes.set(i - 1, 0);
            proof {
                let k = i - 1;
                assert(orig.subrange(0, k + 1).last() == 255);
                assert(orig.subrange(0, k + 1).drop_last() =~= orig.subrange(0, k as int));
                assert(spec_carry(orig.subrange(0, k + 1)) =~= spec_carry(
                    orig.subrange(0, k as int),
                ).push(0));
                assert(bytes@.subrange(k as int, orig.len() as int) =~= seq![0u8] + pre.subrange(
                    i as int,
                    orig.len() as int,
                ));
                assert(spec_carry(orig.subrange(0, k as int)) + bytes@.subrange(
                    k as int,
                    orig.len() as int,
                ) =~= (spec_carry(orig.subrange(0, k as int)).push(0u8)) + pre.subrange(
                    i as int,
                    orig.len() as int,
                ));
                assert(spec_carry(orig) =~= spec_carry(orig.subrange(0, k as int))
                    + bytes@.subrange(k as int, orig.len() as int));
                assert(bytes@.subrange(0, k as int) =~= orig.subrange(0, k as int));
            }
            i = i - 1;
        } else {
            bytes.set(i - 1, b + 1);
            proof {
                let k = i - 1;
                assert(orig.subrange(0, k + 1).last() == b);
                assert(spec_carry(orig.subrange(0, k + 1)) =~= orig.subrange(0, k + 1).update(
                    k as int,
                    (b + 1) as u8,
                ));
                assert(bytes@ =~= orig.subrange(0, k + 1).update(k as int, (b + 1) as u8)
                    + pre.subrange(i as int, orig.len() as int));
                assert(spec_carry(orig) =~= bytes@);
                assert(spec_carry(orig) == bytes@);
            }
            return ;
        }
    }
    proof {
        assert(orig.subrange(0, 0) =~= Seq::<u8>::empty());
        assert(bytes@.subrange(0, orig.len() as int) =~= bytes@);
        assert(spec_carry(Seq::<u8>::empty()) =~= Seq::<u8>::empty());
        assert(spec_carry(orig) =~= bytes@);
        assert(spec_carry(orig) == bytes@);
    }
}

impl Coder {
    /// Well-formedness of the coder: its model is well formed.
    pub open spec fn wf(&self) -> bool {
        wf_view(self@)
    }

    /// A fresh coder for one tile: full range, empty output, every
    /// category's counts reset to one.
    pub fn new() -> (r: Coder)
        ensures
            r@ == spec_init(),
            r.wf(),
    {
        let mut ctx: Vec<CtxTable> = Vec::new();
        let mut i: usize = 0;
        while i < NUM_CTX
            invariant
                i <= NUM_CTX,
                ctx@.len() == i,
                forall|j: int| 0 <= j < i ==> ctx@[j] == (CtxTable { c0: 1u32, c1: 1u32 }),
            decreases NUM_CTX - i,
        {
            ctx.push(CtxTable { c0: 1, c1: 1 });
            i = i + 1;
        }
        let r = Coder { low: 0, range: 0xFFFF_FFFF, bytes: Vec::new(), ctx };
        proof {
            assert(r@.ctx =~= spec_init().ctx);
            assert(r@.bytes =~= spec_init().bytes);
        }
        r
    }

    /// Read-only cost estimation: the fractional bit cost (1/256-bit
    /// units) that `val` would take under the category's current table.
    /// The tables and the output are untouched.
    pub fn estimate_cost(&self, cat: usize, val: bool) -> (r: u64)
        requires
            self.wf(),
            cat < NUM_CTX,
        ensures
            r == spec_estimate(self@, cat as int, val),
            r <= MAX_SYMBOL_COST,
    {
        let t = self.ctx[cat];
        let p: u32 = if val {
            t.c1
        } else {
            t.c0
        };
        bit_cost_q8(p, t.c0 + t.c1)
    }

    /// Committed encode of one symbol: narrows the interval under the
    /// category's current table, emits completed bytes (with exact carry
    /// propagation), and adapts the table toward the coded value.
    pub fn encode_symbol(&mut self, cat: usize, val: bool)
        requires
            old(self).wf(),
            cat < NUM_CTX,
        ensures
            final(self)@ == spec_encode(old(self)@, cat as int, val),
            final(self).wf(),
    {
        let ghost v0 = self@;
        let t = self.ctx[cat];
        let total: u32 = t.c0 + t.c1;
        let r: u32 = self.range / total;
        proof {
            lemma_fundamental_div_mod(self.range as int, total as int);
            assert(total as int * (r as int) <= self.range as int);
            assert(r as int * total as int <= self.range as int) by {
                lemma_mul_is_commutative(r as int, total as int);
            }
            assert(r >= 1) by {
                lemma_div_by_self(total as int);
                lemma_div_is_ordered(total as int, self.range as int, total as int);
            }
            assert(r as int * t.c0 as int <= r as int * total as int) by {
                lemma_mul_inequality(t.c0 as int, total as int, r as int);
                lemma_mul_is_commutative(t.c0 as int, r as int);
                lemma_mul_is_commutative(total as int, r as int);
            }
            assert(1 <= r as int * t.c0 as int) by {
                lemma_mul_inequality(1, t.c0 as int, r as int);
                lemma_mul_is_commutative(t.c0 as int, r as int);
                lemma_mul_basics(r as int);
            }
            assert(1 <= r as int * t.c1 as int) by {
                lemma_mul_inequality(1, t.c1 as int, r as int);
                lemma_mul_is_commutative(t.c1 as int, r as int);
                lemma_mul_basics(r as int);
            }
            assert(r as int * total as int == r as int * t.c0 as int + r as int * t.c1 as int)
                by {
                lemma_mul_is_distributive_add(r as int, t.c0 as int, t.c1 as int);
            }
        }
        let part: u32 = r * t.c0;
        if !val {
            self.range = part;
        } else {
            let lraw: u64 = self.low + part as u64;
            if lraw >= 0x1_0000_0000 {
                propagate_carry(&mut self.bytes);
                self.low = lraw - 0x1_0000_0000;
            } else {
                self.low = lraw;
            }
            self.range = self.range - part;
        }
        let newt = if !val {
            if t.c0 < CTX_COUNT_SAT {
                CtxTable { c0: t.c0 + 1, c1: t.c1 }
            } else {
                t
            }
        } else {
            if t.c1 < CTX_COUNT_SAT {
                CtxTable { c0: t.c0, c1: t.c1 + 1 }
            } else {
                t
            }
        };
        self.ctx.set(cat, newt);
        let ghost narrowed = spec_narrow(v0, cat as int, val);
        proof {
            assert(self.low as int == narrowed.0);
            assert(self.range as int == narrowed.1);
            assert(self.bytes@ == narrowed.2);
            assert(self.ctx@ == v0.ctx.update(cat as int, spec_adapt(v0.ctx[cat as int], val)));
        }
        while self.range < RANGE_BOTTOM
            invariant
                1 <= self.range as int,
                0 <= self.low < 0x1_0000_0000,
                spec_renorm(self.low as int, self.range as int, self.bytes@) == spec_renorm(
                    narrowed.0,
                    narrowed.1,
                    narrowed.2,
                ),
                self.ctx@ == v0.ctx.update(cat as int, spec_adapt(v0.ctx[cat as int], val)),
            decreases 0x1_0000_0000 - self.range as int,
        {
            let byte: u8 = (self.low / 0x100_0000) as u8;
            self.bytes.push(byte);
            self.low = (self.low % 0x100_0000) * 256;
            self.range = self.range * 256;
        }
        proof {
            assert(forall|j: int|
                0 <= j < self.ctx@.len() ==> 1 <= (#[trigger] self.ctx@[j]).c0 <= CTX_COUNT_SAT
                    && 1 <= self.ctx@[j].c1 <= CTX_COUNT_SAT) by {
                assert(forall|j: int|
                    0 <= j < v0.ctx.len() && j != cat ==> self.ctx@[j] == (#[trigger] v0.ctx[j]));
            }
        }
    }

    /// Takes a snapshot of the whole coder state: tables, interval, and
    /// the buffered output bytes.
    pub fn checkpoint(&self) -> (ck: Checkpoint)
        ensures
            ck@ == spec_checkpoint(self@),
    {
        Checkpoint {
            low: self.low,
            range: self.range,
            bytes: copy_vec(&self.bytes),
            ctx: copy_vec(&self.ctx),
        }
    }

    /// Restores a snapshot: both the output position and all context
    /// state return to the checkpoint, so subsequent behavior is
    /// indistinguishable from the trial never having happened.
    pub fn restore(&mut self, ck: &Checkpoint)
        ensures
            final(self)@ == spec_restore(old(self)@, ck@),
            ck.wf_ck() ==> final(self).wf(),
    {
        self.low = ck.low;
        self.range = ck.range;
        self.bytes = copy_vec(&ck.bytes);
        self.ctx = copy_vec(&ck.ctx);
    }

    /// Commits a whole symbol sequence in order.
    pub fn encode_symbols(&mut self, syms: &Vec<(usize, bool)>)
        requires
            old(self).wf(),
            forall|i: int| 0 <= i < syms@.len() ==> (#[trigger] syms@[i]).0 < NUM_CTX,
        ensures
            final(self)@ == apply_encodes(old(self)@, syms@),
            final(self).wf(),
    {
        let ghost v0 = self@;
        let mut i: usize = 0;
        while i < syms.len()
            invariant
                i <= syms@.len(),
                self.wf(),
                self@ == apply_encodes(v0, syms@.subrange(0, i as int)),
                forall|j: int| 0 <= j < syms@.len() ==> (#[trigger] syms@[j]).0 < NUM_CTX,
            decreases syms@.len() - i,
        {
            let (cat, val) = syms[i];
            self.encode_symbol(cat, val);
            proof {
                assert(syms@.subrange(0, i + 1) =~= syms@.subrange(0, i as int).push(syms@[i as int]));
                lemma_apply_encodes_snoc(v0, syms@.subrange(0, i as int), syms@[i as int]);
            }
            i = i + 1;
        }
        proof {
            assert(syms@.subrange(0, syms@.len() as int) =~= syms@);
        }
    }

    /// Estimated rate of a whole symbol sequence under the current
    /// tables: the sum of per-symbol estimates, read-only.
    pub fn rate_of(&self, syms: &Vec<(usize, bool)>) -> (r: u64)
        requires
            self.wf(),
            forall|i: int| 0 <= i < syms@.len() ==> (#[trigger] syms@[i]).0 < NUM_CTX,
            syms@.len() <= 0x10_0000,
        ensures
            r == spec_rate(self@, syms@),
            r <= MAX_SYMBOL_COST * syms@.len(),
    {
        let mut acc: u64 = 0;
        let mut i: usize = 0;
        while i < syms.len()
            invariant
                i <= syms@.len(),
                syms@.len() <= 0x10_0000,
                self.wf(),
                forall|j: int| 0 <= j < syms@.len() ==> (#[trigger] syms@[j]).0 < NUM_CTX,
                acc == spec_rate(self@, syms@.subrange(0, i as int)),
                acc <= MAX_SYMBOL_COST * i,
            decreases syms@.len() - i,
        {
            let (cat, val) = syms[i];
            let e = self.estimate_cost(cat, val);
            proof {
                assert(syms@.subrange(0, i + 1) =~= syms@.subrange(0, i as int).push(syms@[i as int]));
                lemma_rate_snoc(self@, syms@.subrange(0, i as int), syms@[i as int]);
                lemma_rate_bounds(self@, syms@.subrange(0, i as int));
                assert(MAX_SYMBOL_COST * i + MAX_SYMBOL_COST == MAX_SYMBOL_COST * (i + 1)) by {
                    lemma_mul_is_distributive_add(MAX_SYMBOL_COST as int, i as int, 1);
                }
            }
            acc = acc + e;
            i = i + 1;
        }
        proof {
            assert(syms@.subrange(0, syms@.len() as int) =~= syms@);
        }
        acc
    }

    /// Finishes the tile: flushes the remaining interval state and hands
    /// back the tile's complete byte stream.
    pub fn finish(self) -> (r: Vec<u8>)
        requires
            self.wf(),
        ensures
            r@ == spec_finish(self@),
    {
        let ghost v0 = self@;
        let mut bytes = self.bytes;
        let mut low: u64 = self.low;
        let mut k: usize = 0;
        while k < 4
            invariant
                k <= 4,
                0 <= low < 0x1_0000_0000,
                bytes@ + spec_flush(low as int, (4 - k) as nat) =~= v0.bytes + spec_flush(
                    v0.low,
                    4,
                ),
            decreases 4 - k,
        {
            let byte: u8 = (low / 0x100_0000) as u8;
            bytes.push(byte);
            low = (low % 0x100_0000) * 256;
            k = k + 1;
        }
        proof {
            assert(spec_flush(low as int, 0) =~= Seq::<u8>::empty());
            assert(bytes@ =~= spec_finish(v0));
        }
        bytes
    }

    /// The number of output bytes buffered so far.
    pub fn output_len(&self) -> (r: usize)
        ensures
            r == self@.bytes.len(),
    {
        self.bytes.len()
    }
}

impl Checkpoint {
    /// Well-formedness of the snapshot's model.
    pub open spec fn wf_ck(&self) -> bool {
        wf_view(self@)
    }
}

/// Fractional bit cost, in 1/256-bit units, of a count `p` out of
/// `total`: an integer base-two logarithm of the inverse probability with
/// a linear interpolation between whole bits.
fn bit_cost_q8(p: u32, total: u32) -> (r: u64)
    requires
        1 <= p <= total,
        total <= 2 * CTX_COUNT_SAT,
    ensures
        r == spec_bit_cost(p as int, total as int),
        r <= MAX_SYMBOL_COST,
{
    proof {
        lemma_bit_cost_bounds(p as int, total as int);
    }
    let q: u64 = (total as u64 * 256) / (p as u64);
    proof {
        assert(q >= 256) by {
            lemma_mul_inequality(p as int, total as int, 256);
            lemma_div_multiples_vanish(256, p as int);
            lemma_div_is_ordered(p as int * 256, total as int * 256, p as int);
        }
        assert(q <= 0x100_0000) by {
            lemma_div_is_ordered(total as int * 256, 0x100_0000, p as int);
            lemma_div_is_ordered_by_denominator(0x100_0000, 1, p as int);
        }
        lemma_ilog2_bounds(q as int);
    }
    let mut e: u64 = 0;
    let mut pw: u64 = 1;
    let mut m: u64 = q;
    proof {
        lemma2_to64();
        lemma_mul_basics(q as int);
    }
    while m >= 2
        invariant
            1 <= m <= q,
            256 <= q <= 0x100_0000,
            ilog2(q as int) == e + ilog2(m as int),
            pw == pow2(e as nat),
            pw * m <= q,
            pw <= q,
            e <= 24,
        decreases m,
    {
        proof {
            lemma2_to64();
            assert(pow2((e + 1) as nat) == 2 * pow2(e as nat)) by {
                lemma_pow2_adds(1, e as nat);
            }
            assert(pw as int * 2 <= pw as int * m as int) by {
                lemma_mul_inequality(2, m as int, pw as int);
                lemma_mul_is_commutative(2, pw as int);
                lemma_mul_is_commutative(m as int, pw as int);
            }
            assert((2 * pw as int) * (m as int / 2) <= pw as int * m as int) by {
                lemma_fundamental_div_mod(m as int, 2);
                assert(2 * (m as int / 2) <= m as int);
                lemma_mul_inequality(2 * (m as int / 2), m as int, pw as int);
                lemma_mul_is_commutative(2 * (m as int / 2), pw as int);
                lemma_mul_is_associative(pw as int, 2, m as int / 2);
                lemma_mul_is_commutative(pw as int, 2);
                lemma_mul_is_commutative(m as int, pw as int);
                lemma_mul_is_associative(2, pw as int, m as int / 2);
            }
            assert(e < 24) by {
                if e >= 24 {
                    assert(pow2(24) == 0x100_0000);
                    if e > 24 {
                        lemma_pow2_strictly_increases(24, e as nat);
                    }
                    assert(pw >= 0x100_0000);
                    assert(pw as int * 2 <= q as int);
                    assert(false);
                }
            }
        }
        m = m / 2;
        e = e + 1;
        pw = pw * 2;
    }
    proof {
        lemma_ilog2_bounds(q as int);
        assert(e == ilog2(q as int));
        assert(pw == pow2(ilog2(q as int) as nat));
        assert(q < 2 * pw);
        assert((q - pw) * 256 < pw * 256) by {
            lemma_mul_strict_inequality(q as int - pw as int, pw as int, 256);
        }
        assert((((q - pw) as int * 256) / (pw as int)) < 256) by {
            lemma_multiply_divide_lt((q - pw) as int * 256, pw as int, 256);
        }
        assert((((q - pw) as int * 256) / (pw as int)) >= 0) by {
            lemma_mul_inequality(0, q as int - pw as int, 256);
            lemma_div_pos_is_pos((q as int - pw as int) * 256, pw as int);
        }
        assert(e * 256 + 2048 <= 24 * 256 + 2048) by {
            lemma_mul_inequality(e as int, 24, 256);
        }
        assert(e >= 8) by {
            assert(pow2(8) == 256) by {
                lemma2_to64();
            }
            lemma_ilog2_ge(q as int, 8);
        }
        assert(e * 256 >= 8 * 256) by {
            lemma_mul_inequality(8, e as int, 256);
        }
    }
    let frac: u64 = ((q - pw) * 256) / pw;
    e * 256 + frac - 2048
}

} // verus!
