//! Rate-distortion cost model and mode decision.
//!
//! A candidate's cost is its distortion (sum of squared differences between
//! source and reconstruction) plus a lambda-weighted estimated bit rate; the
//! rate is the entropy coder's read-only estimate summed over every symbol
//! the candidate would code. Mode decision scores a skip (all-zero-residual)
//! variant and a coded variant of the base prediction and keeps the better
//! under the fixed tie-break order.

use vstd::prelude::*;
use vstd::arithmetic::div_mod::*;
use vstd::arithmetic::mul::*;
use vstd::arithmetic::power2::*;
use crate::ec::CoderView;
use crate::ec::Coder;
use crate::ec::spec_rate;
use crate::ec::CTX_SKIP;
use crate::ec::CTX_DC;
use crate::ec::CTX_SIG;
use crate::ec::CTX_SIGN;
use crate::ec::CTX_LEVEL;
use crate::ec::NUM_CTX;
use crate::ec::MAX_SYMBOL_COST;
use crate::frame::Plane;
use crate::frame::Region;
use crate::frame::region_in_plane;
use crate::transform::TxType;
use crate::transform::spec_quant;
use crate::transform::spec_recon;
use crate::transform::quant_level;
use crate::transform::reconstruct;

verus! {

/// Largest lambda the engine accepts; keeps every RD value inside 64 bits.
pub const LAMBDA_MAX: u64 = 0x10_0000;

/// A candidate's cost: non-negative distortion and estimated rate in
/// 1/256-bit units.
#[derive(Clone, Copy, PartialEq, Eq, Structural, Debug)]
pub struct CostEstimate {
    pub distortion: u64,
    pub rate: u64,
}

/// The scalar RD value `distortion + lambda * rate`, held in fixed point:
/// distortion is scaled by 2^16 because lambda (1/256 units) multiplies a
/// rate in 1/256-bit units.
pub open spec fn spec_rd(c: CostEstimate, lambda: int) -> int {
    c.distortion * 0x1_0000 + lambda * c.rate
}

/// Combines a cost estimate into its scalar RD value.
pub fn rd_value(c: CostEstimate, lambda: u64) -> (r: u64)
    requires
        c.distortion <= 0x1000_0000_0000,
        c.rate <= 0x1_0000_0000,
        lambda <= LAMBDA_MAX,
    ensures
        r == spec_rd(c, lambda as int),
{
    proof {
        lemma_mul_inequality(c.distortion as int, 0x1000_0000_0000, 0x1_0000);
        lemma_mul_inequality(c.rate as int, 0x1_0000_0000, lambda as int);
        lemma_mul_is_commutative(c.rate as int, lambda as int);
        lemma_mul_inequality(lambda as int, LAMBDA_MAX as int, 0x1_0000_0000);
    }
    c.distortion * 0x1_0000 + lambda * c.rate
}

/// The fixed preference order of candidates: strictly lower RD value wins;
/// on an RD tie the candidate coding fewer symbols wins; a full tie keeps
/// the incumbent, which is the earlier candidate in enumeration order.
pub open spec fn spec_prefer(rd_new: int, n_new: int, rd_old: int, n_old: int) -> bool {
    rd_new < rd_old || (rd_new == rd_old && n_new < n_old)
}

/// Decides whether a later candidate displaces the incumbent.
pub fn prefer(rd_new: u64, n_new: usize, rd_old: u64, n_old: usize) -> (r: bool)
    ensures
        r == spec_prefer(rd_new as int, n_new as int, rd_old as int, n_old as int),
{
    rd_new < rd_old || (rd_new == rd_old && n_new < n_old)
}

/// The closed set of prediction modes; the base mode predicts every sample
/// of the block from one value (the block average), and is always
/// evaluated, so a decision always exists.
#[derive(Clone, Copy, PartialEq, Eq, Structural, Debug)]
pub enum PredMode {
    DcPred,
}

/// A finalized block decision: prediction mode, transform configuration,
/// quantizer step, the predicted base value, the skip flag, and the
/// quantized coefficient levels (empty when skipped). Immutable once the
/// owning partition node commits it.
pub struct BlockDecision {
    pub mode: PredMode,
    pub tx_type: TxType,
    pub qstep: u16,
    pub dc: u16,
    pub skip: bool,
    pub levels: Vec<i32>,
}

/// The mathematical model of a block decision.
pub ghost struct DecisionView {
    pub mode: PredMode,
    pub tx_type: TxType,
    pub qstep: u16,
    pub dc: u16,
    pub skip: bool,
    pub levels: Seq<i32>,
}

impl View for BlockDecision {
    type V = DecisionView;

    open spec fn view(&self) -> DecisionView {
        DecisionView {
            mode: self.mode,
            tx_type: self.tx_type,
            qstep: self.qstep,
            dc: self.dc,
            skip: self.skip,
            levels: self.levels@,
        }
    }
}

/// Well-formedness of a decision: a positive quantizer step and levels
/// small enough that one magnitude field codes them.
pub open spec fn wf_dec(d: DecisionView) -> bool {
    &&& 1 <= d.qstep
    &&& forall|i: int| 0 <= i < d.levels.len() ==> -0x1_0000 < (#[trigger] d.levels[i]) < 0x1_0000
}

/// The magnitude of a level, as coded.
pub open spec fn spec_mag(lvl: i32) -> u16 {
    if lvl >= 0 {
        lvl as u16
    } else {
        (-(lvl as int)) as u16
    }
}

/// The sixteen binary symbols of one 16-bit value, least significant
/// first, all under one category.
pub open spec fn spec_u16_bits(v: u16, cat: usize) -> Seq<(usize, bool)> {
    Seq::new(16, |i: int| (cat, ((v as int) / (pow2(i as nat) as int)) % 2 == 1))
}

/// The symbols of one coefficient: a significance flag, then for a nonzero
/// level its sign and magnitude bits.
pub open spec fn spec_coeff_syms(lvl: i32) -> Seq<(usize, bool)> {
    if lvl == 0 {
        seq![(CTX_SIG, false)]
    } else {
        seq![(CTX_SIG, true), (CTX_SIGN, lvl < 0)] + spec_u16_bits(spec_mag(lvl), CTX_LEVEL)
    }
}

/// The symbols of a whole coefficient block, in scan order.
pub open spec fn spec_coeffs_syms(levels: Seq<i32>) -> Seq<(usize, bool)>
    decreases levels.len(),
{
    if levels.len() == 0 {
        Seq::empty()
    } else {
        spec_coeffs_syms(levels.drop_last()) + spec_coeff_syms(levels.last())
    }
}

/// Every symbol a block decision codes: the skip flag, the base value's
/// bits, and — unless skipped — the coefficient symbols.
pub open spec fn spec_block_syms(d: DecisionView) -> Seq<(usize, bool)> {
    let head = seq![(CTX_SKIP, d.skip)] + spec_u16_bits(d.dc, CTX_DC);
    if d.skip {
        head
    } else {
        head + spec_coeffs_syms(d.levels)
    }
}

/// Coefficient symbol streams are short and name valid categories.
pub proof fn lemma_coeffs_syms_props(levels: Seq<i32>)
    ensures
        spec_coeffs_syms(levels).len() <= 18 * levels.len(),
        forall|i: int|
            0 <= i < spec_coeffs_syms(levels).len() ==> (#[trigger] spec_coeffs_syms(levels)[i]).0
                < NUM_CTX,
    decreases levels.len(),
{
    if levels.len() > 0 {
        lemma_coeffs_syms_props(levels.drop_last());
    }
}

/// Block symbol streams are short and name valid categories.
pub proof fn lemma_block_syms_props(d: DecisionView)
    ensures
        17 <= spec_block_syms(d).len() <= 17 + 18 * d.levels.len(),
        forall|i: int|
            0 <= i < spec_block_syms(d).len() ==> (#[trigger] spec_block_syms(d)[i]).0 < NUM_CTX,
{
    lemma_coeffs_syms_props(d.levels);
}

/// Appends the sixteen bit symbols of a value.
fn push_u16_bits(syms: &mut Vec<(usize, bool)>, v: u16, cat: usize)
    ensures
        final(syms)@ == old(syms)@ + spec_u16_bits(v, cat),
{
    let mut div: u32 = v as u32;
    let mut k: usize = 0;
    proof {
        lemma2_to64();
        assert(syms@ + spec_u16_bits(v, cat).subrange(0, 0) =~= syms@);
    }
    while k < 16
        invariant
            k <= 16,
            div == (v as int) / (pow2(k as nat) as int),
            syms@ == old(syms)@ + spec_u16_bits(v, cat).subrange(0, k as int),
        decreases 16 - k,
    {
        let bit = div % 2 == 1;
        syms.push((cat, bit));
        proof {
            assert(spec_u16_bits(v, cat)[k as int] == (cat, bit));
            assert(spec_u16_bits(v, cat).subrange(0, k + 1) =~= spec_u16_bits(v, cat).subrange(
                0,
                k as int,
            ).push((cat, bit)));
            assert(syms@ =~= old(syms)@ + spec_u16_bits(v, cat).subrange(0, k + 1));
            lemma_pow2_adds(k as nat, 1);
            lemma2_to64();
            lemma_pow2_pos(k as nat);
            lemma_div_denominator(v as int, pow2(k as nat) as int, 2);
            lemma_div_nonincreasing(v as int, pow2(k as nat) as int);
            lemma_div_pos_is_pos(v as int, pow2(k as nat) as int);
        }
        div = div / 2;
        k = k + 1;
    }
    proof {
        assert(spec_u16_bits(v, cat).subrange(0, 16) =~= spec_u16_bits(v, cat));
    }
}

/// Builds the symbol stream a decision codes.
pub fn block_symbols(d: &BlockDecision) -> (v: Vec<(usize, bool)>)
    requires
        wf_dec(d@),
    ensures
        v@ == spec_block_syms(d@),
        v@.len() <= 17 + 18 * d@.levels.len(),
        forall|i: int| 0 <= i < v@.len() ==> (#[trigger] v@[i]).0 < NUM_CTX,
{
    let mut syms: Vec<(usize, bool)> = Vec::new();
    syms.push((CTX_SKIP, d.skip));
    push_u16_bits(&mut syms, d.dc, CTX_DC);
    let ghost head = seq![(CTX_SKIP, d@.skip)] + spec_u16_bits(d@.dc, CTX_DC);
    proof {
        assert(syms@ =~= head);
    }
    if !d.skip {
        let mut i: usize = 0;
        proof {
            assert(syms@ =~= head + spec_coeffs_syms(d@.levels.subrange(0, 0)));
        }
        while i < d.levels.len()
            invariant
                i <= d@.levels.len(),
                wf_dec(d@),
                syms@ == head + spec_coeffs_syms(d@.levels.subrange(0, i as int)),
            decreases d@.levels.len() - i,
        {
            let lvl = d.levels[i];
            syms.push((CTX_SIG, lvl != 0));
            if lvl != 0 {
                syms.push((CTX_SIGN, lvl < 0));
                let mag: u16 = if lvl >= 0 {
                    lvl as u16
                } else {
                    (0 - lvl) as u16
                };
                proof {
                    assert(mag == spec_mag(lvl));
                }
                push_u16_bits(&mut syms, mag, CTX_LEVEL);
            }
            proof {
                let pre = d@.levels.subrange(0, i as int);
                let cur = d@.levels.subrange(0, i + 1);
                assert(cur.drop_last() =~= pre);
                assert(cur.last() == d@.levels[i as int]);
                assert(spec_coeffs_syms(cur) =~= spec_coeffs_syms(pre) + spec_coeff_syms(
                    d@.levels[i as int],
                ));
                assert(syms@ =~= head + spec_coeffs_syms(cur));
            }
            i = i + 1;
        }
        proof {
            assert(d@.levels.subrange(0, d@.levels.len() as int) =~= d@.levels);
            assert(syms@ =~= spec_block_syms(d@));
        }
    } else {
        proof {
            assert(syms@ =~= spec_block_syms(d@));
        }
    }
    proof {
        lemma_block_syms_props(d@);
    }
    syms
}

// ---------------------------------------------------------------------
// Distortion: sums over a region's samples.
// ---------------------------------------------------------------------

/// The region's `k`-th sample in row-major scan order.
pub open spec fn region_sample(p: Plane, r: Region, k: int) -> u16 {
    p.spec_sample(r.x + k % (r.w as int), r.y + k / (r.w as int))
}

/// Sum of the first `n` samples of the region.
pub open spec fn spec_sum(p: Plane, r: Region, n: int) -> int
    decreases n,
{
    if n <= 0 {
        0
    } else {
        spec_sum(p, r, n - 1) + region_sample(p, r, n - 1)
    }
}

/// The base prediction value: the block's average sample.
pub open spec fn spec_dc(p: Plane, r: Region) -> u16 {
    (spec_sum(p, r, r.area()) / r.area()) as u16
}

/// A squared difference.
pub open spec fn spec_sq(a: int) -> int {
    a * a
}

/// Distortion of predicting the first `n` samples by the constant `dc`
/// with a zero residual.
pub open spec fn spec_sse_skip(p: Plane, r: Region, dc: u16, n: int) -> int
    decreases n,
{
    if n <= 0 {
        0
    } else {
        spec_sse_skip(p, r, dc, n - 1) + spec_sq(region_sample(p, r, n - 1) - dc)
    }
}

/// The quantized level of the `k`-th residual against the base value.
pub open spec fn spec_level_at(p: Plane, r: Region, dc: u16, qstep: u16, k: int) -> int {
    spec_quant(region_sample(p, r, k) - dc, qstep as int)
}

/// The `k`-th reconstructed sample of the coded variant.
pub open spec fn spec_recon_at(p: Plane, r: Region, dc: u16, qstep: u16, k: int) -> int {
    spec_recon(dc as int, spec_level_at(p, r, dc, qstep, k), qstep as int)
}

/// Distortion of the coded variant over the first `n` samples.
pub open spec fn spec_sse_coded(p: Plane, r: Region, dc: u16, qstep: u16, n: int) -> int
    decreases n,
{
    if n <= 0 {
        0
    } else {
        spec_sse_coded(p, r, dc, qstep, n - 1) + spec_sq(
            region_sample(p, r, n - 1) - spec_recon_at(p, r, dc, qstep, n - 1),
        )
    }
}

/// Sample sums are bounded by the sample range.
pub proof fn lemma_sum_bounds(p: Plane, r: Region, n: int)
    ensures
        0 <= spec_sum(p, r, n) <= (if n <= 0 { 0int } else { n * 0xFFFF }),
    decreases n,
{
    if n > 0 {
        lemma_sum_bounds(p, r, n - 1);
    }
}

/// Skip distortion is bounded by the squared sample range per sample.
pub proof fn lemma_sse_skip_bounds(p: Plane, r: Region, dc: u16, n: int)
    ensures
        0 <= spec_sse_skip(p, r, dc, n) <= (if n <= 0 { 0int } else { n * 0x1_0000_0000 }),
    decreases n,
{
    if n > 0 {
        lemma_sse_skip_bounds(p, r, dc, n - 1);
        let a = region_sample(p, r, n - 1) - dc;
        assert(0 <= spec_sq(a) < 0x1_0000_0000) by (nonlinear_arith)
            requires
                -0x1_0000 < a < 0x1_0000,
        ;
    }
}

/// Coded distortion is bounded by the squared sample range per sample.
pub proof fn lemma_sse_coded_bounds(p: Plane, r: Region, dc: u16, qstep: u16, n: int)
    ensures
        0 <= spec_sse_coded(p, r, dc, qstep, n) <= (if n <= 0 { 0int } else { n * 0x1_0000_0000 }),
    decreases n,
{
    if n > 0 {
        lemma_sse_coded_bounds(p, r, dc, qstep, n - 1);
        let a = region_sample(p, r, n - 1) - spec_recon_at(p, r, dc, qstep, n - 1);
        assert(0 <= spec_recon_at(p, r, dc, qstep, n - 1) <= 0xFFFF);
        assert(0 <= spec_sq(a) < 0x1_0000_0000) by (nonlinear_arith)
            requires
                -0x1_0000 < a < 0x1_0000,
        ;
    }
}

/// Supported regions are small: between 8x8 and 64x64 samples.
pub proof fn lemma_region_area_bound(p: Plane, r: Region)
    requires
        region_in_plane(p, r),
    ensures
        8 <= r.w <= 64,
        8 <= r.h <= 64,
        64 <= r.area() <= 4096,
{
    assert(64 <= r.w * r.h <= 4096) by (nonlinear_arith)
        requires
            8 <= r.w <= 64,
            8 <= r.h <= 64,
    ;
}

/// Positions in the scan order stay inside the plane.
proof fn lemma_scan_in_plane(p: Plane, r: Region, k: int)
    requires
        p.wf(),
        region_in_plane(p, r),
        0 <= k < r.area(),
    ensures
        0 <= k % (r.w as int) < r.w,
        0 <= k / (r.w as int) < r.h,
        r.x + k % (r.w as int) < p.width,
        r.y + k / (r.w as int) < p.height,
{
    lemma_mod_division_less_than_divisor(k, r.w as int);
    lemma_div_pos_is_pos(k, r.w as int);
    assert(k < r.w * r.h);
    lemma_multiply_divide_lt(k, r.w as int, r.h as int);
}


/// Computes the block's average sample, the base prediction value.
fn compute_dc(p: &Plane, r: Region) -> (dc: u16)
    requires
        p.wf(),
        region_in_plane(*p, r),
    ensures
        dc == spec_dc(*p, r),
{
    proof {
        lemma_region_area_bound(*p, r);
    }
    let area: usize = r.w * r.h;
    let mut sum: u32 = 0;
    let mut k: usize = 0;
    while k < area
        invariant
            p.wf(),
            region_in_plane(*p, r),
            area == r.area(),
            64 <= area <= 4096,
            k <= area,
            sum == spec_sum(*p, r, k as int),
            sum <= k * 0xFFFF,
        decreases area - k,
    {
        proof {
            lemma_scan_in_plane(*p, r, k as int);
        }
        let x = r.x + k % r.w;
        let y = r.y + k / r.w;
        let s = p.sample(x, y);
        proof {
            assert(s == region_sample(*p, r, k as int));
            lemma_mul_is_distributive_add_other_way(0xFFFF, k as int, 1);
            lemma_mul_basics(0xFFFF);
        }
        sum = sum + s as u32;
        k = k + 1;
    }
    proof {
        lemma_sum_bounds(*p, r, area as int);
        assert(area >= 1);
        lemma_multiply_divide_le(spec_sum(*p, r, area as int), area as int, 0xFFFF);
        lemma_div_pos_is_pos(spec_sum(*p, r, area as int), area as int);
    }
    let dc32: u32 = sum / (area as u32);
    dc32 as u16
}

/// Distortion of the skip variant: squared error of the constant
/// prediction over the whole region.
fn sse_skip(p: &Plane, r: Region, dc: u16) -> (d: u64)
    requires
        p.wf(),
        region_in_plane(*p, r),
    ensures
        d == spec_sse_skip(*p, r, dc, r.area()),
        d <= r.area() * 0x1_0000_0000,
{
    proof {
        lemma_region_area_bound(*p, r);
    }
    let area: usize = r.w * r.h;
    let mut acc: u64 = 0;
    let mut k: usize = 0;
    while k < area
        invariant
            p.wf(),
            region_in_plane(*p, r),
            area == r.area(),
            64 <= area <= 4096,
            k <= area,
            acc == spec_sse_skip(*p, r, dc, k as int),
            acc <= k * 0x1_0000_0000,
        decreases area - k,
    {
        proof {
            lemma_scan_in_plane(*p, r, k as int);
        }
        let s = p.sample(r.x + k % r.w, r.y + k / r.w);
        let a: u32 = if s >= dc {
            (s - dc) as u32
        } else {
            (dc - s) as u32
        };
        proof {
            let df = s as int - dc as int;
            assert(spec_sq(df) == (a as int) * (a as int)) by (nonlinear_arith)
                requires
                    (df >= 0 && a == df) || (df < 0 && a == -df),
            ;
            assert((a as int) * (a as int) < 0x1_0000_0000) by (nonlinear_arith)
                requires
                    0 <= a < 0x1_0000,
            ;
            lemma_mul_is_distributive_add_other_way(0x1_0000_0000, k as int, 1);
            lemma_mul_basics(0x1_0000_0000);
        }
        let sq: u64 = (a as u64) * (a as u64);
        acc = acc + sq;
        k = k + 1;
    }
    acc
}

/// Quantizes every residual of the coded variant and accumulates its
/// distortion against the reconstruction.
fn analyze_coded(p: &Plane, r: Region, dc: u16, qstep: u16) -> (res: (Vec<i32>, u64))
    requires
        p.wf(),
        region_in_plane(*p, r),
        1 <= qstep,
    ensures
        res.0@.len() == r.area(),
        forall|k: int|
            0 <= k < r.area() ==> (#[trigger] res.0@[k]) as int == spec_level_at(
                *p,
                r,
                dc,
                qstep,
                k,
            ),
        forall|k: int| 0 <= k < r.area() ==> -0x1_0000 < (#[trigger] res.0@[k]) < 0x1_0000,
        res.1 == spec_sse_coded(*p, r, dc, qstep, r.area()),
        res.1 <= r.area() * 0x1_0000_0000,
{
    proof {
        lemma_region_area_bound(*p, r);
    }
    let area: usize = r.w * r.h;
    let mut levels: Vec<i32> = Vec::new();
    let mut acc: u64 = 0;
    let mut k: usize = 0;
    while k < area
        invariant
            p.wf(),
            region_in_plane(*p, r),
            1 <= qstep,
            area == r.area(),
            64 <= area <= 4096,
            k <= area,
            levels@.len() == k,
            forall|j: int|
                0 <= j < k ==> (#[trigger] levels@[j]) as int == spec_level_at(*p, r, dc, qstep, j),
            forall|j: int| 0 <= j < k ==> -0x1_0000 < (#[trigger] levels@[j]) < 0x1_0000,
            acc == spec_sse_coded(*p, r, dc, qstep, k as int),
            acc <= k * 0x1_0000_0000,
        decreases area - k,
    {
        proof {
            lemma_scan_in_plane(*p, r, k as int);
        }
        let s = p.sample(r.x + k % r.w, r.y + k / r.w);
        let lvl = quant_level(s, dc, qstep);
        let rec = reconstruct(dc, lvl, qstep);
        let a: u32 = if s >= rec {
            (s - rec) as u32
        } else {
            (rec - s) as u32
        };
        proof {
            assert(lvl as int == spec_level_at(*p, r, dc, qstep, k as int));
            assert(rec as int == spec_recon_at(*p, r, dc, qstep, k as int));
            let df = s as int - rec as int;
            assert(spec_sq(df) == (a as int) * (a as int)) by (nonlinear_arith)
                requires
                    (df >= 0 && a == df) || (df < 0 && a == -df),
            ;
            assert((a as int) * (a as int) < 0x1_0000_0000) by (nonlinear_arith)
                requires
                    0 <= a < 0x1_0000,
            ;
            lemma_mul_is_distributive_add_other_way(0x1_0000_0000, k as int, 1);
            lemma_mul_basics(0x1_0000_0000);
        }
        let sq: u64 = (a as u64) * (a as u64);
        levels.push(lvl);
        acc = acc + sq;
        k = k + 1;
    }
    (levels, acc)
}

// ---------------------------------------------------------------------
// Mode decision.
// ---------------------------------------------------------------------

/// The skip candidate: the base prediction with an all-zero residual.
pub open spec fn spec_skip_view(p: Plane, r: Region, qstep: u16) -> DecisionView {
    DecisionView {
        mode: PredMode::DcPred,
        tx_type: TxType::Identity,
        qstep,
        dc: spec_dc(p, r),
        skip: true,
        levels: Seq::empty(),
    }
}

/// The coded candidate: the base prediction with quantized residuals.
pub open spec fn spec_coded_view(p: Plane, r: Region, qstep: u16) -> DecisionView {
    DecisionView {
        mode: PredMode::DcPred,
        tx_type: TxType::Identity,
        qstep,
        dc: spec_dc(p, r),
        skip: false,
        levels: Seq::new(r.area() as nat, |k: int| spec_level_at(p, r, spec_dc(p, r), qstep, k) as i32),
    }
}

/// Cost of the skip candidate under the coder's current tables.
pub open spec fn spec_cost_skip(p: Plane, r: Region, qstep: u16, cv: CoderView) -> CostEstimate {
    CostEstimate {
        distortion: spec_sse_skip(p, r, spec_dc(p, r), r.area()) as u64,
        rate: spec_rate(cv, spec_block_syms(spec_skip_view(p, r, qstep))) as u64,
    }
}

/// Cost of the coded candidate under the coder's current tables.
pub open spec fn spec_cost_coded(p: Plane, r: Region, qstep: u16, cv: CoderView) -> CostEstimate {
    CostEstimate {
        distortion: spec_sse_coded(p, r, spec_dc(p, r), qstep, r.area()) as u64,
        rate: spec_rate(cv, spec_block_syms(spec_coded_view(p, r, qstep))) as u64,
    }
}

/// Mode decision: both candidates are always evaluated (the skip variant is
/// the ever-valid fallback), and the coded variant displaces it only under
/// the fixed preference order — so on an RD tie the skip variant, which
/// codes fewer symbols, is kept.
pub open spec fn spec_decide(p: Plane, r: Region, lambda: int, qstep: u16, cv: CoderView) -> (
    DecisionView,
    CostEstimate,
) {
    let sk = spec_skip_view(p, r, qstep);
    let cd = spec_coded_view(p, r, qstep);
    let csk = spec_cost_skip(p, r, qstep, cv);
    let ccd = spec_cost_coded(p, r, qstep, cv);
    if spec_prefer(
        spec_rd(ccd, lambda),
        spec_block_syms(cd).len() as int,
        spec_rd(csk, lambda),
        spec_block_syms(sk).len() as int,
    ) {
        (cd, ccd)
    } else {
        (sk, csk)
    }
}

/// Decides how one fixed block is coded and what it costs. The chosen
/// candidate's RD value is minimal among the evaluated candidates under
/// the preference order of the cost model.
pub fn decide(p: &Plane, r: Region, lambda: u64, qstep: u16, coder: &Coder) -> (res: (
    BlockDecision,
    CostEstimate,
))
    requires
        p.wf(),
        coder.wf(),
        region_in_plane(*p, r),
        lambda <= LAMBDA_MAX,
        1 <= qstep,
    ensures
        res.0@ == spec_decide(*p, r, lambda as int, qstep, coder@).0,
        res.1 == spec_decide(*p, r, lambda as int, qstep, coder@).1,
        wf_dec(res.0@),
        res.1.distortion <= r.area() * 0x1_0000_0000,
        res.1.rate <= MAX_SYMBOL_COST * (17 + 18 * r.area()),
{
    proof {
        lemma_region_area_bound(*p, r);
    }
    let dc = compute_dc(p, r);
    let d_skip = sse_skip(p, r, dc);
    let (levels, d_coded) = analyze_coded(p, r, dc, qstep);
    let skip_dec = BlockDecision {
        mode: PredMode::DcPred,
        tx_type: TxType::Identity,
        qstep,
        dc,
        skip: true,
        levels: Vec::new(),
    };
    let coded_dec = BlockDecision {
        mode: PredMode::DcPred,
        tx_type: TxType::Identity,
        qstep,
        dc,
        skip: false,
        levels,
    };
    proof {
        assert(skip_dec@.levels =~= spec_skip_view(*p, r, qstep).levels);
        assert(skip_dec@ == spec_skip_view(*p, r, qstep));
        assert(coded_dec@.levels =~= spec_coded_view(*p, r, qstep).levels);
        assert(coded_dec@ == spec_coded_view(*p, r, qstep));
        assert(r.area() <= 4096);
        lemma_sse_skip_bounds(*p, r, dc, r.area());
        lemma_sse_coded_bounds(*p, r, dc, qstep, r.area());
    }
    let syms_skip = block_symbols(&skip_dec);
    let syms_coded = block_symbols(&coded_dec);
    let rate_skip = coder.rate_of(&syms_skip);
    let rate_coded = coder.rate_of(&syms_coded);
    proof {
        assert(MAX_SYMBOL_COST * syms_skip@.len() <= MAX_SYMBOL_COST * (17 + 18 * r.area())) by {
            lemma_mul_inequality(
                syms_skip@.len() as int,
                17 + 18 * r.area(),
                MAX_SYMBOL_COST as int,
            );
            lemma_mul_is_commutative(syms_skip@.len() as int, MAX_SYMBOL_COST as int);
            lemma_mul_is_commutative(17 + 18 * r.area(), MAX_SYMBOL_COST as int);
        }
        assert(MAX_SYMBOL_COST * syms_coded@.len() <= MAX_SYMBOL_COST * (17 + 18 * r.area())) by {
            lemma_mul_inequality(
                syms_coded@.len() as int,
                17 + 18 * r.area(),
                MAX_SYMBOL_COST as int,
            );
            lemma_mul_is_commutative(syms_coded@.len() as int, MAX_SYMBOL_COST as int);
            lemma_mul_is_commutative(17 + 18 * r.area(), MAX_SYMBOL_COST as int);
        }
    }
    let c_skip = CostEstimate { distortion: d_skip, rate: rate_skip };
    let c_coded = CostEstimate { distortion: d_coded, rate: rate_coded };
    let rd_skip = rd_value(c_skip, lambda);
    let rd_coded = rd_value(c_coded, lambda);
    if prefer(rd_coded, syms_coded.len(), rd_skip, syms_skip.len()) {
        (coded_dec, c_coded)
    } else {
        (skip_dec, c_skip)
    }
}


/// Whatever the coder state and lambda, the chosen decision is well
/// formed: its quantizer step is positive and every level fits the coded
/// magnitude field.
pub proof fn lemma_decide_wf(p: Plane, r: Region, lambda: int, qstep: u16, cv: CoderView)
    requires
        1 <= qstep,
    ensures
        wf_dec(spec_decide(p, r, lambda, qstep, cv).0),
{
    let cd = spec_coded_view(p, r, qstep);
    let dc = spec_dc(p, r);
    assert forall|i: int| 0 <= i < cd.levels.len() implies -0x1_0000 < (#[trigger] cd.levels[i])
        < 0x1_0000 by {
        let resid = region_sample(p, r, i) - dc;
        let lvl = spec_level_at(p, r, dc, qstep, i);
        if resid >= 0 {
            lemma_div_nonincreasing(resid, qstep as int);
            lemma_div_pos_is_pos(resid, qstep as int);
        } else {
            lemma_div_nonincreasing(-resid, qstep as int);
            lemma_div_pos_is_pos(-resid, qstep as int);
        }
        assert(-0x1_0000 < lvl < 0x1_0000);
        assert(cd.levels[i] == lvl as i32);
    }
}

} // verus!