//! Transform configuration and residual quantization.
//!
//! The engine codes residuals in the sample domain (an identity transform),
//! so "transform plus quantization" reduces to a per-sample quantizer with a
//! uniform step: level = residual / step truncated toward zero, and
//! reconstruction adds level * step back onto the prediction, clamped to the
//! sample range.

use vstd::prelude::*;
use vstd::arithmetic::mul::*;

verus! {

/// The closed set of transform kernels a block may name.
#[derive(Clone, Copy, PartialEq, Eq, Structural, Debug)]
pub enum TxType {
    Identity,
    Dct,
}

impl TxType {
    /// A stable small index for each variant, in enumeration order.
    pub open spec fn spec_index(&self) -> usize {
        match self {
            TxType::Identity => 0,
            TxType::Dct => 1,
        }
    }

    /// The variant's index.
    pub fn index(&self) -> (r: usize)
        ensures
            r == self.spec_index(),
    {
        match self {
            TxType::Identity => 0,
            TxType::Dct => 1,
        }
    }
}

/// Quantized level of a residual: magnitude divided by the step, sign kept,
/// truncation toward zero.
pub open spec fn spec_quant(resid: int, qstep: int) -> int {
    if resid >= 0 {
        resid / qstep
    } else {
        -((-resid) / qstep)
    }
}

/// Reconstructed sample: prediction plus the dequantized level, clamped to
/// the sample range.
pub open spec fn spec_recon(pred: int, level: int, qstep: int) -> int {
    let v = pred + level * qstep;
    if v < 0 {
        0
    } else if v > 0xFFFF {
        0xFFFF
    } else {
        v
    }
}

/// Quantizes the residual between a source sample and its prediction.
pub fn quant_level(src: u16, pred: u16, qstep: u16) -> (lvl: i32)
    requires
        1 <= qstep,
    ensures
        lvl == spec_quant(src - pred, qstep as int),
        -0x1_0000 < lvl < 0x1_0000,
{
    if src >= pred {
        let d: u32 = (src - pred) as u32;
        let q: u32 = d / (qstep as u32);
        proof {
            vstd::arithmetic::div_mod::lemma_div_nonincreasing(d as int, qstep as int);
        }
        q as i32
    } else {
        let d: u32 = (pred - src) as u32;
        let q: u32 = d / (qstep as u32);
        proof {
            vstd::arithmetic::div_mod::lemma_div_nonincreasing(d as int, qstep as int);
        }
        -(q as i32)
    }
}

/// Rebuilds the sample a level reconstructs to.
pub fn reconstruct(pred: u16, level: i32, qstep: u16) -> (rec: u16)
    requires
        1 <= qstep,
        -0x1_0000 < level < 0x1_0000,
    ensures
        rec == spec_recon(pred as int, level as int, qstep as int),
{
    if level >= 0 {
        proof {
            if level > 0 {
                lemma_mul_strict_upper_bound(level as int, 0x1_0000, qstep as int, 0x1_0000);
            } else {
                lemma_mul_basics(qstep as int);
            }
        }
        let add: u64 = (level as u64) * (qstep as u64);
        let v: u64 = pred as u64 + add;
        if v > 0xFFFF {
            0xFFFF
        } else {
            v as u16
        }
    } else {
        let mag: u32 = (0 - level) as u32;
        proof {
            lemma_mul_strict_upper_bound(mag as int, 0x1_0000, qstep as int, 0x1_0000);
        }
        let sub: u64 = (mag as u64) * (qstep as u64);
        proof {
            assert(level as int * qstep as int == -(mag as int * qstep as int)) by {
                lemma_mul_is_commutative(level as int, qstep as int);
                lemma_mul_is_commutative(mag as int, qstep as int);
                lemma_mul_unary_negation(qstep as int, mag as int);
            }
        }
        if sub > pred as u64 {
            0
        } else {
            (pred as u64 - sub) as u16
        }
    }
}

} // verus!
