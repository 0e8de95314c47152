//! Deterministic fingerprints of coefficient blocks and frames.
//!
//! The digests come from std's `DefaultHasher`, which is built with fixed
//! keys (no per-process seeding), so a digest is a function of the write
//! stream alone. vstd models the hasher's state as the sequence of byte
//! strings written so far and names what `finish` returns of it; every
//! value is turned into its little-endian bytes by verified code here.

use vstd::prelude::*;
use vstd::std_specs::hash::DefaultHasherAdditionalSpecFns;
use std::collections::hash_map::DefaultHasher;
use std::hash::Hasher;
use crate::transform::TxType;

verus! {

/// The little-endian bytes of a 16-bit value.
pub open spec fn spec_le16(v: u16) -> Seq<u8> {
    seq![((v as int) % 256) as u8, ((v as int) / 256) as u8]
}

/// The little-endian bytes of a 32-bit value.
pub open spec fn spec_le32(v: u32) -> Seq<u8> {
    seq![
        ((v as int) % 256) as u8,
        (((v as int) / 0x100) % 256) as u8,
        (((v as int) / 0x1_0000) % 256) as u8,
        (((v as int) / 0x100_0000) % 256) as u8,
    ]
}

/// The little-endian bytes of a 64-bit value.
pub open spec fn spec_le64(v: u64) -> Seq<u8> {
    seq![
        ((v as int) % 256) as u8,
        (((v as int) / 0x100) % 256) as u8,
        (((v as int) / 0x1_0000) % 256) as u8,
        (((v as int) / 0x100_0000) % 256) as u8,
        (((v as int) / 0x1_0000_0000) % 256) as u8,
        (((v as int) / 0x100_0000_0000) % 256) as u8,
        (((v as int) / 0x1_0000_0000_0000) % 256) as u8,
        (((v as int) / 0x100_0000_0000_0000) % 256) as u8,
    ]
}

/// Feeds one 16-bit value into the hasher as its little-endian bytes.
fn write_u16_h(h: &mut DefaultHasher, v: u16)
    ensures
        final(h)@ == old(h)@.push(spec_le16(v)),
{
    let mut b: Vec<u8> = Vec::new();
    b.push((v % 256) as u8);
    b.push((v / 256) as u8);
    proof {
        assert(b@ =~= spec_le16(v));
    }
    h.write(b.as_slice());
}

/// Feeds one 32-bit value into the hasher as its little-endian bytes.
fn write_u32_h(h: &mut DefaultHasher, v: u32)
    ensures
        final(h)@ == old(h)@.push(spec_le32(v)),
{
    let mut b: Vec<u8> = Vec::new();
    b.push((v % 256) as u8);
    b.push((v / 0x100 % 256) as u8);
    b.push((v / 0x1_0000 % 256) as u8);
    b.push((v / 0x100_0000 % 256) as u8);
    proof {
        assert(b@ =~= spec_le32(v));
    }
    h.write(b.as_slice());
}

/// Feeds one 64-bit value into the hasher as its little-endian bytes.
fn write_u64_h(h: &mut DefaultHasher, v: u64)
    ensures
        final(h)@ == old(h)@.push(spec_le64(v)),
{
    let mut b: Vec<u8> = Vec::new();
    b.push((v % 256) as u8);
    b.push((v / 0x100 % 256) as u8);
    b.push((v / 0x1_0000 % 256) as u8);
    b.push((v / 0x100_0000 % 256) as u8);
    b.push((v / 0x1_0000_0000 % 256) as u8);
    b.push((v / 0x100_0000_0000 % 256) as u8);
    b.push((v / 0x1_0000_0000_0000 % 256) as u8);
    b.push((v / 0x100_0000_0000_0000 % 256) as u8);
    proof {
        assert(b@ =~= spec_le64(v));
    }
    h.write(b.as_slice());
}

/// The write stream of a coefficient block: every nonzero coefficient's
/// two's-complement bytes, in order; zero coefficients are left out.
pub open spec fn spec_coeff_writes(coeffs: Seq<i32>) -> Seq<Seq<u8>>
    decreases coeffs.len(),
{
    if coeffs.len() == 0 {
        Seq::empty()
    } else {
        spec_coeff_writes(coeffs.drop_last()) + (if coeffs.last() == 0 {
            Seq::empty()
        } else {
            seq![spec_le32(coeffs.last() as u32)]
        })
    }
}

/// The full write stream `hashcoeffs` feeds the hasher: the nonzero
/// coefficients, the end-of-block position less one (zero stays zero),
/// the transform type's index, and the block dimensions.
pub open spec fn spec_hash_writes(
    coeffs: Seq<i32>,
    eob: u16,
    tx_type: TxType,
    width: usize,
    height: usize,
) -> Seq<Seq<u8>> {
    spec_coeff_writes(coeffs) + seq![
        spec_le16(if eob == 0 { 0u16 } else { (eob - 1) as u16 }),
        spec_le64(tx_type.spec_index() as u64),
        spec_le64(width as u64),
        spec_le64(height as u64),
    ]
}

/// The digest folded to 32 bits: the high half mixed into the low half.
pub open spec fn spec_fold32(d: u64) -> u32 {
    (((d >> 32) ^ d) & 0xFFFF_FFFF) as u32
}

/// Fingerprint of one quantized coefficient block: the nonzero
/// coefficients, end-of-block position, transform type and dimensions,
/// digested and folded to 32 bits. Relies on `DefaultHasher`'s digest
/// being a function of the writes alone (fixed keys).
pub fn hashcoeffs(coeffs: &Vec<i32>, eob: u16, tx_type: TxType, width: usize, height: usize) -> (r:
    u32)
    ensures
        r == spec_fold32(
            DefaultHasher::spec_finish(spec_hash_writes(coeffs@, eob, tx_type, width, height)),
        ),
{
    let mut hasher = DefaultHasher::new();
    let mut i: usize = 0;
    proof {
        assert(coeffs@.subrange(0, 0) =~= Seq::<i32>::empty());
    }
    while i < coeffs.len()
        invariant
            i <= coeffs@.len(),
            hasher@ == spec_coeff_writes(coeffs@.subrange(0, i as int)),
        decreases coeffs@.len() - i,
    {
        let c = coeffs[i];
        if c != 0 {
            #[verifier::truncate]
            let cu: u32 = c as u32;
            write_u32_h(&mut hasher, cu);
        }
        proof {
            let pre = coeffs@.subrange(0, i as int);
            let cur = coeffs@.subrange(0, i + 1);
            assert(cur.drop_last() =~= pre);
            assert(cur.last() == coeffs@[i as int]);
            assert(hasher@ =~= spec_coeff_writes(cur));
        }
        i = i + 1;
    }
    proof {
        assert(coeffs@.subrange(0, coeffs@.len() as int) =~= coeffs@);
    }
    if eob == 0 {
        write_u16_h(&mut hasher, eob);
    } else {
        write_u16_h(&mut hasher, eob - 1);
    }
    write_u64_h(&mut hasher, tx_type.index() as u64);
    write_u64_h(&mut hasher, width as u64);
    write_u64_h(&mut hasher, height as u64);
    proof {
        assert(hasher@ =~= spec_hash_writes(coeffs@, eob, tx_type, width, height));
    }
    let d = hasher.finish();
    let folded: u64 = ((d >> 32) ^ d) & 0xFFFF_FFFF;
    proof {
        assert(((d >> 32) ^ d) & 0xFFFF_FFFF <= 0xFFFF_FFFF) by (bit_vector);
    }
    folded as u32
}

/// The write stream of one sample plane.
pub open spec fn spec_plane_writes(pl: Seq<u16>) -> Seq<Seq<u8>>
    decreases pl.len(),
{
    if pl.len() == 0 {
        Seq::empty()
    } else {
        spec_plane_writes(pl.drop_last()).push(spec_le16(pl.last()))
    }
}

/// The write stream of a whole frame: every plane's samples in order.
pub open spec fn spec_frame_writes(planes: Seq<Seq<u16>>) -> Seq<Seq<u8>>
    decreases planes.len(),
{
    if planes.len() == 0 {
        Seq::empty()
    } else {
        spec_frame_writes(planes.drop_last()) + spec_plane_writes(planes.last())
    }
}

/// A frame's sample planes held for fingerprinting.
pub struct HashFrame {
    planes: Vec<Vec<u16>>,
}

impl View for HashFrame {
    type V = Seq<Seq<u16>>;

    closed spec fn view(&self) -> Seq<Seq<u16>> {
        Seq::new(self.planes@.len(), |i: int| self.planes@[i]@)
    }
}

impl HashFrame {
    /// Wraps a frame's planes.
    pub fn new(planes: Vec<Vec<u16>>) -> (r: HashFrame)
        ensures
            r@.len() == planes@.len(),
            forall|i: int| 0 <= i < planes@.len() ==> r@[i] == (#[trigger] planes@[i])@,
    {
        HashFrame { planes }
    }

    /// Hands the planes back.
    pub fn into_planes(self) -> (r: Vec<Vec<u16>>)
        ensures
            r@.len() == self@.len(),
            forall|i: int| 0 <= i < r@.len() ==> (#[trigger] r@[i])@ == self@[i],
    {
        self.planes
    }

    /// Fingerprint of the frame: every plane's samples digested in order.
    /// Relies on `DefaultHasher`'s digest being a function of the writes
    /// alone (fixed keys).
    pub fn hash(&self) -> (r: u64)
        ensures
            r == DefaultHasher::spec_finish(spec_frame_writes(self@)),
    {
        let mut hasher = DefaultHasher::new();
        let mut i: usize = 0;
        proof {
            assert(self@.subrange(0, 0) =~= Seq::<Seq<u16>>::empty());
        }
        while i < self.planes.len()
            invariant
                i <= self.planes@.len(),
                self@.len() == self.planes@.len(),
                forall|j: int| 0 <= j < self@.len() ==> self@[j] == (#[trigger] self.planes@[j])@,
                hasher@ == spec_frame_writes(self@.subrange(0, i as int)),
            decreases self.planes@.len() - i,
        {
            let plane = &self.planes[i];
            let mut k: usize = 0;
            proof {
                assert(plane@.subrange(0, 0) =~= Seq::<u16>::empty());
                assert(spec_plane_writes(plane@.subrange(0, 0)) =~= Seq::<Seq<u8>>::empty());
                assert(hasher@ =~= spec_frame_writes(self@.subrange(0, i as int))
                    + spec_plane_writes(plane@.subrange(0, 0)));
            }
            while k < plane.len()
                invariant
                    k <= plane@.len(),
                    hasher@ == spec_frame_writes(self@.subrange(0, i as int)) + spec_plane_writes(
                        plane@.subrange(0, k as int),
                    ),
                decreases plane@.len() - k,
            {
                write_u16_h(&mut hasher, plane[k]);
                proof {
                    let pre = plane@.subrange(0, k as int);
                    let cur = plane@.subrange(0, k + 1);
                    assert(cur.drop_last() =~= pre);
                    assert(cur.last() == plane@[k as int]);
                    assert(hasher@ =~= spec_frame_writes(self@.subrange(0, i as int))
                        + spec_plane_writes(cur));
                }
                k = k + 1;
            }
            proof {
                let pre = self@.subrange(0, i as int);
                let cur = self@.subrange(0, i + 1);
                assert(cur.drop_last() =~= pre);
                assert(cur.last() == self@[i as int]);
                assert(plane@.subrange(0, plane@.len() as int) =~= plane@);
                assert(self@[i as int] == plane@);
                assert(hasher@ =~= spec_frame_writes(cur));
            }
            i = i + 1;
        }
        proof {
            assert(self@.subrange(0, self@.len() as int) =~= self@);
        }
        hasher.finish()
    }
}

} // verus!
