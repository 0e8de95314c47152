//! Tile orchestration: search, commit, and frame assembly.
//!
//! One tile is encoded by resetting a fresh entropy coder, running the
//! partition search over the tile's region (estimation only — the coder is
//! not mutated), then committing the finalized tree's symbols in one fixed
//! depth-first order through real encodes; only that commit pass changes
//! context state, and each tile's state is discarded at its end. A frame
//! driver assembles the tiles' byte streams, each behind its size, in tile
//! index order.

use vstd::prelude::*;
use vstd::arithmetic::div_mod::*;
use vstd::arithmetic::power2::*;
use crate::ec::Coder;
use crate::ec::CTX_SPLIT;
use crate::ec::NUM_CTX;
use crate::ec::spec_init;
use crate::ec::spec_finish;
use crate::ec::apply_encodes;
use crate::frame::Plane;
use crate::frame::Region;
use crate::frame::MIN_BLOCK;
use crate::frame::region_in_plane;
use crate::partition::PartitionNode;
use crate::partition::NodeView;
use crate::partition::node_view;
use crate::partition::wf_node;
use crate::partition::spec_quadrant;
use crate::partition::spec_search;
use crate::partition::search;
use crate::rdo::LAMBDA_MAX;
use crate::rdo::spec_block_syms;
use crate::rdo::block_symbols;
use crate::rdo::lemma_block_syms_props;

verus! {

/// The one failure this engine can surface: a tile region whose size or
/// alignment the encoder does not support, rejected at entry before any
/// coder state exists.
#[derive(Clone, Copy, PartialEq, Eq, Structural, Debug)]
pub enum EncodeError {
    InvalidRegion,
}

/// A tile region the encoder accepts: a supported square lying in the
/// plane, aligned to its own size.
pub open spec fn valid_tile_region(p: Plane, r: Region) -> bool {
    &&& region_in_plane(p, r)
    &&& r.x % r.w == 0
    &&& r.y % r.w == 0
}

/// Checks a tile region against the plane.
fn check_tile_region(p: &Plane, r: Region) -> (ok: bool)
    ensures
        ok == valid_tile_region(*p, r),
{
    (r.w == 8 || r.w == 16 || r.w == 32 || r.w == 64) && r.h == r.w && r.x <= p.width && r.w
        <= p.width - r.x && r.y <= p.height && r.h <= p.height - r.y && r.x % r.w == 0 && r.y % r.w
        == 0
}

/// The committed symbol stream of a finalized tree, in the same fixed
/// depth-first order the search evaluates: a split symbol at every node
/// above the minimum size, then each leaf's block symbols.
pub open spec fn spec_node_syms(n: NodeView, r: Region) -> Seq<(usize, bool)>
    decreases n,
    via spec_node_syms_decreases
{
    match n {
        NodeView::Leaf(d) => {
            if r.w <= MIN_BLOCK {
                spec_block_syms(d)
            } else {
                seq![(CTX_SPLIT, false)] + spec_block_syms(d)
            }
        },
        NodeView::Split(cs) => {
            if cs.len() == 4 {
                seq![(CTX_SPLIT, true)] + spec_node_syms(cs[0], spec_quadrant(r, 0))
                    + spec_node_syms(cs[1], spec_quadrant(r, 1)) + spec_node_syms(
                    cs[2],
                    spec_quadrant(r, 2),
                ) + spec_node_syms(cs[3], spec_quadrant(r, 3))
            } else {
                Seq::empty()
            }
        },
    }
}

#[via_fn]
proof fn spec_node_syms_decreases(n: NodeView, r: Region) {
    match n {
        NodeView::Leaf(_) => {},
        NodeView::Split(cs) => {
            if cs.len() == 4 {
                assert(decreases_to!(n => cs));
                vstd::seq::axiom_seq_index_decreases(cs, 0);
                vstd::seq::axiom_seq_index_decreases(cs, 1);
                vstd::seq::axiom_seq_index_decreases(cs, 2);
                vstd::seq::axiom_seq_index_decreases(cs, 3);
            }
        },
    }
}

/// Every committed symbol names a valid category.
pub proof fn lemma_node_syms_cats(n: NodeView, r: Region)
    requires
        wf_node(n, r),
    ensures
        forall|i: int|
            0 <= i < spec_node_syms(n, r).len() ==> (#[trigger] spec_node_syms(n, r)[i]).0
                < NUM_CTX,
    decreases n,
{
    match n {
        NodeView::Leaf(d) => {
            lemma_block_syms_props(d);
        },
        NodeView::Split(cs) => {
            lemma_node_syms_cats(cs[0], spec_quadrant(r, 0));
            lemma_node_syms_cats(cs[1], spec_quadrant(r, 1));
            lemma_node_syms_cats(cs[2], spec_quadrant(r, 2));
            lemma_node_syms_cats(cs[3], spec_quadrant(r, 3));
            let s = spec_node_syms(n, r);
            let s0 = spec_node_syms(cs[0], spec_quadrant(r, 0));
            let s1 = spec_node_syms(cs[1], spec_quadrant(r, 1));
            let s2 = spec_node_syms(cs[2], spec_quadrant(r, 2));
            let s3 = spec_node_syms(cs[3], spec_quadrant(r, 3));
            assert forall|i: int| 0 <= i < s.len() implies (#[trigger] s[i]).0 < NUM_CTX by {
                if i >= 1 {
                    let j = i - 1;
                    if j < s0.len() {
                        assert(s[i] == s0[j]);
                    } else if j < s0.len() + s1.len() {
                        assert(s[i] == s1[j - s0.len()]);
                    } else if j < s0.len() + s1.len() + s2.len() {
                        assert(s[i] == s2[j - s0.len() - s1.len()]);
                    } else {
                        assert(s[i] == s3[j - s0.len() - s1.len() - s2.len()]);
                    }
                }
            }
        },
    }
}

/// Collects the committed symbol stream of a finalized tree, depth-first.
fn collect_symbols(n: &PartitionNode, r: Region, out: &mut Vec<(usize, bool)>)
    requires
        wf_node(node_view(*n), r),
        r.x + r.w <= 0xFFFF,
        r.y + r.h <= 0xFFFF,
    ensures
        final(out)@ == old(out)@ + spec_node_syms(node_view(*n), r),
    decreases *n,
{
    match n {
        PartitionNode::Leaf(d) => {
            if r.w > MIN_BLOCK {
                out.push((CTX_SPLIT, false));
            }
            let mut syms = block_symbols(d);
            out.append(&mut syms);
            proof {
                assert(out@ =~= old(out)@ + spec_node_syms(node_view(*n), r));
            }
        },
        PartitionNode::Split(a, b, c, d) => {
            out.push((CTX_SPLIT, true));
            let w2 = r.w / 2;
            let q0 = Region { x: r.x, y: r.y, w: w2, h: w2 };
            let q1 = Region { x: r.x + w2, y: r.y, w: w2, h: w2 };
            let q2 = Region { x: r.x, y: r.y + w2, w: w2, h: w2 };
            let q3 = Region { x: r.x + w2, y: r.y + w2, w: w2, h: w2 };
            proof {
                assert(q0 == spec_quadrant(r, 0));
                assert(q1 == spec_quadrant(r, 1));
                assert(q2 == spec_quadrant(r, 2));
                assert(q3 == spec_quadrant(r, 3));
            }
            collect_symbols(a, q0, out);
            collect_symbols(b, q1, out);
            collect_symbols(c, q2, out);
            collect_symbols(d, q3, out);
            proof {
                assert(out@ =~= old(out)@ + spec_node_syms(node_view(*n), r));
            }
        },
    }
}

/// The byte stream one tile encodes to: a fresh coder, the searched tree's
/// symbols committed in depth-first order, and the coder's flush.
pub open spec fn spec_encode_tile(p: Plane, r: Region, lambda: int, qstep: u16) -> Seq<u8> {
    spec_finish(
        apply_encodes(
            spec_init(),
            spec_node_syms(spec_search(p, r, lambda, qstep, spec_init()).0, r),
        ),
    )
}

/// Round-trip determinism: the tile encoder is a function of the plane,
/// the region, and the settings alone — encoding the same tile twice with
/// identical inputs gives byte-identical output.
pub proof fn lemma_round_trip_determinism(
    p1: Plane,
    r1: Region,
    lambda1: int,
    qstep1: u16,
    p2: Plane,
    r2: Region,
    lambda2: int,
    qstep2: u16,
)
    requires
        p1 == p2,
        r1 == r2,
        lambda1 == lambda2,
        qstep1 == qstep2,
    ensures
        spec_encode_tile(p1, r1, lambda1, qstep1) == spec_encode_tile(p2, r2, lambda2, qstep2),
{
}

/// Encodes one tile: validates the region, searches its partition tree,
/// commits the decisions, and returns the tile's bytes. Fails exactly on
/// an unsupported region, before any coder state is created.
pub fn encode_tile(p: &Plane, r: Region, lambda: u64, qstep: u16) -> (res: Result<
    Vec<u8>,
    EncodeError,
>)
    requires
        p.wf(),
        lambda <= LAMBDA_MAX,
        1 <= qstep,
    ensures
        match res {
            Ok(bytes) => valid_tile_region(*p, r) && bytes@ == spec_encode_tile(
                *p,
                r,
                lambda as int,
                qstep,
            ),
            Err(e) => !valid_tile_region(*p, r) && e == EncodeError::InvalidRegion,
        },
{
    if !check_tile_region(p, r) {
        return Err(EncodeError::InvalidRegion);
    }
    let mut coder = Coder::new();
    let (tree, _cost) = search(p, r, lambda, qstep, &coder);
    let mut syms: Vec<(usize, bool)> = Vec::new();
    collect_symbols(&tree, r, &mut syms);
    proof {
        lemma_node_syms_cats(node_view(tree), r);
        assert(syms@ =~= spec_node_syms(node_view(tree), r));
    }
    coder.encode_symbols(&syms);
    Ok(coder.finish())
}

/// The little-endian bytes of a 64-bit size.
pub open spec fn spec_u64_le(n: u64) -> Seq<u8> {
    Seq::new(8, |i: int| (((n as int) / (pow2((8 * i) as nat) as int)) % 256) as u8)
}

/// Appends the little-endian bytes of a size.
fn push_u64_le(out: &mut Vec<u8>, n: u64)
    ensures
        final(out)@ == old(out)@ + spec_u64_le(n),
{
    let mut div: u64 = n;
    let mut k: usize = 0;
    proof {
        lemma2_to64();
        lemma_div_basics(n as int);
        assert(out@ + spec_u64_le(n).subrange(0, 0) =~= out@);
    }
    while k < 8
        invariant
            k <= 8,
            div == (n as int) / (pow2((8 * k) as nat) as int),
            out@ == old(out)@ + spec_u64_le(n).subrange(0, k as int),
        decreases 8 - k,
    {
        let byte: u8 = (div % 256) as u8;
        out.push(byte);
        proof {
            assert(spec_u64_le(n)[k as int] == (cat_byte(n, k as int)));
            assert(spec_u64_le(n).subrange(0, k + 1) =~= spec_u64_le(n).subrange(0, k as int).push(
                spec_u64_le(n)[k as int],
            ));
            assert(out@ =~= old(out)@ + spec_u64_le(n).subrange(0, k + 1));
            lemma_pow2_adds((8 * k) as nat, 8);
            lemma2_to64();
            lemma_pow2_pos((8 * k) as nat);
            lemma_div_denominator(n as int, pow2((8 * k) as nat) as int, 256);
            lemma_div_nonincreasing(n as int, pow2((8 * k) as nat) as int);
            lemma_div_pos_is_pos(n as int, pow2((8 * k) as nat) as int);
        }
        div = div / 256;
        k = k + 1;
    }
    proof {
        assert(spec_u64_le(n).subrange(0, 8) =~= spec_u64_le(n));
    }
}

/// The byte of a size at one little-endian position.
pub open spec fn cat_byte(n: u64, i: int) -> u8 {
    (((n as int) / (pow2((8 * i) as nat) as int)) % 256) as u8
}

/// The frame's compressed payload: each tile's bytes behind its 8-byte
/// little-endian size, in tile index order.
pub open spec fn spec_frame_payload(p: Plane, tiles: Seq<Region>, lambda: int, qstep: u16) -> Seq<
    u8,
>
    decreases tiles.len(),
{
    if tiles.len() == 0 {
        Seq::empty()
    } else {
        let body = spec_encode_tile(p, tiles.last(), lambda, qstep);
        spec_frame_payload(p, tiles.drop_last(), lambda, qstep) + spec_u64_le(body.len() as u64)
            + body
    }
}

/// The frame driver: encodes every tile of the list in index order and
/// assembles their byte streams, each behind its size. Each tile gets a
/// fresh coder, so no tile observes another's context state; the output
/// order is the list order regardless of anything else. Fails exactly
/// when some tile region is unsupported.
pub fn encode_frame(p: &Plane, tiles: &Vec<Region>, lambda: u64, qstep: u16) -> (res: Result<
    Vec<u8>,
    EncodeError,
>)
    requires
        p.wf(),
        lambda <= LAMBDA_MAX,
        1 <= qstep,
    ensures
        match res {
            Ok(bytes) => (forall|i: int|
                0 <= i < tiles@.len() ==> valid_tile_region(*p, #[trigger] tiles@[i])) && bytes@
                == spec_frame_payload(*p, tiles@, lambda as int, qstep),
            Err(e) => (exists|i: int|
                0 <= i < tiles@.len() && !valid_tile_region(*p, #[trigger] tiles@[i])) && e
                == EncodeError::InvalidRegion,
        },
{
    let mut out: Vec<u8> = Vec::new();
    let mut i: usize = 0;
    proof {
        assert(out@ =~= spec_frame_payload(*p, tiles@.subrange(0, 0), lambda as int, qstep));
    }
    while i < tiles.len()
        invariant
            p.wf(),
            lambda <= LAMBDA_MAX,
            1 <= qstep,
            i <= tiles@.len(),
            forall|j: int| 0 <= j < i ==> valid_tile_region(*p, #[trigger] tiles@[j]),
            out@ == spec_frame_payload(*p, tiles@.subrange(0, i as int), lambda as int, qstep),
        decreases tiles@.len() - i,
    {
        let r = tiles[i];
        match encode_tile(p, r, lambda, qstep) {
            Ok(mut body) => {
                push_u64_le(&mut out, body.len() as u64);
                out.append(&mut body);
                proof {
                    let pre = tiles@.subrange(0, i as int);
                    let cur = tiles@.subrange(0, i + 1);
                    assert(cur.drop_last() =~= pre);
                    assert(cur.last() == tiles@[i as int]);
                    assert(out@ =~= spec_frame_payload(*p, cur, lambda as int, qstep));
                }
            },
            Err(e) => {
                return Err(e);
            },
        }
        i = i + 1;
    }
    proof {
        assert(tiles@.subrange(0, tiles@.len() as int) =~= tiles@);
    }
    Ok(out)
}

} // verus!
