//! Partition search: recursive split decisions over a region.
//!
//! A node either codes its region as one block (no split) or splits it into
//! four quadrants. The search scores no-split through mode decision and each
//! enabled split pattern as the sum of its children's costs plus the cost of
//! coding the split symbol, and keeps the minimum; on a tie no-split wins,
//! which both codes fewer symbols and is first in enumeration order. Every
//! alternative is always evaluated: pruning is only ever an optimization and
//! the exhaustive search is the reference behavior.
//!
//! Evaluation is strictly depth-first: a node is finalized only after all
//! its children are, and the returned tree is immutable from then on.

use vstd::prelude::*;
use vstd::arithmetic::div_mod::*;
use vstd::arithmetic::mul::*;
use crate::ec::Coder;
use crate::ec::CoderView;
use crate::ec::CTX_SPLIT;
use crate::ec::MAX_SYMBOL_COST;
use crate::ec::spec_estimate;
use crate::frame::Plane;
use crate::frame::Region;
use crate::frame::MIN_BLOCK;
use crate::frame::region_in_plane;
use crate::frame::size_valid;
use crate::rdo::BlockDecision;
use crate::rdo::DecisionView;
use crate::rdo::LAMBDA_MAX;
use crate::rdo::spec_decide;
use crate::rdo::spec_rd;
use crate::rdo::decide;
use crate::rdo::rd_value;
use crate::rdo::wf_dec;
use crate::rdo::lemma_region_area_bound;
use crate::rdo::lemma_decide_wf;

verus! {

/// Per-sample ceiling of any block's RD value.
pub const RD_PER_SAMPLE: u64 = 0x2_0000_0000_0000;

/// Slack that absorbs split-symbol costs in the tree-wide RD bound.
pub const RD_SPLIT_SLACK: u64 = 0x800_0000;

/// A finalized partition tree node: either one coded block or four
/// quadrant children, each covering its quarter of the region.
pub enum PartitionNode {
    Leaf(BlockDecision),
    Split(Box<PartitionNode>, Box<PartitionNode>, Box<PartitionNode>, Box<PartitionNode>),
}

/// The mathematical model of a partition tree.
pub ghost enum NodeView {
    Leaf(DecisionView),
    Split(Seq<NodeView>),
}

/// The model of a tree.
pub open spec fn node_view(n: PartitionNode) -> NodeView
    decreases n,
{
    match n {
        PartitionNode::Leaf(d) => NodeView::Leaf(d@),
        PartitionNode::Split(a, b, c, d) => NodeView::Split(
            seq![node_view(*a), node_view(*b), node_view(*c), node_view(*d)],
        ),
    }
}

/// The `i`-th quadrant of a region (left-to-right, top-to-bottom).
pub open spec fn spec_quadrant(r: Region, i: int) -> Region {
    let w2 = r.w as int / 2;
    Region {
        x: (r.x + (i % 2) * w2) as usize,
        y: (r.y + (i / 2) * w2) as usize,
        w: w2 as usize,
        h: w2 as usize,
    }
}

/// Structural well-formedness of a tree over its region: split nodes carry
/// exactly four children, one per quadrant, and regions are supported
/// square sizes all the way down.
pub open spec fn wf_node(n: NodeView, r: Region) -> bool
    decreases n,
{
    match n {
        NodeView::Leaf(d) => size_valid(r.w) && r.h == r.w && wf_dec(d),
        NodeView::Split(cs) => {
            &&& size_valid(r.w)
            &&& r.h == r.w
            &&& r.w >= 16
            &&& cs.len() == 4
            &&& wf_node(cs[0], spec_quadrant(r, 0))
            &&& wf_node(cs[1], spec_quadrant(r, 1))
            &&& wf_node(cs[2], spec_quadrant(r, 2))
            &&& wf_node(cs[3], spec_quadrant(r, 3))
        },
    }
}

/// Quadrants of a supported region are themselves supported regions of the
/// plane, of half the side.
pub proof fn lemma_quadrant_in_plane(p: Plane, r: Region, i: int)
    requires
        region_in_plane(p, r),
        r.w >= 16,
        0 <= i < 4,
    ensures
        region_in_plane(p, spec_quadrant(r, i)),
        spec_quadrant(r, i).w == r.w / 2,
        spec_quadrant(r, i).area() * 4 == r.area(),
{
    let w2 = r.w as int / 2;
    lemma_mod_division_less_than_divisor(i, 2);
    lemma_div_pos_is_pos(i, 2);
    lemma_multiply_divide_lt(i, 2, 2);
    assert(2 * w2 == r.w);
    assert(i % 2 <= 1);
    assert((i % 2) * w2 <= w2) by {
        lemma_mul_inequality(i % 2, 1, w2);
        lemma_mul_is_commutative(i % 2, w2);
        lemma_mul_basics(w2);
    }
    assert((i / 2) * w2 <= w2) by {
        lemma_mul_inequality(i / 2, 1, w2);
        lemma_mul_is_commutative(i / 2, w2);
        lemma_mul_basics(w2);
    }
    assert(0 <= (i % 2) * w2) by {
        lemma_mul_inequality(0, i % 2, w2);
        lemma_mul_is_commutative(i % 2, w2);
    }
    assert(0 <= (i / 2) * w2) by {
        lemma_mul_inequality(0, i / 2, w2);
        lemma_mul_is_commutative(i / 2, w2);
    }
    assert(w2 * w2 * 4 == r.w * r.h) by (nonlinear_arith)
        requires
            2 * w2 == r.w,
            r.h == r.w,
    ;
}

/// RD total of coding the region as one block: the mode decision's cost.
pub open spec fn spec_none_total(p: Plane, r: Region, lambda: int, qstep: u16, cv: CoderView) -> int {
    spec_rd(spec_decide(p, r, lambda, qstep, cv).1, lambda)
}

/// RD total of the quadrant split: the split symbol's rate cost plus the
/// four children's search totals.
pub open spec fn spec_split_total(p: Plane, r: Region, lambda: int, qstep: u16, cv: CoderView) -> int
    decreases r.w, 0int,
        when r.w > MIN_BLOCK
{
    lambda * spec_estimate(cv, CTX_SPLIT as int, true) + spec_search(
        p,
        spec_quadrant(r, 0),
        lambda,
        qstep,
        cv,
    ).1 + spec_search(p, spec_quadrant(r, 1), lambda, qstep, cv).1 + spec_search(
        p,
        spec_quadrant(r, 2),
        lambda,
        qstep,
        cv,
    ).1 + spec_search(p, spec_quadrant(r, 3), lambda, qstep, cv).1
}

/// The partition search: at the minimum block size the region is always
/// one block; above it, no-split and the split alternative are both scored
/// and the minimum kept, no-split winning ties.
pub open spec fn spec_search(p: Plane, r: Region, lambda: int, qstep: u16, cv: CoderView) -> (
    NodeView,
    int,
)
    decreases r.w, 1int,
{
    let dv = spec_decide(p, r, lambda, qstep, cv).0;
    let none_total = spec_none_total(p, r, lambda, qstep, cv);
    if r.w <= MIN_BLOCK {
        (NodeView::Leaf(dv), none_total)
    } else {
        let split_total = spec_split_total(p, r, lambda, qstep, cv);
        if none_total <= split_total {
            (NodeView::Leaf(dv), none_total)
        } else {
            (
                NodeView::Split(
                    seq![
                        spec_search(p, spec_quadrant(r, 0), lambda, qstep, cv).0,
                        spec_search(p, spec_quadrant(r, 1), lambda, qstep, cv).0,
                        spec_search(p, spec_quadrant(r, 2), lambda, qstep, cv).0,
                        spec_search(p, spec_quadrant(r, 3), lambda, qstep, cv).0,
                    ],
                ),
                split_total,
            )
        }
    }
}

/// Split-cost monotonicity: no-split is selected exactly when its RD total
/// is at most the split alternative's total (children plus split symbol);
/// a split is never selected when its total is strictly greater than
/// no-split's.
pub proof fn lemma_split_cost_monotonicity(
    p: Plane,
    r: Region,
    lambda: int,
    qstep: u16,
    cv: CoderView,
)
    requires
        r.w > MIN_BLOCK,
    ensures
        spec_search(p, r, lambda, qstep, cv).0 is Leaf ==> spec_none_total(p, r, lambda, qstep, cv)
            <= spec_split_total(p, r, lambda, qstep, cv),
        spec_search(p, r, lambda, qstep, cv).0 is Split ==> spec_split_total(
            p,
            r,
            lambda,
            qstep,
            cv,
        ) < spec_none_total(p, r, lambda, qstep, cv),
        spec_search(p, r, lambda, qstep, cv).1 <= spec_none_total(p, r, lambda, qstep, cv),
        spec_search(p, r, lambda, qstep, cv).1 <= spec_split_total(p, r, lambda, qstep, cv),
{
}

/// The RD value of one block stays under the per-sample ceiling.
proof fn lemma_block_rd_bound(d: int, rate: int, lambda: int, area: int)
    requires
        0 <= d <= area * 0x1_0000_0000,
        0 <= rate <= 4400 * (17 + 18 * area),
        0 <= lambda <= 0x10_0000,
        64 <= area <= 4096,
    ensures
        d * 0x1_0000 + lambda * rate <= area * RD_PER_SAMPLE,
{
    assert(d * 0x1_0000 + lambda * rate <= area * 0x2_0000_0000_0000) by (nonlinear_arith)
        requires
            0 <= d <= area * 0x1_0000_0000,
            0 <= rate <= 4400 * (17 + 18 * area),
            0 <= lambda <= 0x10_0000,
            64 <= area <= 4096,
    ;
}

/// Depth-first partition search over one region, scoring candidates with
/// read-only rate estimation only: the coder is never mutated, so losing
/// alternatives leave no trace.
pub fn search(p: &Plane, r: Region, lambda: u64, qstep: u16, coder: &Coder) -> (res: (
    PartitionNode,
    u64,
))
    requires
        p.wf(),
        coder.wf(),
        region_in_plane(*p, r),
        lambda <= LAMBDA_MAX,
        1 <= qstep,
    ensures
        node_view(res.0) == spec_search(*p, r, lambda as int, qstep, coder@).0,
        res.1 == spec_search(*p, r, lambda as int, qstep, coder@).1,
        res.1 <= r.area() * RD_PER_SAMPLE + (r.area() - 64) * RD_SPLIT_SLACK,
        wf_node(node_view(res.0), r),
    decreases r.w,
{
    proof {
        lemma_region_area_bound(*p, r);
    }
    let (dec, cost) = decide(p, r, lambda, qstep, coder);
    proof {
        assert(cost.distortion <= 0x1000_0000_0000) by {
            lemma_mul_inequality(r.area(), 4096, 0x1_0000_0000);
            lemma_mul_is_commutative(r.area(), 0x1_0000_0000);
        }
        assert(cost.rate <= 0x1_0000_0000) by {
            assert(17 + 18 * r.area() <= 73745);
            lemma_mul_inequality(17 + 18 * r.area(), 73745, MAX_SYMBOL_COST as int);
            lemma_mul_is_commutative(17 + 18 * r.area(), MAX_SYMBOL_COST as int);
        }
        assert(cost.rate <= 4400 * (17 + 18 * r.area()));
        lemma_block_rd_bound(
            cost.distortion as int,
            cost.rate as int,
            lambda as int,
            r.area(),
        );
        assert((r.area() - 64) * RD_SPLIT_SLACK >= 0) by {
            lemma_mul_inequality(0, r.area() - 64, RD_SPLIT_SLACK as int);
            lemma_mul_is_commutative(r.area() - 64, RD_SPLIT_SLACK as int);
        }
        assert(r.area() * RD_PER_SAMPLE <= 4096 * RD_PER_SAMPLE) by {
            lemma_mul_inequality(r.area(), 4096, RD_PER_SAMPLE as int);
            lemma_mul_is_commutative(r.area(), RD_PER_SAMPLE as int);
        }
        assert((r.area() - 64) * RD_SPLIT_SLACK <= 4096 * RD_SPLIT_SLACK) by {
            lemma_mul_inequality(r.area() - 64, 4096, RD_SPLIT_SLACK as int);
            lemma_mul_is_commutative(r.area() - 64, RD_SPLIT_SLACK as int);
        }
    }
    let none_total = rd_value(cost, lambda);
    if r.w <= MIN_BLOCK {
        (PartitionNode::Leaf(dec), none_total)
    } else {
        let split_bit = coder.estimate_cost(CTX_SPLIT, true);
        proof {
            assert(lambda as int * split_bit as int <= 0x10_0000 * 4400) by {
                lemma_mul_inequality(split_bit as int, 4400, lambda as int);
                lemma_mul_is_commutative(split_bit as int, lambda as int);
                lemma_mul_inequality(lambda as int, 0x10_0000, 4400);
            }
        }
        let split_sym_cost: u64 = lambda * split_bit;
        let w2 = r.w / 2;
        let q0 = Region { x: r.x, y: r.y, w: w2, h: w2 };
        let q1 = Region { x: r.x + w2, y: r.y, w: w2, h: w2 };
        let q2 = Region { x: r.x, y: r.y + w2, w: w2, h: w2 };
        let q3 = Region { x: r.x + w2, y: r.y + w2, w: w2, h: w2 };
        proof {
            lemma_quadrant_in_plane(*p, r, 0);
            lemma_quadrant_in_plane(*p, r, 1);
            lemma_quadrant_in_plane(*p, r, 2);
            lemma_quadrant_in_plane(*p, r, 3);
            assert(q0 == spec_quadrant(r, 0));
            assert(q1 == spec_quadrant(r, 1));
            assert(q2 == spec_quadrant(r, 2));
            assert(q3 == spec_quadrant(r, 3));
        }
        let (n0, c0) = search(p, q0, lambda, qstep, coder);
        let (n1, c1) = search(p, q1, lambda, qstep, coder);
        let (n2, c2) = search(p, q2, lambda, qstep, coder);
        let (n3, c3) = search(p, q3, lambda, qstep, coder);
        proof {
            assert(q0.area() == q1.area() && q1.area() == q2.area() && q2.area() == q3.area());
            assert(q0.area() * 4 == r.area());
            assert(64 <= q0.area() <= 1024) by (nonlinear_arith)
                requires
                    q0.area() == q0.w * q0.h,
                    8 <= q0.w <= 32,
                    q0.h == q0.w,
            ;
            assert(0x10_0000 * 4400 + 4 * (q0.area() * RD_PER_SAMPLE + (q0.area() - 64)
                * RD_SPLIT_SLACK) <= r.area() * RD_PER_SAMPLE + (r.area() - 64) * RD_SPLIT_SLACK)
                by (nonlinear_arith)
                requires
                    q0.area() * 4 == r.area(),
                    64 <= q0.area() <= 1024,
            ;
        }
        let split_total: u64 = split_sym_cost + c0 + c1 + c2 + c3;
        proof {
            assert(split_total as int == spec_split_total(*p, r, lambda as int, qstep, coder@));
        }
        if none_total <= split_total {
            (PartitionNode::Leaf(dec), none_total)
        } else {
            let node = PartitionNode::Split(Box::new(n0), Box::new(n1), Box::new(n2), Box::new(n3));
            proof {
                let ghost lam = lambda as int;
                let ghost cv = coder@;
                assert(node_view(node) == NodeView::Split(
                    seq![node_view(n0), node_view(n1), node_view(n2), node_view(n3)],
                ));
                assert(seq![node_view(n0), node_view(n1), node_view(n2), node_view(n3)] =~= seq![
                    spec_search(*p, spec_quadrant(r, 0), lam, qstep, cv).0,
                    spec_search(*p, spec_quadrant(r, 1), lam, qstep, cv).0,
                    spec_search(*p, spec_quadrant(r, 2), lam, qstep, cv).0,
                    spec_search(*p, spec_quadrant(r, 3), lam, qstep, cv).0,
                ]);
                assert(node_view(node) == spec_search(*p, r, lam, qstep, cv).0);
                assert(wf_node(node_view(node), r));
            }
            (node, split_total)
        }
    }
}


/// The searched tree is well formed over its region, whatever the coder
/// state and settings.
pub proof fn lemma_search_wf(p: Plane, r: Region, lambda: int, qstep: u16, cv: CoderView)
    requires
        region_in_plane(p, r),
        1 <= qstep,
    ensures
        wf_node(spec_search(p, r, lambda, qstep, cv).0, r),
    decreases r.w,
{
    lemma_decide_wf(p, r, lambda, qstep, cv);
    let node = spec_search(p, r, lambda, qstep, cv).0;
    if r.w > MIN_BLOCK {
        let none_total = spec_none_total(p, r, lambda, qstep, cv);
        let split_total = spec_split_total(p, r, lambda, qstep, cv);
        if !(none_total <= split_total) {
            lemma_quadrant_in_plane(p, r, 0);
            lemma_quadrant_in_plane(p, r, 1);
            lemma_quadrant_in_plane(p, r, 2);
            lemma_quadrant_in_plane(p, r, 3);
            lemma_search_wf(p, spec_quadrant(r, 0), lambda, qstep, cv);
            lemma_search_wf(p, spec_quadrant(r, 1), lambda, qstep, cv);
            lemma_search_wf(p, spec_quadrant(r, 2), lambda, qstep, cv);
            lemma_search_wf(p, spec_quadrant(r, 3), lambda, qstep, cv);
        }
    }
}

} // verus!