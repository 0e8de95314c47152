//! Tiling completeness of finalized partition trees.
//!
//! The leaf regions of a well-formed partition tree cover their tile region
//! exactly: their union is the whole region and no two leaves overlap.

use vstd::prelude::*;
use vstd::arithmetic::div_mod::lemma_fundamental_div_mod;
use crate::frame::Region;
use crate::partition::NodeView;
use crate::partition::spec_quadrant;
use crate::partition::wf_node;
use crate::partition::lemma_search_wf;
use crate::partition::spec_search;
use crate::frame::Plane;
use crate::frame::region_in_plane;
use crate::ec::CoderView;

verus! {

/// The set of sample positions a region covers.
pub open spec fn region_points(r: Region) -> Set<(int, int)> {
    Set::new(|pt: (int, int)| r.x <= pt.0 < r.x + r.w && r.y <= pt.1 < r.y + r.h)
}

/// Region coordinates stay inside the address space, so quadrant corners
/// can be formed without wrapping.
pub open spec fn region_small(r: Region) -> bool {
    r.x + r.w <= usize::MAX && r.y + r.h <= usize::MAX
}

/// The finalized leaf regions of a tree over a region, in depth-first
/// order.
pub open spec fn leaf_regions(n: NodeView, r: Region) -> Seq<Region>
    decreases n,
    via leaf_regions_decreases
{
    match n {
        NodeView::Leaf(_) => seq![r],
        NodeView::Split(cs) => {
            if cs.len() == 4 {
                leaf_regions(cs[0], spec_quadrant(r, 0)) + leaf_regions(cs[1], spec_quadrant(r, 1))
                    + leaf_regions(cs[2], spec_quadrant(r, 2)) + leaf_regions(
                    cs[3],
                    spec_quadrant(r, 3),
                )
            } else {
                Seq::empty()
            }
        },
    }
}

#[via_fn]
proof fn leaf_regions_decreases(n: NodeView, r: Region) {
    match n {
        NodeView::Leaf(_) => {},
        NodeView::Split(cs) => {
            if cs.len() == 4 {
                assert(decreases_to!(n => cs));
                vstd::seq::axiom_seq_index_decreases(cs, 0);
                vstd::seq::axiom_seq_index_decreases(cs, 1);
                vstd::seq::axiom_seq_index_decreases(cs, 2);
                vstd::seq::axiom_seq_index_decreases(cs, 3);
            }
        },
    }
}

/// The union of the points of a sequence of regions.
pub open spec fn union_all(rs: Seq<Region>) -> Set<(int, int)>
    decreases rs.len(),
{
    if rs.len() == 0 {
        Set::empty()
    } else {
        union_all(rs.drop_last()).union(region_points(rs.last()))
    }
}

/// No two regions of the sequence share a point.
pub open spec fn pairwise_disjoint(rs: Seq<Region>) -> bool {
    forall|i: int, j: int|
        0 <= i < j < rs.len() ==> region_points(#[trigger] rs[i]).disjoint(
            region_points(#[trigger] rs[j]),
        )
}

/// Unions distribute over concatenation.
proof fn lemma_union_all_concat(a: Seq<Region>, b: Seq<Region>)
    ensures
        union_all(a + b) =~= union_all(a).union(union_all(b)),
    decreases b.len(),
{
    if b.len() == 0 {
        assert(a + b =~= a);
    } else {
        assert((a + b).drop_last() =~= a + b.drop_last());
        assert((a + b).last() == b.last());
        lemma_union_all_concat(a, b.drop_last());
    }
}

/// Concatenating two leaf lists that live in disjoint cover sets keeps
/// them pairwise disjoint and inside the joint cover.
proof fn lemma_pairwise_concat(
    a: Seq<Region>,
    b: Seq<Region>,
    cover_a: Set<(int, int)>,
    cover_b: Set<(int, int)>,
)
    requires
        pairwise_disjoint(a),
        pairwise_disjoint(b),
        forall|i: int| 0 <= i < a.len() ==> region_points(#[trigger] a[i]).subset_of(cover_a),
        forall|i: int| 0 <= i < b.len() ==> region_points(#[trigger] b[i]).subset_of(cover_b),
        cover_a.disjoint(cover_b),
    ensures
        pairwise_disjoint(a + b),
        forall|i: int|
            0 <= i < (a + b).len() ==> region_points(#[trigger] (a + b)[i]).subset_of(
                cover_a.union(cover_b),
            ),
{
    let c = a + b;
    assert forall|i: int, j: int| 0 <= i < j < c.len() implies region_points(
        #[trigger] c[i],
    ).disjoint(region_points(#[trigger] c[j])) by {
        if j < a.len() {
            assert(c[i] == a[i] && c[j] == a[j]);
        } else if i >= a.len() {
            assert(c[i] == b[i - a.len()] && c[j] == b[j - a.len()]);
        } else {
            assert(c[i] == a[i] && c[j] == b[j - a.len()]);
            assert(region_points(c[i]).subset_of(cover_a));
            assert(region_points(c[j]).subset_of(cover_b));
        }
    }
    assert forall|i: int| 0 <= i < c.len() implies region_points(#[trigger] c[i]).subset_of(
        cover_a.union(cover_b),
    ) by {
        if i < a.len() {
            assert(c[i] == a[i]);
        } else {
            assert(c[i] == b[i - a.len()]);
        }
    }
}

/// The four quadrants of an even-sided square region partition its points:
/// together they cover it exactly and pairwise they share none.
proof fn lemma_quadrant_points(r: Region)
    requires
        r.h == r.w,
        r.w >= 2,
        r.w % 2 == 0,
        region_small(r),
    ensures
        region_points(spec_quadrant(r, 0)).union(region_points(spec_quadrant(r, 1))).union(
            region_points(spec_quadrant(r, 2)),
        ).union(region_points(spec_quadrant(r, 3))) =~= region_points(r),
        forall|i: int, j: int|
            0 <= i < j < 4 ==> region_points(#[trigger] spec_quadrant(r, i)).disjoint(
                region_points(#[trigger] spec_quadrant(r, j)),
            ),
        forall|i: int|
            0 <= i < 4 ==> region_points(#[trigger] spec_quadrant(r, i)).subset_of(
                region_points(r),
            ) && region_small(spec_quadrant(r, i)) && spec_quadrant(r, i).w == r.w / 2
                && spec_quadrant(r, i).h == r.w / 2,
{
    let w2 = r.w as int / 2;
    lemma_fundamental_div_mod(r.w as int, 2);
    assert(2 * w2 == r.w);
    assert forall|i: int| 0 <= i < 4 implies region_points(
        #[trigger] spec_quadrant(r, i),
    ).subset_of(region_points(r)) && region_small(spec_quadrant(r, i)) && spec_quadrant(r, i).w
        == r.w / 2 && spec_quadrant(r, i).h == r.w / 2 by {
        assert(i % 2 == 0 || i % 2 == 1);
        assert(i / 2 == 0 || i / 2 == 1);
    }
    assert forall|i: int, j: int| 0 <= i < j < 4 implies region_points(
        #[trigger] spec_quadrant(r, i),
    ).disjoint(region_points(#[trigger] spec_quadrant(r, j))) by {
        assert(i % 2 == 0 || i % 2 == 1);
        assert(i / 2 == 0 || i / 2 == 1);
        assert(j % 2 == 0 || j % 2 == 1);
        assert(j / 2 == 0 || j / 2 == 1);
        assert forall|pt: (int, int)|
            region_points(spec_quadrant(r, i)).contains(pt) implies !region_points(
            spec_quadrant(r, j),
        ).contains(pt) by {}
    }
    assert forall|i: int| 0 <= i < 4 implies ((#[trigger] spec_quadrant(r, i)).x == r.x + (i % 2)
        * w2 && spec_quadrant(r, i).y == r.y + (i / 2) * w2) by {
        assert(i % 2 == 0 || i % 2 == 1);
        assert(i / 2 == 0 || i / 2 == 1);
    }
    assert(region_points(spec_quadrant(r, 0)).union(region_points(spec_quadrant(r, 1))).union(
        region_points(spec_quadrant(r, 2)),
    ).union(region_points(spec_quadrant(r, 3))) =~= region_points(r));
}

/// Tiling completeness: the leaves of a well-formed finalized partition
/// tree tile their region exactly — their union of points equals the
/// region's points and no two leaf regions overlap.
pub proof fn lemma_tiling_completeness(n: NodeView, r: Region)
    requires
        wf_node(n, r),
        region_small(r),
    ensures
        union_all(leaf_regions(n, r)) == region_points(r),
        pairwise_disjoint(leaf_regions(n, r)),
        forall|i: int|
            0 <= i < leaf_regions(n, r).len() ==> region_points(
                #[trigger] leaf_regions(n, r)[i],
            ).subset_of(region_points(r)),
    decreases n,
{
    match n {
        NodeView::Leaf(_) => {
            let rs = leaf_regions(n, r);
            assert(rs =~= seq![r]);
            assert(rs.drop_last() =~= Seq::<Region>::empty());
            assert(union_all(Seq::<Region>::empty()) =~= Set::<(int, int)>::empty());
            assert(union_all(rs) =~= union_all(Seq::<Region>::empty()).union(region_points(r)));
            assert(union_all(rs) =~= region_points(r));
        },
        NodeView::Split(cs) => {
            let q0 = spec_quadrant(r, 0);
            let q1 = spec_quadrant(r, 1);
            let q2 = spec_quadrant(r, 2);
            let q3 = spec_quadrant(r, 3);
            lemma_quadrant_points(r);
            lemma_tiling_completeness(cs[0], q0);
            lemma_tiling_completeness(cs[1], q1);
            lemma_tiling_completeness(cs[2], q2);
            lemma_tiling_completeness(cs[3], q3);
            let l0 = leaf_regions(cs[0], q0);
            let l1 = leaf_regions(cs[1], q1);
            let l2 = leaf_regions(cs[2], q2);
            let l3 = leaf_regions(cs[3], q3);
            lemma_union_all_concat(l0, l1);
            lemma_union_all_concat(l0 + l1, l2);
            lemma_union_all_concat(l0 + l1 + l2, l3);
            assert(union_all(l0 + l1 + l2 + l3) =~= region_points(r));
            lemma_pairwise_concat(l0, l1, region_points(q0), region_points(q1));
            assert(region_points(q0).union(region_points(q1)).disjoint(region_points(q2))) by {
                assert forall|pt: (int, int)|
                    region_points(q0).union(region_points(q1)).contains(pt) implies !region_points(
                    q2,
                ).contains(pt) by {}
            }
            lemma_pairwise_concat(
                l0 + l1,
                l2,
                region_points(q0).union(region_points(q1)),
                region_points(q2),
            );
            assert(region_points(q0).union(region_points(q1)).union(region_points(q2)).disjoint(
                region_points(q3),
            )) by {
                assert forall|pt: (int, int)|
                    region_points(q0).union(region_points(q1)).union(region_points(q2)).contains(
                        pt,
                    ) implies !region_points(q3).contains(pt) by {}
            }
            lemma_pairwise_concat(
                l0 + l1 + l2,
                l3,
                region_points(q0).union(region_points(q1)).union(region_points(q2)),
                region_points(q3),
            );
            assert(leaf_regions(n, r) == l0 + l1 + l2 + l3);
            assert forall|i: int| 0 <= i < leaf_regions(n, r).len() implies region_points(
                #[trigger] leaf_regions(n, r)[i],
            ).subset_of(region_points(r)) by {
                assert(region_points((l0 + l1 + l2 + l3)[i]).subset_of(
                    region_points(q0).union(region_points(q1)).union(region_points(q2)).union(
                        region_points(q3),
                    ),
                ));
            }
        },
    }
}


/// Tiling completeness of the search itself: for any supported tile
/// region, the leaves of the tree the partition search finalizes tile the
/// region exactly, whatever the coder state and settings.
pub proof fn lemma_search_result_tiles_region(
    p: Plane,
    r: Region,
    lambda: int,
    qstep: u16,
    cv: CoderView,
)
    requires
        region_in_plane(p, r),
        1 <= qstep,
    ensures
        union_all(leaf_regions(spec_search(p, r, lambda, qstep, cv).0, r)) == region_points(r),
        pairwise_disjoint(leaf_regions(spec_search(p, r, lambda, qstep, cv).0, r)),
{
    lemma_search_wf(p, r, lambda, qstep, cv);
    lemma_tiling_completeness(spec_search(p, r, lambda, qstep, cv).0, r);
}

} // verus!