use vstd::prelude::*;

verus! {

use crate::model::{
    axis_extent,
    axis_start,
    contains_id,
    seq_contains_id,
    lemma_share_le_sum,
    lemma_sum_shares_update,
    lemma_sums_children_build,
    lemma_sums_children_index,
    lemma_tiled_children_index,
    lemma_tiled_children_update,
    lemma_tiled_pair_update,
    lemma_two_shares_le_sum,
    lemma_views_of_all,
    lemma_wf_children_build,
    lemma_wf_children_index,
    node_view,
    off_axis_eq,
    sum_shares,
    sums_children,
    sums_ok,
    tiled,
    tiled_children,
    views_of,
    wf,
    wf_children,
    NodeView,
};
use crate::remap::{lemma_spec_remap_basic, lemma_spec_remap_props, spec_remap};
use crate::insert::lemma_with_share_same;
use crate::utils::{rect_bounded, Direction, InsertWay, Position, Size, SizeAndPos};
use crate::{DispatchCallback, Element, FlyjaError, Id};

/// How a drag attempt ended: the boundary moved, no boundary was there to
/// move, or moving it would have crushed a pane.
#[derive(Debug, Clone, Copy, PartialEq, Eq, Structural)]
pub enum DragOutcome {
    Done,
    NotFound,
    Illegal,
}

/// Whether the pane `target` touches the `direction` edge of this subtree:
/// yes, no but the subtree holds it, or the subtree does not hold it.
pub open spec fn spec_edge_check(nv: NodeView, direction: Direction, target: Id) -> Option<bool>
    decreases nv, 1int,
{
    match nv {
        NodeView::Empty(_) => None,
        NodeView::Window { id, .. } => if id == target {
            Some(true)
        } else {
            None
        },
        NodeView::Container { axis, children, .. } => {
            if direction.axis() == axis {
                if children.len() == 0 {
                    None
                } else {
                    let edge = if direction == Direction::Bottom || direction == Direction::Right {
                        children.len() - 1
                    } else {
                        0int
                    };
                    match spec_edge_check(children[edge], direction, target) {
                        Option::Some(v) => Some(v),
                        Option::None => if seq_contains_id(children, 0, target) {
                            Some(false)
                        } else {
                            None
                        },
                    }
                }
            } else {
                seq_edge_check(children, 0, direction, target)
            }
        },
    }
}

pub open spec fn seq_edge_check(s: Seq<NodeView>, i: int, direction: Direction, target: Id) -> Option<
    bool,
>
    decreases s, s.len() - i,
{
    if i < 0 || i >= s.len() {
        None
    } else if spec_edge_check(s[i], direction, target) is Some {
        spec_edge_check(s[i], direction, target)
    } else {
        seq_edge_check(s, i + 1, direction, target)
    }
}

/// The first child from `i` on whose subtree answers the edge question,
/// with the answer.
pub open spec fn seq_edge_find(s: Seq<NodeView>, i: int, direction: Direction, target: Id) -> Option<
    (int, bool),
>
    decreases s, s.len() - i,
{
    if i < 0 || i >= s.len() {
        None
    } else if spec_edge_check(s[i], direction, target) is Some {
        Some((i, spec_edge_check(s[i], direction, target)->0))
    } else {
        seq_edge_find(s, i + 1, direction, target)
    }
}

/// A found edge answer lies within the children.
pub proof fn lemma_seq_edge_find_range(s: Seq<NodeView>, i: int, direction: Direction, target: Id)
    requires
        0 <= i <= s.len(),
    ensures
        seq_edge_find(s, i, direction, target) matches Some(pr) ==> i <= pr.0 < s.len(),
    decreases s.len() - i,
{
    if i < s.len() {
        lemma_seq_edge_find_range(s, i + 1, direction, target);
    }
}

/// The rectangle of the earlier element of the dragged pair after the
/// boundary moves by `delta`: it keeps its start and grows at the far edge.
pub open spec fn dragged_first(sp: SizeAndPos, axis: InsertWay, delta: int) -> SizeAndPos {
    match axis {
        InsertWay::Vertical => SizeAndPos {
            size: Size { width: sp.size.width, height: (sp.size.height + delta) as i64 },
            position: sp.position,
        },
        InsertWay::Horizontal => SizeAndPos {
            size: Size { width: (sp.size.width + delta) as i64, height: sp.size.height },
            position: sp.position,
        },
    }
}

/// The rectangle of the later element: its start moves by `delta` and its
/// extent shrinks by it.
pub open spec fn dragged_second(sp: SizeAndPos, axis: InsertWay, delta: int) -> SizeAndPos {
    match axis {
        InsertWay::Vertical => SizeAndPos {
            size: Size { width: sp.size.width, height: (sp.size.height - delta) as i64 },
            position: Position { x: sp.position.x, y: (sp.position.y + delta) as i64 },
        },
        InsertWay::Horizontal => SizeAndPos {
            size: Size { width: (sp.size.width - delta) as i64, height: sp.size.height },
            position: Position { x: (sp.position.x + delta) as i64, y: sp.position.y },
        },
    }
}

/// A drag of the boundary between the pair is allowed only when both new
/// rectangles keep strictly positive width and height and stay within the
/// coordinate bound.
pub open spec fn drag_pair_legal(
    a_sp: SizeAndPos,
    b_sp: SizeAndPos,
    axis: InsertWay,
    delta: int,
) -> bool {
    let ra = dragged_first(a_sp, axis, delta);
    let rb = dragged_second(b_sp, axis, delta);
    &&& 0 < axis_extent(a_sp, axis) + delta
    &&& 0 < axis_extent(b_sp, axis) - delta
    &&& ra.size.width > 0
    &&& ra.size.height > 0
    &&& rb.size.width > 0
    &&& rb.size.height > 0
    &&& rect_bounded(ra)
    &&& rect_bounded(rb)
}


/// Every share from `i` on multiplied by `k`; nothing else changes.
pub open spec fn scale_shares(s: Seq<NodeView>, i: int, k: u64) -> Seq<NodeView>
    decreases s, s.len() - i,
{
    if i < 0 || i >= s.len() {
        Seq::empty()
    } else {
        seq![s[i].with_share((s[i].share() * k) as u64)] + scale_shares(s, i + 1, k)
    }
}

pub open spec fn shares_fit(s: Seq<NodeView>, i: int, k: u64) -> bool
    decreases s, s.len() - i,
{
    if i < 0 || i >= s.len() {
        true
    } else {
        s[i].share() * k <= u64::MAX && shares_fit(s, i + 1, k)
    }
}

/// Whether every share, the stored total, and the dragged pair's combined
/// share may be multiplied by `k` without leaving `u64`.
pub open spec fn can_scale(s: Seq<NodeView>, total: u64, k: u64, p: int) -> bool {
    &&& 1 <= k
    &&& total * k <= u64::MAX
    &&& (s[p].share() + s[p + 1].share()) * k <= u64::MAX
    &&& shares_fit(s, 0, k)
}

proof fn lemma_scale_shares_char(s: Seq<NodeView>, i: int, k: u64)
    requires
        0 <= i <= s.len(),
    ensures
        scale_shares(s, i, k).len() == s.len() - i,
        forall|j: int|
            i <= j < s.len() ==> scale_shares(s, i, k)[j - i] == s[j].with_share(
                (s[j].share() * k) as u64,
            ),
    decreases s.len() - i,
{
    if i < s.len() {
        lemma_scale_shares_char(s, i + 1, k);
    }
}

proof fn lemma_shares_fit_index(s: Seq<NodeView>, i: int, k: u64)
    requires
        0 <= i <= s.len(),
        shares_fit(s, i, k),
    ensures
        forall|j: int| i <= j < s.len() ==> (#[trigger] s[j]).share() * k <= u64::MAX,
    decreases s.len() - i,
{
    if i < s.len() {
        lemma_shares_fit_index(s, i + 1, k);
    }
}

/// Under `shares_fit`, scaling every share scales the sum exactly.
proof fn lemma_scale_shares_sum(s: Seq<NodeView>, i: int, k: u64)
    requires
        0 <= i <= s.len(),
        shares_fit(s, 0, k),
        forall|j: int| 0 <= j < s.len() ==> !(#[trigger] s[j] is Empty),
    ensures
        sum_shares(scale_shares(s, 0, k), i) == k * sum_shares(s, i),
    decreases s.len() - i,
{
    lemma_scale_shares_char(s, 0, k);
    lemma_shares_fit_index(s, 0, k);
    if i < s.len() {
        lemma_scale_shares_sum(s, i + 1, k);
        assert(scale_shares(s, 0, k)[i - 0] == s[i].with_share((s[i].share() * k) as u64));
        lemma_with_share_same(s[i], (s[i].share() * k) as u64);
        assert(k * (s[i].share() + sum_shares(s, i + 1)) == k * s[i].share() + k * sum_shares(
            s,
            i + 1,
        )) by (nonlinear_arith);
    } else {
        assert(k * sum_shares(s, i) == 0) by (nonlinear_arith)
            requires
                sum_shares(s, i) == 0,
        ;
    }
}

/// The children after the boundary between `p` and `p + 1` moves by
/// `delta`: both subtrees are laid out anew over their new rectangles, and
/// the pair's combined share is split between them in proportion to their
/// new extents, rounded down for the earlier one, so that the sum of the
/// two shares is exactly what it was.
pub open spec fn spec_drag_pair(
    s: Seq<NodeView>,
    p: int,
    axis: InsertWay,
    delta: int,
    total: u64,
) -> Option<(Seq<NodeView>, u64)> {
    let a = s[p];
    let b = s[p + 1];
    if !drag_pair_legal(a.size_pos(), b.size_pos(), axis, delta) {
        None
    } else {
        let ra = dragged_first(a.size_pos(), axis, delta);
        let rb = dragged_second(b.size_pos(), axis, delta);
        let ha = axis_extent(ra, axis);
        let htotal = ha + axis_extent(rb, axis);
        if can_scale(s, total, htotal as u64, p) {
            // exact renormalization: every share is scaled by the pair's
            // combined extent, and the pair splits in proportion to the new
            // extents with no remainder
            let s1 = scale_shares(s, 0, htotal as u64);
            let t1 = (total * htotal) as u64;
            let ssum = a.share() + b.share();
            let nsa = (ssum * ha) as u64;
            let nsb = (ssum * axis_extent(rb, axis)) as u64;
            let a2 = spec_remap(a, ra).with_share(nsa);
            let b2 = spec_remap(b, rb).with_share(nsb);
            Some((s1.update(p, a2).update(p + 1, b2), t1))
        } else {
            // the scaled shares would not fit: split the pair's combined
            // share by the floor rule, its sum kept exactly
            let ssum = if a.share() + b.share() <= u64::MAX {
                (a.share() + b.share()) as u64
            } else {
                u64::MAX
            };
            let nsa = ((ssum * ha) / htotal) as u64;
            let nsb = (ssum - nsa) as u64;
            let a2 = spec_remap(a, ra).with_share(nsa);
            let b2 = spec_remap(b, rb).with_share(nsb);
            Some((s.update(p, a2).update(p + 1, b2), total))
        }
    }
}


/// The children a legal pair drag produces; the children unchanged where
/// the drag is refused.
pub open spec fn drag_pair_children(
    s: Seq<NodeView>,
    p: int,
    axis: InsertWay,
    delta: int,
    total: u64,
) -> Seq<NodeView> {
    match spec_drag_pair(s, p, axis, delta, total) {
        Option::Some(pr) => pr.0,
        Option::None => s,
    }
}

/// The share total a legal pair drag produces; unchanged where refused.
pub open spec fn drag_pair_total(
    s: Seq<NodeView>,
    p: int,
    axis: InsertWay,
    delta: int,
    total: u64,
) -> u64 {
    match spec_drag_pair(s, p, axis, delta, total) {
        Option::Some(pr) => pr.1,
        Option::None => total,
    }
}

/// What drag does: walk to the container that runs along the axis of
/// `direction` and holds the boundary on the `direction` side of the pane
/// `target`, then move that boundary by `transfer` units toward `Bottom`
/// or `Right` (away from them for a negative `transfer`), relaying both
/// neighbors and renormalizing their shares. `NotFound` when the pane, or a
/// neighbor on that side, does not exist; `Illegal`, with nothing changed,
/// when a pane would be left without positive extent.
pub open spec fn spec_drag(nv: NodeView, transfer: i64, direction: Direction, target: Id) -> (
    NodeView,
    DragOutcome,
)
    decreases nv, 1int,
    via spec_drag_decreases
{
    match nv {
        NodeView::Empty(_) => (nv, DragOutcome::NotFound),
        NodeView::Window { .. } => (nv, DragOutcome::NotFound),
        NodeView::Container { axis, children, size_pos, share, total } => {
            if direction.axis() != axis {
                let (s2, out) = seq_drag_scan(children, 0, transfer, direction, target);
                if out == DragOutcome::Done {
                    (
                        NodeView::Container { axis, children: s2, size_pos, share, total },
                        DragOutcome::Done,
                    )
                } else {
                    (nv, out)
                }
            } else {
                match seq_edge_find(children, 0, direction, target) {
                    Option::None => (nv, DragOutcome::NotFound),
                    Option::Some((idx, at_edge)) => {
                        if at_edge {
                            let p = if direction == Direction::Top || direction
                                == Direction::Left {
                                idx - 1
                            } else {
                                idx
                            };
                            if p < 0 || p + 1 >= children.len() {
                                (nv, DragOutcome::NotFound)
                            } else {
                                match spec_drag_pair(children, p, axis, transfer as int, total) {
                                    Option::None => (nv, DragOutcome::Illegal),
                                    Option::Some(pr) => (
                                        NodeView::Container {
                                            axis,
                                            children: pr.0,
                                            size_pos,
                                            share,
                                            total: pr.1,
                                        },
                                        DragOutcome::Done,
                                    ),
                                }
                            }
                        } else {
                            let (c2, out) = spec_drag(children[idx], transfer, direction, target);
                            if out == DragOutcome::Done {
                                (
                                    NodeView::Container {
                                        axis,
                                        children: children.update(idx, c2),
                                        size_pos,
                                        share,
                                        total,
                                    },
                                    DragOutcome::Done,
                                )
                            } else {
                                (nv, out)
                            }
                        }
                    },
                }
            }
        },
    }
}

#[via_fn]
proof fn spec_drag_decreases(nv: NodeView, transfer: i64, direction: Direction, target: Id) {
    match nv {
        NodeView::Container { axis, children, .. } => {
            if direction.axis() == axis {
                lemma_seq_edge_find_range(children, 0, direction, target);
            }
        },
        _ => {},
    }
}

/// Try the drag inside each child from `i` on; the first subtree with the
/// boundary decides.
pub open spec fn seq_drag_scan(
    s: Seq<NodeView>,
    i: int,
    transfer: i64,
    direction: Direction,
    target: Id,
) -> (Seq<NodeView>, DragOutcome)
    decreases s, s.len() - i,
{
    if i < 0 || i >= s.len() {
        (s, DragOutcome::NotFound)
    } else {
        let (c2, out) = spec_drag(s[i], transfer, direction, target);
        if out == DragOutcome::Done {
            (s.update(i, c2), DragOutcome::Done)
        } else if out == DragOutcome::Illegal {
            (s, DragOutcome::Illegal)
        } else {
            seq_drag_scan(s, i + 1, transfer, direction, target)
        }
    }
}

/// A transfer whose magnitude reaches the axis extent of both elements at
/// the dragged boundary is refused: one of the two would be left without
/// positive extent.
pub proof fn lemma_drag_magnitude_illegal(
    a_sp: SizeAndPos,
    b_sp: SizeAndPos,
    axis: InsertWay,
    delta: int,
)
    requires
        delta >= axis_extent(b_sp, axis) || -delta >= axis_extent(a_sp, axis),
    ensures
        !drag_pair_legal(a_sp, b_sp, axis, delta),
{
}


/// What moving one boundary preserves: the number of children, their
/// well-formedness, the exact share sum, and the tiling.
#[verifier::rlimit(100)]
proof fn lemma_drag_pair_props(
    s: Seq<NodeView>,
    p: int,
    axis: InsertWay,
    delta: int,
    total: u64,
    sp: SizeAndPos,
    cur: int,
)
    requires
        0 <= p,
        p + 1 < s.len(),
        wf_children(s, 0),
        spec_drag_pair(s, p, axis, delta, total) is Some,
    ensures
        drag_pair_children(s, p, axis, delta, total).len() == s.len(),
        wf_children(drag_pair_children(s, p, axis, delta, total), 0),
        total as int == sum_shares(s, 0) && sums_children(s, 0) ==> drag_pair_total(
            s,
            p,
            axis,
            delta,
            total,
        ) as int == sum_shares(drag_pair_children(s, p, axis, delta, total), 0)
            && sums_children(drag_pair_children(s, p, axis, delta, total), 0),
        tiled_children(s, 0, sp, axis, cur) ==> tiled_children(
            drag_pair_children(s, p, axis, delta, total),
            0,
            sp,
            axis,
            cur,
        ),
{
    let a = s[p];
    let b = s[p + 1];
    let ra = dragged_first(a.size_pos(), axis, delta);
    let rb = dragged_second(b.size_pos(), axis, delta);
    let ha = axis_extent(ra, axis);
    let hb = axis_extent(rb, axis);
    let htotal = ha + hb;
    let k = htotal as u64;
    let scaled = can_scale(s, total, k, p);
    lemma_wf_children_index(s, 0);
    lemma_spec_remap_props(a, ra);
    lemma_spec_remap_props(b, rb);
    lemma_spec_remap_basic(a, ra);
    lemma_spec_remap_basic(b, rb);
    let s0 = if scaled {
        scale_shares(s, 0, k)
    } else {
        s
    };
    if scaled {
        lemma_scale_shares_char(s, 0, k);
        lemma_shares_fit_index(s, 0, k);
        assert forall|m: int| 0 <= m < s.len() implies (#[trigger] s0[m]).size_pos()
            == s[m].size_pos() && wf(s0[m]) == wf(s[m]) && tiled(s0[m]) == tiled(s[m]) && sums_ok(
            s0[m],
        ) == sums_ok(s[m]) && (s0[m] is Empty <==> s[m] is Empty) && s0[m].share() == s[m].share()
            * k by {
            assert(s0[m - 0] == s[m].with_share((s[m].share() * k) as u64));
            lemma_with_share_same(s[m], (s[m].share() * k) as u64);
        }
    }
    let nsa = drag_pair_children(s, p, axis, delta, total)[p].share();
    let nsb = drag_pair_children(s, p, axis, delta, total)[p + 1].share();
    let a2 = drag_pair_children(s, p, axis, delta, total)[p];
    let b2 = drag_pair_children(s, p, axis, delta, total)[p + 1];
    let s2 = drag_pair_children(s, p, axis, delta, total);
    assert(s2 == s0.update(p, a2).update(p + 1, b2));
    lemma_with_share_same(spec_remap(a, ra), nsa);
    lemma_with_share_same(spec_remap(b, rb), nsb);
    // well-formedness
    assert forall|m: int| 0 <= m < s2.len() implies wf(#[trigger] s2[m]) && !(s2[m] is Empty) by {
        if m != p && m != p + 1 {
            assert(s2[m] == s0[m]);
        }
    }
    lemma_wf_children_build(s2, 0);
    // share sums
    if total as int == sum_shares(s, 0) && sums_children(s, 0) {
        lemma_two_shares_le_sum(s, 0, p, p + 1);
        crate::model::lemma_sum_shares_nonneg(s, 0);
        if scaled {
            lemma_scale_shares_sum(s, 0, k);
            assert(sum_shares(s0, 0) == k * total);
            lemma_sum_shares_update(s0, 0, p, a2);
            lemma_sum_shares_update(s0.update(p, a2), 0, p + 1, b2);
            let ssum = a.share() + b.share();
            assert(nsa == ssum * ha && nsb == ssum * hb) by {
                assert(ssum * k <= u64::MAX);
                assert(0 <= ha <= htotal && 0 <= hb <= htotal);
                assert(ssum * ha <= ssum * htotal) by (nonlinear_arith)
                    requires
                        0 <= ssum && ha <= htotal,
                ;
                assert(ssum * hb <= ssum * htotal) by (nonlinear_arith)
                    requires
                        0 <= ssum && hb <= htotal,
                ;
                assert(0 <= ssum * ha && 0 <= ssum * hb) by (nonlinear_arith)
                    requires
                        0 <= ssum && 0 <= ha && 0 <= hb,
                ;
            }
            assert(s0[p].share() + s0[p + 1].share() == ssum * k) by (nonlinear_arith)
                requires
                    s0[p].share() == a.share() * k && s0[p + 1].share() == b.share() * k && ssum
                        == a.share() + b.share(),
            ;
            assert(nsa + nsb == ssum * k) by (nonlinear_arith)
                requires
                    nsa == ssum * ha && nsb == ssum * hb && htotal == ha + hb && k == htotal,
            ;
            assert(sum_shares(s2, 0) == k * total);
            assert(drag_pair_total(s, p, axis, delta, total) == (total * k) as u64);
            assert(total * k == k * total) by (nonlinear_arith);
        } else {
            lemma_sum_shares_update(s, 0, p, a2);
            lemma_sum_shares_update(s.update(p, a2), 0, p + 1, b2);
            let ssum = if a.share() + b.share() <= u64::MAX {
                (a.share() + b.share()) as u64
            } else {
                u64::MAX
            };
            assert(ssum == a.share() + b.share());
            assert(0 <= (ssum * ha) / htotal <= ssum) by {
                vstd::arithmetic::mul::lemma_mul_nonnegative(ssum as int, ha);
                vstd::arithmetic::div_mod::lemma_div_pos_is_pos(ssum as int * ha, htotal);
                vstd::arithmetic::mul::lemma_mul_inequality(ha, htotal, ssum as int);
                vstd::arithmetic::mul::lemma_mul_is_commutative(ha, ssum as int);
                vstd::arithmetic::mul::lemma_mul_is_commutative(htotal, ssum as int);
                vstd::arithmetic::div_mod::lemma_div_is_ordered(
                    ssum as int * ha,
                    ssum as int * htotal,
                    htotal,
                );
                vstd::arithmetic::div_mod::lemma_div_by_multiple(ssum as int, htotal);
            }
        }
        lemma_sums_children_index(s, 0);
        assert forall|m: int| 0 <= m < s2.len() implies sums_ok(#[trigger] s2[m]) by {
            if m != p && m != p + 1 {
                assert(s2[m] == s0[m]);
            }
        }
        lemma_sums_children_build(s2, 0);
    }
    // tiling
    if tiled_children(s, 0, sp, axis, cur) {
        if scaled {
            crate::model::lemma_tiled_children_pointwise(s, s0, 0, sp, axis, cur);
        }
        crate::model::lemma_tiled_adjacent(s, 0, p, sp, axis, cur);
        lemma_tiled_pair_update(s0, 0, p, sp, axis, cur, a2, b2);
    }
}

/// What a drag preserves: anything but `Done` changes nothing; a done drag
/// keeps the tree well-formed, keeps the node's own rectangle and share,
/// keeps the share bookkeeping exact, and keeps the container tiled.
pub proof fn lemma_spec_drag_props(nv: NodeView, transfer: i64, direction: Direction, target: Id)
    requires
        wf(nv),
    ensures
        spec_drag(nv, transfer, direction, target).1 != DragOutcome::Done ==> spec_drag(
            nv,
            transfer,
            direction,
            target,
        ).0 == nv,
        wf(spec_drag(nv, transfer, direction, target).0),
        spec_drag(nv, transfer, direction, target).0.size_pos() == nv.size_pos(),
        spec_drag(nv, transfer, direction, target).0.share() == nv.share(),
        !(spec_drag(nv, transfer, direction, target).0 is Empty) || nv is Empty,
        sums_ok(nv) ==> sums_ok(spec_drag(nv, transfer, direction, target).0),
        tiled(nv) ==> tiled(spec_drag(nv, transfer, direction, target).0),
    decreases nv, 1int,
{
    match nv {
        NodeView::Empty(_) => {},
        NodeView::Window { .. } => {},
        NodeView::Container { axis, children, size_pos, share, total } => {
            let start = axis_start(size_pos, axis);
            if direction.axis() != axis {
                lemma_seq_drag_scan_props(
                    children,
                    0,
                    transfer,
                    direction,
                    target,
                    total,
                    size_pos,
                    start,
                    axis,
                );
            } else {
                lemma_seq_edge_find_range(children, 0, direction, target);
                match seq_edge_find(children, 0, direction, target) {
                    Option::None => {},
                    Option::Some((idx, at_edge)) => {
                        if at_edge {
                            let p = if direction == Direction::Top || direction
                                == Direction::Left {
                                idx - 1
                            } else {
                                idx
                            };
                            if 0 <= p && p + 1 < children.len() {
                                if spec_drag_pair(children, p, axis, transfer as int, total)
                                    is Some {
                                    lemma_drag_pair_props(
                                        children,
                                        p,
                                        axis,
                                        transfer as int,
                                        total,
                                        size_pos,
                                        start,
                                    );
                                }
                            }
                        } else {
                            lemma_wf_children_index(children, 0);
                            lemma_spec_drag_props(children[idx], transfer, direction, target);
                            let (c2, out) = spec_drag(children[idx], transfer, direction, target);
                            if out == DragOutcome::Done {
                                let s2 = children.update(idx, c2);
                                assert forall|k: int| 0 <= k < s2.len() implies wf(
                                    #[trigger] s2[k],
                                ) && !(s2[k] is Empty) by {
                                    if k != idx {
                                        assert(s2[k] == children[k]);
                                    }
                                }
                                lemma_wf_children_build(s2, 0);
                                if sums_ok(nv) {
                                    lemma_sum_shares_update(children, 0, idx, c2);
                                    lemma_sums_children_index(children, 0);
                                    assert forall|k: int| 0 <= k < s2.len() implies sums_ok(
                                        #[trigger] s2[k],
                                    ) by {
                                        if k != idx {
                                            assert(s2[k] == children[k]);
                                        }
                                    }
                                    lemma_sums_children_build(s2, 0);
                                }
                                if tiled(nv) {
                                    lemma_tiled_children_index(children, 0, size_pos, axis, start);
                                    lemma_tiled_children_update(
                                        children,
                                        0,
                                        idx,
                                        size_pos,
                                        axis,
                                        start,
                                        c2,
                                    );
                                }
                            }
                        }
                    },
                }
            }
        },
    }
}

/// The children's part of the cross-axis walk.
proof fn lemma_seq_drag_scan_props(
    s: Seq<NodeView>,
    i: int,
    transfer: i64,
    direction: Direction,
    target: Id,
    total: u64,
    sp: SizeAndPos,
    cur: int,
    caxis: InsertWay,
)
    requires
        0 <= i <= s.len(),
        wf_children(s, 0),
    ensures
        seq_drag_scan(s, i, transfer, direction, target).1 != DragOutcome::Done ==> seq_drag_scan(
            s,
            i,
            transfer,
            direction,
            target,
        ).0 == s,
        seq_drag_scan(s, i, transfer, direction, target).0.len() == s.len(),
        seq_drag_scan(s, i, transfer, direction, target).1 == DragOutcome::Done ==> wf_children(
            seq_drag_scan(s, i, transfer, direction, target).0,
            0,
        ),
        seq_drag_scan(s, i, transfer, direction, target).1 == DragOutcome::Done && total as int
            == sum_shares(s, 0) && sums_children(s, 0) ==> total as int == sum_shares(
            seq_drag_scan(s, i, transfer, direction, target).0,
            0,
        ) && sums_children(seq_drag_scan(s, i, transfer, direction, target).0, 0),
        seq_drag_scan(s, i, transfer, direction, target).1 == DragOutcome::Done && tiled_children(
            s,
            0,
            sp,
            caxis,
            cur,
        ) ==> tiled_children(
            seq_drag_scan(s, i, transfer, direction, target).0,
            0,
            sp,
            caxis,
            cur,
        ),
    decreases s, s.len() - i,
{
    if i < s.len() {
        lemma_wf_children_index(s, 0);
        lemma_spec_drag_props(s[i], transfer, direction, target);
        let (c2, out) = spec_drag(s[i], transfer, direction, target);
        if out == DragOutcome::Done {
            let s2 = s.update(i, c2);
            assert forall|k: int| 0 <= k < s2.len() implies wf(#[trigger] s2[k]) && !(s2[k]
                is Empty) by {
                if k != i {
                    assert(s2[k] == s[k]);
                }
            }
            lemma_wf_children_build(s2, 0);
            if total as int == sum_shares(s, 0) && sums_children(s, 0) {
                lemma_sum_shares_update(s, 0, i, c2);
                lemma_sums_children_index(s, 0);
                assert forall|k: int| 0 <= k < s2.len() implies sums_ok(#[trigger] s2[k]) by {
                    if k != i {
                        assert(s2[k] == s[k]);
                    }
                }
                lemma_sums_children_build(s2, 0);
            }
            if tiled_children(s, 0, sp, caxis, cur) {
                lemma_tiled_children_index(s, 0, sp, caxis, cur);
                lemma_tiled_children_update(s, 0, i, sp, caxis, cur, c2);
            }
        } else if out == DragOutcome::Illegal {
        } else {
            lemma_seq_drag_scan_props(s, i + 1, transfer, direction, target, total, sp, cur, caxis);
        }
    }
}


/// Whether `target` touches the `direction` edge of this subtree.
#[verifier::loop_isolation(false)]
fn edge_check_exec(e: &Element, direction: Direction, target: Id) -> (r: Option<bool>)
    requires
        wf(e@),
    ensures
        r == spec_edge_check(e@, direction, target),
    decreases *e,
{
    match e {
        Element::EmptyOutput(_) => None,
        Element::Window { id, .. } => {
            if id.0 == target.0 {
                Some(true)
            } else {
                None
            }
        },
        Element::Vertical { elements, .. } | Element::Horizontal { elements, .. } => {
            let ghost cv = views_of(elements@, 0);
            proof {
                lemma_views_of_all(elements@);
                lemma_wf_children_index(cv, 0);
            }
            let caxis = match e {
                Element::Vertical { .. } => InsertWay::Vertical,
                _ => InsertWay::Horizontal,
            };
            let daxis = match direction {
                Direction::Top | Direction::Bottom => InsertWay::Vertical,
                Direction::Left | Direction::Right => InsertWay::Horizontal,
            };
            if daxis == caxis {
                let idx = if direction == Direction::Bottom || direction == Direction::Right {
                    elements.len() - 1
                } else {
                    0
                };
                proof {
                    assert(decreases_to!(*e => elements@[idx as int]));
                }
                let at_edge = edge_check_exec(&elements[idx], direction, target);
                if at_edge.is_some() {
                    return at_edge;
                }
                // the pane does not touch this edge; does the subtree hold
                // it at all?
                let n = elements.len();
                let mut i: usize = 0;
                while i < n
                    invariant
                        0 <= i <= n,
                        n == elements@.len(),
                        cv == views_of(elements@, 0),
                        cv.len() == n,
                        forall|j: int| 0 <= j < n ==> cv[j] == node_view(elements@[j]),
                        forall|j: int| 0 <= j < n ==> wf(#[trigger] cv[j]) && !(cv[j] is Empty),
                        seq_contains_id(cv, 0, target) == seq_contains_id(cv, i as int, target),
                    decreases n - i,
                {
                    proof {
                        assert(decreases_to!(*e => elements@[i as int]));
                    }
                    if elements[i].has_id(target) {
                        return Some(false);
                    }
                    i = i + 1;
                }
                None
            } else {
                let n = elements.len();
                let mut i: usize = 0;
                while i < n
                    invariant
                        0 <= i <= n,
                        n == elements@.len(),
                        cv == views_of(elements@, 0),
                        cv.len() == n,
                        forall|j: int| 0 <= j < n ==> cv[j] == node_view(elements@[j]),
                        forall|j: int| 0 <= j < n ==> wf(#[trigger] cv[j]),
                        seq_edge_check(cv, 0, direction, target) == seq_edge_check(
                            cv,
                            i as int,
                            direction,
                            target,
                        ),
                    decreases n - i,
                {
                    proof {
                        assert(decreases_to!(*e => elements@[i as int]));
                    }
                    let ec = edge_check_exec(&elements[i], direction, target);
                    if ec.is_some() {
                        return ec;
                    }
                    i = i + 1;
                }
                None
            }
        },
    }
}

/// Try the drag inside each child from `i` on.
#[verifier::loop_isolation(false)]
fn drag_children_scan<F: DispatchCallback>(
    elements: Vec<Element>,
    transfer: i64,
    direction: Direction,
    target: Id,
    f: &mut F,
) -> (r: (Vec<Element>, DragOutcome))
    requires
        wf_children(views_of(elements@, 0), 0),
    ensures
        (views_of(r.0@, 0), r.1) == seq_drag_scan(
            views_of(elements@, 0),
            0,
            transfer,
            direction,
            target,
        ),
    decreases elements, 0int,
{
    let ghost gv = elements;
    let ghost s = views_of(elements@, 0);
    proof {
        lemma_views_of_all(elements@);
        lemma_wf_children_index(s, 0);
    }
    let mut work = elements;
    let n = work.len();
    let mut j: usize = 0;
    while j < n
        invariant
            0 <= j <= n,
            n == gv@.len(),
            work@.len() == n,
            s == views_of(gv@, 0),
            s.len() == n,
            forall|k: int| 0 <= k < n ==> s[k] == node_view(gv@[k]),
            forall|k: int| 0 <= k < n ==> wf(#[trigger] s[k]),
            forall|k: int| j <= k < n ==> work@[k] == gv@[k],
            forall|k: int| 0 <= k < j ==> node_view(#[trigger] work@[k]) == s[k],
            seq_drag_scan(s, 0, transfer, direction, target) == seq_drag_scan(
                s,
                j as int,
                transfer,
                direction,
                target,
            ),
        decreases n - j,
    {
        let child = work.remove(j);
        assert(child == gv@[j as int]);
        proof {
            assert(decreases_to!(gv => gv@[j as int]));
            lemma_spec_drag_props(s[j as int], transfer, direction, target);
        }
        let (child2, out) = drag_node(child, transfer, direction, target, f);
        work.insert(j, child2);
        match out {
            DragOutcome::Done => {
                proof {
                    lemma_views_of_all(work@);
                    assert(views_of(work@, 0) =~= s.update(j as int, node_view(child2)));
                }
                return (work, DragOutcome::Done);
            },
            DragOutcome::Illegal => {
                proof {
                    lemma_views_of_all(work@);
                    assert(views_of(work@, 0) =~= s);
                }
                return (work, DragOutcome::Illegal);
            },
            DragOutcome::NotFound => {},
        }
        j = j + 1;
    }
    proof {
        lemma_views_of_all(work@);
        assert(views_of(work@, 0) =~= s);
    }
    (work, DragOutcome::NotFound)
}

/// Move the `direction` boundary of the pane `target` by `transfer`.
fn drag_node<F: DispatchCallback>(
    e: Element,
    transfer: i64,
    direction: Direction,
    target: Id,
    f: &mut F,
) -> (r: (Element, DragOutcome))
    requires
        wf(e@),
    ensures
        (r.0@, r.1) == spec_drag(e@, transfer, direction, target),
    decreases e, 2int,
{
    let ghost g = e;
    match e {
        Element::EmptyOutput(sp) => (Element::EmptyOutput(sp), DragOutcome::NotFound),
        Element::Window { id, size_pos, share } => (
            Element::Window { id, size_pos, share },
            DragOutcome::NotFound,
        ),
        Element::Vertical { elements, size_pos, share, total } => {
            proof {
                assert(decreases_to!(g => elements));
                lemma_views_of_all(elements@);
                if direction.axis() != InsertWay::Vertical {
                    lemma_seq_drag_scan_props(
                        views_of(elements@, 0),
                        0,
                        transfer,
                        direction,
                        target,
                        total,
                        size_pos,
                        0,
                        InsertWay::Vertical,
                    );
                }
            }
            let (els, t2, out) = drag_container(
                elements,
                InsertWay::Vertical,
                transfer,
                direction,
                target,
                total,
                f,
            );
            (Element::Vertical { elements: els, size_pos, share, total: t2 }, out)
        },
        Element::Horizontal { elements, size_pos, share, total } => {
            proof {
                assert(decreases_to!(g => elements));
                lemma_views_of_all(elements@);
                if direction.axis() != InsertWay::Horizontal {
                    lemma_seq_drag_scan_props(
                        views_of(elements@, 0),
                        0,
                        transfer,
                        direction,
                        target,
                        total,
                        size_pos,
                        0,
                        InsertWay::Horizontal,
                    );
                }
            }
            let (els, t2, out) = drag_container(
                elements,
                InsertWay::Horizontal,
                transfer,
                direction,
                target,
                total,
                f,
            );
            (Element::Horizontal { elements: els, size_pos, share, total: t2 }, out)
        },
    }
}

/// The shared body of a container drag: either pass the request across the
/// axis into the children, or find the boundary along the axis and move it.
#[verifier::loop_isolation(false)]
#[verifier::rlimit(100)]
fn drag_container<F: DispatchCallback>(
    elements: Vec<Element>,
    caxis: InsertWay,
    transfer: i64,
    direction: Direction,
    target: Id,
    total: u64,
    f: &mut F,
) -> (r: (Vec<Element>, u64, DragOutcome))
    requires
        wf_children(views_of(elements@, 0), 0),
        2 <= elements@.len(),
    ensures
        ({
            let s = views_of(elements@, 0);
            let daxis = direction.axis();
            if daxis != caxis {
                (views_of(r.0@, 0), r.2) == seq_drag_scan(s, 0, transfer, direction, target)
                    && r.1 == total
            } else {
                match seq_edge_find(s, 0, direction, target) {
                    Option::None => r.2 == DragOutcome::NotFound && views_of(r.0@, 0) == s && r.1
                        == total,
                    Option::Some((idx, at_edge)) => {
                        if at_edge {
                            let p = if direction == Direction::Top || direction
                                == Direction::Left {
                                idx - 1
                            } else {
                                idx
                            };
                            if p < 0 || p + 1 >= s.len() {
                                r.2 == DragOutcome::NotFound && views_of(r.0@, 0) == s && r.1
                                    == total
                            } else {
                                match spec_drag_pair(s, p, caxis, transfer as int, total) {
                                    Option::None => r.2 == DragOutcome::Illegal && views_of(
                                        r.0@,
                                        0,
                                    ) == s && r.1 == total,
                                    Option::Some(pr) => r.2 == DragOutcome::Done && views_of(
                                        r.0@,
                                        0,
                                    ) == pr.0 && r.1 == pr.1,
                                }
                            }
                        } else {
                            let (c2, out) = spec_drag(s[idx], transfer, direction, target);
                            if out == DragOutcome::Done {
                                r.2 == DragOutcome::Done && views_of(r.0@, 0) == s.update(idx, c2)
                                    && r.1 == total
                            } else {
                                r.2 == out && views_of(r.0@, 0) == s && r.1 == total
                            }
                        }
                    },
                }
            }
        }),
    decreases elements,
{
    let ghost gv = elements;
    let ghost s = views_of(elements@, 0);
    proof {
        lemma_views_of_all(elements@);
        lemma_wf_children_index(s, 0);
    }
    let daxis = match direction {
        Direction::Top | Direction::Bottom => InsertWay::Vertical,
        Direction::Left | Direction::Right => InsertWay::Horizontal,
    };
    if daxis != caxis {
        let (els, out) = drag_children_scan(elements, transfer, direction, target, f);
        return (els, total, out);
    }
    let mut work = elements;
    let n = work.len();
    // find the child that answers the edge question
    let mut found: Option<(usize, bool)> = None;
    let mut j: usize = 0;
    while j < n
        invariant
            0 <= j <= n,
            n == work@.len(),
            work@ == gv@,
            s == views_of(gv@, 0),
            s.len() == n,
            forall|k: int| 0 <= k < n ==> s[k] == node_view(gv@[k]),
            forall|k: int| 0 <= k < n ==> wf(#[trigger] s[k]),
            found is None,
            seq_edge_find(s, 0, direction, target) == seq_edge_find(
                s,
                j as int,
                direction,
                target,
            ),
        decreases n - j,
    {
        let ec = edge_check_exec(&work[j], direction, target);
        if let Some(v) = ec {
            found = Some((j, v));
            proof {
                assert(seq_edge_find(s, j as int, direction, target) == Some((j as int, v)));
            }
            break;
        }
        j = j + 1;
    }
    let (idx, at_edge) = match found {
        Some(pr) => pr,
        None => {
            assert(seq_edge_find(s, 0, direction, target) is None);
            return (work, total, DragOutcome::NotFound);
        },
    };
    assert(seq_edge_find(s, 0, direction, target) == Some((idx as int, at_edge)));
    if !at_edge {
        // descend into the child that holds the boundary
        let child = work.remove(idx);
        assert(child == gv@[idx as int]);
        proof {
            assert(decreases_to!(gv => gv@[idx as int]));
            lemma_spec_drag_props(s[idx as int], transfer, direction, target);
        }
        let (child2, out) = drag_node(child, transfer, direction, target, f);
        work.insert(idx, child2);
        proof {
            lemma_views_of_all(work@);
            if out == DragOutcome::Done {
                assert(views_of(work@, 0) =~= s.update(idx as int, node_view(child2)));
            } else {
                assert(views_of(work@, 0) =~= s);
            }
        }
        let out2 = match out {
            DragOutcome::Done => DragOutcome::Done,
            DragOutcome::Illegal => DragOutcome::Illegal,
            DragOutcome::NotFound => DragOutcome::NotFound,
        };
        return (work, total, out2);
    }
    // the pair that straddles the boundary
    let p: usize = match direction {
        Direction::Top | Direction::Left => {
            if idx == 0 {
                return (work, total, DragOutcome::NotFound);
            }
            idx - 1
        },
        Direction::Bottom | Direction::Right => {
            if idx >= n - 1 {
                return (work, total, DragOutcome::NotFound);
            }
            idx
        },
    };
    drag_pair_exec(work, p, caxis, transfer, total, f)
}

/// Move the boundary between children `p` and `p + 1` by `transfer`.
#[verifier::rlimit(100)]
fn drag_pair_exec<F: DispatchCallback>(
    elements: Vec<Element>,
    p: usize,
    caxis: InsertWay,
    transfer: i64,
    total: u64,
    f: &mut F,
) -> (r: (Vec<Element>, u64, DragOutcome))
    requires
        wf_children(views_of(elements@, 0), 0),
        0 <= p,
        p + 1 < elements@.len(),
    ensures
        ({
            let s = views_of(elements@, 0);
            match spec_drag_pair(s, p as int, caxis, transfer as int, total) {
                Option::None => r.2 == DragOutcome::Illegal && views_of(r.0@, 0) == s && r.1
                    == total,
                Option::Some(pr) => r.2 == DragOutcome::Done && views_of(r.0@, 0) == pr.0 && r.1
                    == pr.1,
            }
        }),
{
    let ghost gv = elements;
    let ghost s = views_of(elements@, 0);
    proof {
        lemma_views_of_all(elements@);
        lemma_wf_children_index(s, 0);
    }
    let mut work = elements;
    let nlen = work.len();
    let a_sp = work[p].size_pos();
    let b_sp = work[p + 1].size_pos();
    let (a_ext, b_ext) = match caxis {
        InsertWay::Vertical => (a_sp.size.height, b_sp.size.height),
        InsertWay::Horizontal => (a_sp.size.width, b_sp.size.width),
    };
    // legality, by comparison before any arithmetic
    if transfer <= -a_ext || transfer >= b_ext {
        proof {
            assert(spec_drag_pair(s, p as int, caxis, transfer as int, total) is None);
        }
        return (work, total, DragOutcome::Illegal);
    }
    let ra = match caxis {
        InsertWay::Vertical => SizeAndPos {
            size: Size { width: a_sp.size.width, height: a_sp.size.height + transfer },
            position: a_sp.position,
        },
        InsertWay::Horizontal => SizeAndPos {
            size: Size { width: a_sp.size.width + transfer, height: a_sp.size.height },
            position: a_sp.position,
        },
    };
    let rb = match caxis {
        InsertWay::Vertical => SizeAndPos {
            size: Size { width: b_sp.size.width, height: b_sp.size.height - transfer },
            position: Position { x: b_sp.position.x, y: b_sp.position.y + transfer },
        },
        InsertWay::Horizontal => SizeAndPos {
            size: Size { width: b_sp.size.width - transfer, height: b_sp.size.height },
            position: Position { x: b_sp.position.x + transfer, y: b_sp.position.y },
        },
    };
    assert(ra == dragged_first(s[p as int].size_pos(), caxis, transfer as int));
    assert(rb == dragged_second(s[p + 1].size_pos(), caxis, transfer as int));
    let legal = ra.size.width > 0 && ra.size.height > 0 && rb.size.width > 0 && rb.size.height > 0
        && rect_bounded_exec(ra) && rect_bounded_exec(rb);
    if !legal {
        proof {
            assert(spec_drag_pair(s, p as int, caxis, transfer as int, total) is None);
        }
        return (work, total, DragOutcome::Illegal);
    }
    assert(drag_pair_legal(
        s[p as int].size_pos(),
        s[p + 1].size_pos(),
        caxis,
        transfer as int,
    ));
    let (ha, hb) = match caxis {
        InsertWay::Vertical => (ra.size.height, rb.size.height),
        InsertWay::Horizontal => (ra.size.width, rb.size.width),
    };
    let k: u64 = ha as u64 + hb as u64;
    let a_share = work[p].percent();
    let b_share = work[p + 1].percent();
    let scalable = can_scale_exec(&work, total, k, p);
    assert(a_share == s[p as int].share());
    assert(b_share == s[p + 1].share());
    let (nsa, nsb, t2): (u64, u64, u64) = if scalable {
        // every share is scaled by k below; the pair splits exactly
        assert((a_share + b_share) * k <= u64::MAX);
        assert(a_share + b_share <= u64::MAX) by (nonlinear_arith)
            requires
                1 <= k && 0 <= a_share + b_share && (a_share + b_share) * k <= u64::MAX,
        ;
        proof {
            assert(a_share * ha as int <= (a_share + b_share) * (ha as int + hb as int))
                by (nonlinear_arith)
                requires
                    0 <= a_share && 0 <= b_share && 0 <= ha && 0 <= hb,
            ;
            assert((a_share + b_share) * ha as int <= (a_share + b_share) * (ha as int
                + hb as int)) by (nonlinear_arith)
                requires
                    0 <= a_share && 0 <= b_share && 0 <= ha && 0 <= hb,
            ;
            assert((a_share + b_share) * hb as int <= (a_share + b_share) * (ha as int
                + hb as int)) by (nonlinear_arith)
                requires
                    0 <= a_share && 0 <= b_share && 0 <= ha && 0 <= hb,
            ;
            assert(0 <= (a_share + b_share) * ha as int && 0 <= (a_share + b_share)
                * hb as int) by (nonlinear_arith)
                requires
                    0 <= a_share && 0 <= b_share && 0 <= ha && 0 <= hb,
            ;
        }
        let ssum = a_share + b_share;
        scale_all_exec(&mut work, k);
        (ssum * ha as u64, ssum * hb as u64, total * k)
    } else {
        let ssum: u64 = if a_share <= u64::MAX - b_share {
            a_share + b_share
        } else {
            u64::MAX
        };
        let htotal: u128 = ha as u128 + hb as u128;
        proof {
            vstd::arithmetic::mul::lemma_mul_nonnegative(ssum as int, ha as int);
            vstd::arithmetic::mul::lemma_mul_inequality(ha as int, htotal as int, ssum as int);
            vstd::arithmetic::mul::lemma_mul_is_commutative(ha as int, ssum as int);
            vstd::arithmetic::mul::lemma_mul_is_commutative(htotal as int, ssum as int);
            vstd::arithmetic::div_mod::lemma_div_is_ordered(
                ssum as int * ha as int,
                ssum as int * htotal as int,
                htotal as int,
            );
            vstd::arithmetic::div_mod::lemma_div_by_multiple(ssum as int, htotal as int);
            vstd::arithmetic::div_mod::lemma_div_pos_is_pos(ssum as int * ha as int, htotal as int);
            vstd::arithmetic::mul::lemma_mul_upper_bound(
                ssum as int,
                0xffff_ffff_ffff_ffff,
                ha as int,
                0x7fff_ffff_ffff_ffff,
            );
        }
        let nsa: u64 = ((ssum as u128 * ha as u128) / htotal) as u64;
        (nsa, ssum - nsa, total)
    };
    proof {
        lemma_views_of_all(work@);
    }
    let b_el = work.remove(p + 1);
    let a_el = work.remove(p);
    proof {
        if scalable {
            lemma_scale_shares_char(s, 0, k);
            assert(scale_shares(s, 0, k)[p + 1 - 0] == s[p + 1].with_share(
                (s[p + 1].share() * k) as u64,
            ));
            assert(scale_shares(s, 0, k)[p - 0] == s[p as int].with_share(
                (s[p as int].share() * k) as u64,
            ));
            assert(node_view(b_el) == scale_shares(s, 0, k)[p + 1]);
            assert(node_view(a_el) == scale_shares(s, 0, k)[p as int]);
            lemma_with_share_same(s[p as int], (s[p as int].share() * k) as u64);
            lemma_with_share_same(s[p + 1], (s[p + 1].share() * k) as u64);
        } else {
            assert(node_view(a_el) == s[p as int]);
            assert(node_view(b_el) == s[p + 1]);
        }
    }
    let mut a2 = crate::remap::remap_node_for(a_el, ra, f);
    a2.set_percentage(nsa);
    let mut b2 = crate::remap::remap_node_for(b_el, rb, f);
    b2.set_percentage(nsb);
    work.insert(p, a2);
    work.insert(p + 1, b2);
    proof {
        lemma_views_of_all(work@);
        if scalable {
            assert(spec_remap(node_view(a_el), ra).with_share(nsa) == spec_remap(
                s[p as int],
                ra,
            ).with_share(nsa));
            assert(spec_remap(node_view(b_el), rb).with_share(nsb) == spec_remap(
                s[p + 1],
                rb,
            ).with_share(nsb));
        }
        assert(views_of(work@, 0) =~= drag_pair_children(
            s,
            p as int,
            caxis,
            transfer as int,
            total,
        ));
    }
    (work, t2, DragOutcome::Done)
}

/// Whether every share, the total, and the pair's combined share may be
/// multiplied by `k` within `u64`.
fn can_scale_exec(elements: &Vec<Element>, total: u64, k: u64, p: usize) -> (r: bool)
    requires
        0 <= p,
        p + 1 < elements@.len(),
        1 <= k,
    ensures
        r == can_scale(views_of(elements@, 0), total, k, p as int),
{
    let ghost s = views_of(elements@, 0);
    proof {
        lemma_views_of_all(elements@);
    }
    let n0 = elements.len();
    if total > u64::MAX / k {
        proof {
            assert(total * k > u64::MAX) by (nonlinear_arith)
                requires
                    1 <= k && total > u64::MAX as int / k as int,
            ;
        }
        return false;
    }
    proof {
        assert(total * k <= u64::MAX) by (nonlinear_arith)
            requires
                1 <= k && total <= u64::MAX as int / k as int,
        ;
    }
    let pa = elements[p].percent();
    let pb = elements[p + 1].percent();
    if pa > u64::MAX - pb || pa + pb > u64::MAX / k {
        proof {
            if pa <= u64::MAX - pb {
                assert((pa + pb) * k > u64::MAX) by (nonlinear_arith)
                    requires
                        1 <= k && pa + pb > u64::MAX as int / k as int,
                ;
            } else {
                assert((pa + pb) * k > u64::MAX) by (nonlinear_arith)
                    requires
                        1 <= k && pa + pb > u64::MAX,
                ;
            }
        }
        return false;
    }
    proof {
        assert((pa + pb) * k <= u64::MAX) by (nonlinear_arith)
            requires
                1 <= k && pa + pb <= u64::MAX as int / k as int,
        ;
    }
    let n = elements.len();
    let mut i: usize = 0;
    while i < n
        invariant
            0 <= i <= n,
            n == elements@.len(),
            s == views_of(elements@, 0),
            s.len() == n,
            1 <= k,
            forall|j: int| 0 <= j < n ==> s[j] == node_view(elements@[j]),
            shares_fit(s, 0, k) == shares_fit(s, i as int, k),
        decreases n - i,
    {
        if elements[i].percent() > u64::MAX / k {
            proof {
                assert(s[i as int].share() * k > u64::MAX) by (nonlinear_arith)
                    requires
                        1 <= k && s[i as int].share() > u64::MAX as int / k as int,
                ;
            }
            return false;
        }
        proof {
            assert(s[i as int].share() * k <= u64::MAX) by (nonlinear_arith)
                requires
                    1 <= k && s[i as int].share() <= u64::MAX as int / k as int,
            ;
        }
        i = i + 1;
    }
    true
}

/// Multiply every share in the container by `k`.
fn scale_all_exec(elements: &mut Vec<Element>, k: u64)
    requires
        shares_fit(views_of(old(elements)@, 0), 0, k),
    ensures
        views_of(final(elements)@, 0) == scale_shares(views_of(old(elements)@, 0), 0, k),
        final(elements)@.len() == old(elements)@.len(),
{
    let ghost orig = elements@;
    let ghost s = views_of(orig, 0);
    proof {
        lemma_views_of_all(orig);
        lemma_scale_shares_char(s, 0, k);
        lemma_shares_fit_index(s, 0, k);
    }
    let n = elements.len();
    let mut i: usize = 0;
    while i < n
        invariant
            0 <= i <= n,
            n == orig.len(),
            elements@.len() == n,
            s == views_of(orig, 0),
            s.len() == n,
            forall|j: int| 0 <= j < n ==> s[j] == node_view(orig[j]),
            forall|j: int| 0 <= j < n ==> (#[trigger] s[j]).share() * k <= u64::MAX,
            forall|j: int| i <= j < n ==> elements@[j] == orig[j],
            forall|j: int|
                0 <= j < i ==> node_view(#[trigger] elements@[j]) == s[j].with_share(
                    (s[j].share() * k) as u64,
                ),
        decreases n - i,
    {
        let mut child = elements.remove(i);
        let scaled = child.percent() * k;
        child.set_percentage(scaled);
        elements.insert(i, child);
        i = i + 1;
    }
    proof {
        lemma_views_of_all(elements@);
        assert(views_of(elements@, 0) =~= scale_shares(s, 0, k));
    }
}

/// Whether a rectangle stays within the coordinate bound.
fn rect_bounded_exec(sp: SizeAndPos) -> (r: bool)
    ensures
        r == rect_bounded(sp),
{
    0 <= sp.size.width && 0 <= sp.size.height && -crate::utils::COORD_LIMIT <= sp.position.x
        && -crate::utils::COORD_LIMIT <= sp.position.y && sp.position.x <= crate::utils::COORD_LIMIT
        - sp.size.width && sp.position.y <= crate::utils::COORD_LIMIT - sp.size.height
}

impl Element {
    /// Move the boundary on the `direction` side of the pane `target` by
    /// `transfer` units: positive values move it toward `Bottom` or
    /// `Right`. The two neighbors at that boundary trade room, their
    /// subtrees are laid out anew (the callback reports each pane touched),
    /// and the pair's combined share is redistributed in proportion to
    /// their new extents, its sum kept exactly. Fails with `ElementNotFound`
    /// when the pane, or a neighbor on that side of it, does not exist, and
    /// with `DragIllegal` when a pane would be left without positive
    /// extent; either way the tree is left as it was.
    pub fn drag<F: DispatchCallback>(
        &mut self,
        transfer: i64,
        direction: Direction,
        target: Id,
        f: &mut F,
    ) -> (r: Result<(), FlyjaError>)
        requires
            wf(old(self)@),
        ensures
            r is Ok <==> spec_drag(old(self)@, transfer, direction, target).1
                == DragOutcome::Done,
            r == Err::<(), FlyjaError>(FlyjaError::ElementNotFound) <==> spec_drag(
                old(self)@,
                transfer,
                direction,
                target,
            ).1 == DragOutcome::NotFound,
            r == Err::<(), FlyjaError>(FlyjaError::DragIllegal) <==> spec_drag(
                old(self)@,
                transfer,
                direction,
                target,
            ).1 == DragOutcome::Illegal,
            final(self)@ == spec_drag(old(self)@, transfer, direction, target).0,
            r is Err ==> final(self)@ == old(self)@,
            wf(final(self)@),
            final(self)@.size_pos() == old(self)@.size_pos(),
            sums_ok(old(self)@) ==> sums_ok(final(self)@),
            tiled(old(self)@) ==> tiled(final(self)@),
    {
        proof {
            lemma_spec_drag_props(self@, transfer, direction, target);
        }
        let mut tmp = Element::EmptyOutput(
            SizeAndPos {
                size: Size { width: 0, height: 0 },
                position: Position { x: 0, y: 0 },
            },
        );
        core::mem::swap(self, &mut tmp);
        let (done, out) = drag_node(tmp, transfer, direction, target, f);
        *self = done;
        match out {
            DragOutcome::Done => Ok(()),
            DragOutcome::NotFound => Err(FlyjaError::ElementNotFound),
            DragOutcome::Illegal => Err(FlyjaError::DragIllegal),
        }
    }
}

} // verus!
