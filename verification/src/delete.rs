use vstd::prelude::*;

verus! {

use crate::model::{
    axis_end,
    axis_extent,
    axis_start,
    contains_id,
    lemma_sum_shares_remove,
    lemma_sum_shares_update,
    lemma_sums_children_build,
    lemma_sums_children_index,
    lemma_tiled_children_index,
    lemma_tiled_children_update,
    lemma_tiled_merge,
    lemma_views_of_all,
    lemma_wf_children_build,
    lemma_wf_children_index,
    node_view,
    off_axis_eq,
    seq_contains_id,
    sum_shares,
    sums_children,
    sums_ok,
    tiled,
    tiled_children,
    views_of,
    wf,
    wf_children,
    NodeView,
};
use crate::insert::lemma_with_share_same;
use crate::remap::{lemma_spec_remap_basic, lemma_spec_remap_props, spec_remap};
use crate::utils::{rect_bounded, InsertWay, Position, Size, SizeAndPos};
use crate::{DispatchCallback, Element, FlyjaError, Id};

/// The smallest rectangle that covers the neighbor and the removed pane:
/// along `axis` it runs from the earlier start to the later end; across the
/// axis it keeps the neighbor's extent. When the two rectangles are the
/// adjacent slots of a tiled container this is exactly their union.
pub open spec fn merged_rect(nb: SizeAndPos, rm: SizeAndPos, axis: InsertWay) -> SizeAndPos {
    let lo = if axis_start(nb, axis) <= axis_start(rm, axis) {
        axis_start(nb, axis)
    } else {
        axis_start(rm, axis)
    };
    let hi = if axis_end(nb, axis) >= axis_end(rm, axis) {
        axis_end(nb, axis)
    } else {
        axis_end(rm, axis)
    };
    match axis {
        InsertWay::Vertical => SizeAndPos {
            size: Size { width: nb.size.width, height: (hi - lo) as i64 },
            position: Position { x: nb.position.x, y: lo as i64 },
        },
        InsertWay::Horizontal => SizeAndPos {
            size: Size { width: (hi - lo) as i64, height: nb.size.height },
            position: Position { x: lo as i64, y: nb.position.y },
        },
    }
}

pub proof fn lemma_merged_rect_bounded(nb: SizeAndPos, rm: SizeAndPos, axis: InsertWay)
    requires
        rect_bounded(nb),
        rect_bounded(rm),
    ensures
        rect_bounded(merged_rect(nb, rm, axis)),
{
}

/// The children after the pane at `i` is removed: the sibling just before
/// it, or the new first sibling when it was first, takes over the removed
/// pane's room (its subtree laid out anew over the joined rectangle) and
/// its share.
pub open spec fn remove_merge(s: Seq<NodeView>, i: int, caxis: InsertWay) -> Seq<NodeView> {
    let removed = s[i];
    let sr = s.remove(i);
    let adjust = if i == 0 {
        0
    } else {
        i - 1
    };
    let nb = sr[adjust];
    let merged = merged_rect(nb.size_pos(), removed.size_pos(), caxis);
    let new_share = if nb.share() + removed.share() <= u64::MAX {
        (nb.share() + removed.share()) as u64
    } else {
        u64::MAX
    };
    let nb2 = spec_remap(nb, merged).with_share(new_share);
    sr.update(adjust, nb2)
}

/// What delete does: the pane `target` leaves the tree; a tree of just
/// that pane becomes empty; a container that held it hands its room and
/// share to the adjacent sibling; a container left with one child collapses
/// into that child, which takes over the container's rectangle and share.
/// The second component tells whether the pane was found.
pub open spec fn spec_delete(nv: NodeView, target: Id) -> (NodeView, bool)
    decreases nv, 1int,
{
    match nv {
        NodeView::Empty(_) => (nv, false),
        NodeView::Window { id, size_pos, .. } => {
            if id == target {
                (NodeView::Empty(size_pos), true)
            } else {
                (nv, false)
            }
        },
        NodeView::Container { axis, children, size_pos, share, total } => {
            let (children2, ok) = seq_delete(children, 0, target, axis);
            if !ok {
                (nv, false)
            } else if children2.len() == 1 {
                (children2[0].with_share(share).with_size_pos(size_pos), true)
            } else {
                (
                    NodeView::Container { axis, children: children2, size_pos, share, total },
                    true,
                )
            }
        },
    }
}

/// Delete out of the first child from `i` on that holds the pane: a pane
/// sitting directly in this container is removed with its room merged into
/// its sibling; one deeper down is deleted inside the child that holds it.
pub open spec fn seq_delete(s: Seq<NodeView>, i: int, target: Id, caxis: InsertWay) -> (
    Seq<NodeView>,
    bool,
)
    decreases s, s.len() - i,
{
    if i < 0 || i >= s.len() {
        (s, false)
    } else if s[i] matches NodeView::Window { id, .. } && id == target {
        (remove_merge(s, i, caxis), true)
    } else {
        let (c2, ok) = spec_delete(s[i], target);
        if ok {
            (s.update(i, c2), true)
        } else {
            seq_delete(s, i + 1, target, caxis)
        }
    }
}

/// A delete that found nothing leaves the children alone.
pub proof fn lemma_seq_delete_unchanged(s: Seq<NodeView>, i: int, target: Id, caxis: InsertWay)
    requires
        0 <= i <= s.len(),
        !seq_delete(s, i, target, caxis).1,
    ensures
        seq_delete(s, i, target, caxis) == (s, false),
    decreases s.len() - i,
{
    if i < s.len() {
        lemma_seq_delete_unchanged(s, i + 1, target, caxis);
    }
}

/// Delete finds the pane exactly when the tree holds it.
pub proof fn lemma_spec_delete_found(nv: NodeView, target: Id)
    ensures
        spec_delete(nv, target).1 == contains_id(nv, target),
    decreases nv, 1int,
{
    match nv {
        NodeView::Empty(_) => {},
        NodeView::Window { .. } => {},
        NodeView::Container { children, .. } => {
            lemma_seq_delete_found(children, 0, target, nv.axis());
        },
    }
}

proof fn lemma_seq_delete_found(s: Seq<NodeView>, i: int, target: Id, caxis: InsertWay)
    requires
        0 <= i <= s.len(),
    ensures
        seq_delete(s, i, target, caxis).1 == seq_contains_id(s, i, target),
    decreases s, s.len() - i,
{
    if i < s.len() {
        lemma_spec_delete_found(s[i], target);
        lemma_seq_delete_found(s, i + 1, target, caxis);
    }
}


/// What a successful delete preserves: well-formedness, the node's own
/// rectangle and (below the root) its share, exact share bookkeeping, and
/// tiling. A failed delete changes nothing.
pub proof fn lemma_spec_delete_props(nv: NodeView, target: Id)
    requires
        wf(nv),
    ensures
        wf(spec_delete(nv, target).0),
        !spec_delete(nv, target).1 ==> spec_delete(nv, target).0 == nv,
        spec_delete(nv, target).0.size_pos() == nv.size_pos(),
        nv is Container ==> spec_delete(nv, target).0.share() == nv.share() && !(spec_delete(
            nv,
            target,
        ).0 is Empty),
        sums_ok(nv) ==> sums_ok(spec_delete(nv, target).0),
        tiled(nv) ==> tiled(spec_delete(nv, target).0),
    decreases nv, 1int,
{
    match nv {
        NodeView::Empty(_) => {},
        NodeView::Window { .. } => {},
        NodeView::Container { axis, children, size_pos, share, total } => {
            let pr = seq_delete(children, 0, target, axis);
            let start = axis_start(size_pos, axis);
            lemma_seq_delete_props(children, 0, target, axis, total, size_pos, start);
            if !pr.1 {
                lemma_seq_delete_unchanged(children, 0, target, axis);
            } else {
                let s2 = pr.0;
                if s2.len() == 1 {
                    lemma_wf_children_index(s2, 0);
                    lemma_with_share_same(s2[0], share);
                    crate::model::lemma_with_size_pos_props(
                        s2[0].with_share(share),
                        size_pos,
                    );
                    if sums_ok(nv) {
                        lemma_sums_children_index(s2, 0);
                    }
                    if tiled(nv) {
                        crate::model::lemma_tiled_children_index(s2, 0, size_pos, axis, start);
                        assert(crate::model::child_slot_ok(s2[0], size_pos, axis, start));
                        assert(tiled_children(
                            s2,
                            1,
                            size_pos,
                            axis,
                            start + axis_extent(s2[0].size_pos(), axis),
                        ));
                        assert(s2[0].size_pos() == size_pos);
                    }
                }
            }
        },
    }
}

/// The children's part of `lemma_spec_delete_props`.
proof fn lemma_seq_delete_props(
    s: Seq<NodeView>,
    i: int,
    target: Id,
    caxis: InsertWay,
    total: u64,
    sp: SizeAndPos,
    cur: int,
)
    requires
        0 <= i <= s.len(),
        2 <= s.len(),
        wf_children(s, 0),
    ensures
        seq_delete(s, i, target, caxis).0.len() >= s.len() - 1,
        seq_delete(s, i, target, caxis).0.len() <= s.len(),
        seq_delete(s, i, target, caxis).1 ==> wf_children(seq_delete(s, i, target, caxis).0, 0),
        seq_delete(s, i, target, caxis).1 && total as int == sum_shares(s, 0) && sums_children(
            s,
            0,
        ) ==> total as int == sum_shares(seq_delete(s, i, target, caxis).0, 0) && sums_children(
            seq_delete(s, i, target, caxis).0,
            0,
        ),
        seq_delete(s, i, target, caxis).1 && tiled_children(s, 0, sp, caxis, cur)
            ==> tiled_children(seq_delete(s, i, target, caxis).0, 0, sp, caxis, cur),
    decreases s, s.len() - i,
{
    if i < s.len() {
        lemma_wf_children_index(s, 0);
        if s[i] matches NodeView::Window { id, .. } && id == target {
            lemma_remove_merge_props(s, i, caxis, total, sp, cur);
        } else {
            lemma_spec_delete_props(s[i], target);
            let (c2, ok) = spec_delete(s[i], target);
            if ok {
                let s2 = s.update(i, c2);
                assert(s[i] is Container);
                assert forall|k: int| 0 <= k < s2.len() implies wf(#[trigger] s2[k]) && !(s2[k]
                    is Empty) by {
                    if k != i {
                        assert(s2[k] == s[k]);
                    }
                }
                lemma_wf_children_build(s2, 0);
                if total as int == sum_shares(s, 0) && sums_children(s, 0) {
                    lemma_sum_shares_update(s, 0, i, c2);
                    lemma_sums_children_index(s, 0);
                    assert forall|k: int| 0 <= k < s2.len() implies sums_ok(#[trigger] s2[k]) by {
                        if k != i {
                            assert(s2[k] == s[k]);
                        }
                    }
                    lemma_sums_children_build(s2, 0);
                }
                if tiled_children(s, 0, sp, caxis, cur) {
                    lemma_tiled_children_index(s, 0, sp, caxis, cur);
                    lemma_tiled_children_update(s, 0, i, sp, caxis, cur, c2);
                }
            } else {
                lemma_seq_delete_props(s, i + 1, target, caxis, total, sp, cur);
            }
        }
    }
}

/// Removing child `i` and folding its room and share into its sibling
/// keeps the children well-formed, keeps the share sum exactly, and keeps
/// the container tiled.
proof fn lemma_remove_merge_props(
    s: Seq<NodeView>,
    i: int,
    caxis: InsertWay,
    total: u64,
    sp: SizeAndPos,
    cur: int,
)
    requires
        0 <= i < s.len(),
        2 <= s.len(),
        wf_children(s, 0),
    ensures
        remove_merge(s, i, caxis).len() == s.len() - 1,
        wf_children(remove_merge(s, i, caxis), 0),
        total as int == sum_shares(s, 0) && sums_children(s, 0) ==> total as int == sum_shares(
            remove_merge(s, i, caxis),
            0,
        ) && sums_children(remove_merge(s, i, caxis), 0),
        tiled_children(s, 0, sp, caxis, cur) ==> tiled_children(
            remove_merge(s, i, caxis),
            0,
            sp,
            caxis,
            cur,
        ),
{
    let removed = s[i];
    let sr = s.remove(i);
    let adjust = if i == 0 {
        0int
    } else {
        i - 1
    };
    let nbi = if i == 0 {
        1int
    } else {
        i - 1
    };
    let nb = sr[adjust];
    assert(nb == s[nbi]);
    let merged = merged_rect(nb.size_pos(), removed.size_pos(), caxis);
    let new_share = if nb.share() + removed.share() <= u64::MAX {
        (nb.share() + removed.share()) as u64
    } else {
        u64::MAX
    };
    let nb2 = spec_remap(nb, merged).with_share(new_share);
    let s2 = remove_merge(s, i, caxis);
    assert(s2 == sr.update(adjust, nb2));
    lemma_wf_children_index(s, 0);
    lemma_merged_rect_bounded(nb.size_pos(), removed.size_pos(), caxis);
    lemma_spec_remap_props(nb, merged);
    lemma_spec_remap_basic(nb, merged);
    lemma_with_share_same(spec_remap(nb, merged), new_share);
    // well-formed
    assert forall|k: int| 0 <= k < s2.len() implies wf(#[trigger] s2[k]) && !(s2[k] is Empty) by {
        if k != adjust {
            assert(s2[k] == sr[k]);
            if k < i {
                assert(sr[k] == s[k]);
            } else {
                assert(sr[k] == s[k + 1]);
            }
        }
    }
    lemma_wf_children_build(s2, 0);
    // share sums
    if total as int == sum_shares(s, 0) && sums_children(s, 0) {
        crate::model::lemma_sum_shares_nonneg(s, 0);
        if i == 0 {
            crate::model::lemma_two_shares_le_sum(s, 0, 0, 1);
        } else {
            crate::model::lemma_two_shares_le_sum(s, 0, i - 1, i);
        }
        assert(nb.share() + removed.share() <= total);
        assert(new_share == nb.share() + removed.share());
        lemma_sum_shares_remove(s, 0, i);
        lemma_sum_shares_update(sr, 0, adjust, nb2);
        lemma_sums_children_index(s, 0);
        assert forall|k: int| 0 <= k < s2.len() implies sums_ok(#[trigger] s2[k]) by {
            if k != adjust {
                assert(s2[k] == sr[k]);
                if k < i {
                    assert(sr[k] == s[k]);
                } else {
                    assert(sr[k] == s[k + 1]);
                }
            }
        }
        lemma_sums_children_build(s2, 0);
    }
    // tiling
    if tiled_children(s, 0, sp, caxis, cur) {
        let jp = if i == 0 {
            0int
        } else {
            i - 1
        };
        crate::model::lemma_tiled_adjacent(s, 0, jp, sp, caxis, cur);
        assert(axis_start(s[jp + 1].size_pos(), caxis) == axis_start(s[jp].size_pos(), caxis)
            + axis_extent(s[jp].size_pos(), caxis));
        assert(nb2.size_pos() == merged);
        assert(axis_start(merged, caxis) == axis_start(s[jp].size_pos(), caxis));
        assert(axis_extent(merged, caxis) == axis_extent(s[jp].size_pos(), caxis) + axis_extent(
            s[jp + 1].size_pos(),
            caxis,
        ));
        assert(off_axis_eq(merged, s[jp].size_pos(), caxis));
        crate::model::lemma_tiled_merge(s, 0, jp, sp, caxis, cur, nb2);
        assert(s.update(jp, nb2).remove(jp + 1) =~= s2);
    }
}


/// Delete out of the first child from `i` on that holds `target`.
#[verifier::loop_isolation(false)]
#[verifier::rlimit(100)]
fn delete_children<F: DispatchCallback>(
    elements: Vec<Element>,
    target: Id,
    caxis: InsertWay,
    f: &mut F,
) -> (r: (Vec<Element>, bool))
    requires
        wf_children(views_of(elements@, 0), 0),
        2 <= elements@.len(),
    ensures
        (views_of(r.0@, 0), r.1) == seq_delete(views_of(elements@, 0), 0, target, caxis),
    decreases elements,
{
    let ghost gv = elements;
    let ghost s = views_of(elements@, 0);
    proof {
        lemma_views_of_all(elements@);
        lemma_wf_children_index(s, 0);
    }
    let mut work = elements;
    let n = work.len();
    let mut j: usize = 0;
    while j < n
        invariant
            0 <= j <= n,
            n == gv@.len(),
            work@.len() == n,
            s == views_of(gv@, 0),
            s.len() == n,
            forall|k: int| 0 <= k < n ==> s[k] == node_view(gv@[k]),
            forall|k: int| 0 <= k < n ==> wf(#[trigger] s[k]),
            forall|k: int| j <= k < n ==> work@[k] == gv@[k],
            forall|k: int| 0 <= k < j ==> node_view(#[trigger] work@[k]) == s[k],
            seq_delete(s, 0, target, caxis) == seq_delete(s, j as int, target, caxis),
        decreases n - j,
    {
        let hit = match &work[j] {
            Element::Window { id, .. } => id.0 == target.0,
            _ => false,
        };
        if hit {
            let ghost w0 = work@;
            let removed = work.remove(j);
            assert(removed == gv@[j as int]);
            let adjust = if j == 0 {
                0
            } else {
                j - 1
            };
            let nb = work.remove(adjust);
            proof {
                if j == 0 {
                    assert(nb == w0.remove(0)[0]);
                    assert(w0.remove(0)[0] == w0[1]);
                    assert(node_view(nb) == s[1]);
                } else {
                    assert(nb == w0.remove(j as int)[j - 1]);
                    assert(w0.remove(j as int)[j - 1] == w0[j - 1]);
                    assert(node_view(nb) == s[j - 1]);
                }
                assert(node_view(nb) == s.remove(j as int)[adjust as int]);
                assert(wf(node_view(nb)));
            }
            let rm_rect = removed.size_pos();
            let nb_rect = nb.size_pos();
            let merged = match caxis {
                InsertWay::Vertical => {
                    let lo = if nb_rect.position.y <= rm_rect.position.y {
                        nb_rect.position.y
                    } else {
                        rm_rect.position.y
                    };
                    let nb_end = nb_rect.position.y + nb_rect.size.height;
                    let rm_end = rm_rect.position.y + rm_rect.size.height;
                    let hi = if nb_end >= rm_end {
                        nb_end
                    } else {
                        rm_end
                    };
                    SizeAndPos {
                        size: Size { width: nb_rect.size.width, height: hi - lo },
                        position: Position { x: nb_rect.position.x, y: lo },
                    }
                },
                InsertWay::Horizontal => {
                    let lo = if nb_rect.position.x <= rm_rect.position.x {
                        nb_rect.position.x
                    } else {
                        rm_rect.position.x
                    };
                    let nb_end = nb_rect.position.x + nb_rect.size.width;
                    let rm_end = rm_rect.position.x + rm_rect.size.width;
                    let hi = if nb_end >= rm_end {
                        nb_end
                    } else {
                        rm_end
                    };
                    SizeAndPos {
                        size: Size { width: hi - lo, height: nb_rect.size.height },
                        position: Position { x: lo, y: nb_rect.position.y },
                    }
                },
            };
            assert(merged == merged_rect(node_view(nb).size_pos(), s[j as int].size_pos(), caxis));
            let nb_share = nb.percent();
            let rm_share = removed.percent();
            let new_share = if nb_share <= u64::MAX - rm_share {
                nb_share + rm_share
            } else {
                u64::MAX
            };
            proof {
                lemma_merged_rect_bounded(
                    node_view(nb).size_pos(),
                    s[j as int].size_pos(),
                    caxis,
                );
            }
            let mut nb2 = crate::remap::remap_node_for(nb, merged, f);
            nb2.set_percentage(new_share);
            work.insert(adjust, nb2);
            proof {
                lemma_views_of_all(work@);
                let goal = remove_merge(s, j as int, caxis);
                assert forall|k: int| 0 <= k < goal.len() implies views_of(work@, 0)[k]
                    == goal[k] by {
                    if k < adjust {
                        assert(work@[k] == w0.remove(j as int)[k]);
                        assert(work@[k] == w0[k]);
                    } else if k > adjust {
                        assert(work@[k] == w0.remove(j as int).remove(adjust as int).insert(
                            adjust as int,
                            nb2,
                        )[k]);
                    }
                }
                assert(views_of(work@, 0) =~= goal);
            }
            return (work, true);
        }
        let child = work.remove(j);
        assert(child == gv@[j as int]);
        proof {
            assert(decreases_to!(gv => gv@[j as int]));
        }
        let (child2, ok) = delete_node(child, target, f);
        work.insert(j, child2);
        if ok {
            proof {
                lemma_views_of_all(work@);
                assert(views_of(work@, 0) =~= s.update(j as int, node_view(child2)));
            }
            return (work, true);
        }
        j = j + 1;
    }
    proof {
        lemma_views_of_all(work@);
        assert(views_of(work@, 0) =~= s);
    }
    (work, false)
}

/// Delete the pane `target` from the tree rooted at `e`.
fn delete_node<F: DispatchCallback>(e: Element, target: Id, f: &mut F) -> (r: (Element, bool))
    requires
        wf(e@),
    ensures
        (r.0@, r.1) == spec_delete(e@, target),
    decreases e,
{
    let ghost g = e;
    match e {
        Element::EmptyOutput(sp) => (Element::EmptyOutput(sp), false),
        Element::Window { id, size_pos, share } => {
            if id.0 == target.0 {
                (Element::EmptyOutput(size_pos), true)
            } else {
                (Element::Window { id, size_pos, share }, false)
            }
        },
        Element::Vertical { elements, size_pos, share, total } => {
            proof {
                assert(decreases_to!(g => elements));
                lemma_views_of_all(elements@);
            }
            let (mut els, ok) = delete_children(elements, target, InsertWay::Vertical, f);
            proof {
                lemma_views_of_all(els@);
                if !ok {
                    lemma_seq_delete_unchanged(
                        views_of(g->Vertical_elements@, 0),
                        0,
                        target,
                        InsertWay::Vertical,
                    );
                }
            }
            if ok && els.len() == 1 {
                proof {
                    lemma_views_of_all(els@);
                }
                let mut only = els.remove(0);
                only.set_percentage(share);
                only.set_size_and_pos(size_pos);
                (only, true)
            } else {
                (Element::Vertical { elements: els, size_pos, share, total }, ok)
            }
        },
        Element::Horizontal { elements, size_pos, share, total } => {
            proof {
                assert(decreases_to!(g => elements));
                lemma_views_of_all(elements@);
            }
            let (mut els, ok) = delete_children(elements, target, InsertWay::Horizontal, f);
            proof {
                lemma_views_of_all(els@);
                if !ok {
                    lemma_seq_delete_unchanged(
                        views_of(g->Horizontal_elements@, 0),
                        0,
                        target,
                        InsertWay::Horizontal,
                    );
                }
            }
            if ok && els.len() == 1 {
                proof {
                    lemma_views_of_all(els@);
                }
                let mut only = els.remove(0);
                only.set_percentage(share);
                only.set_size_and_pos(size_pos);
                (only, true)
            } else {
                (Element::Horizontal { elements: els, size_pos, share, total }, ok)
            }
        },
    }
}

impl Element {
    /// Delete the pane `target`: a tree of just that pane becomes empty;
    /// otherwise the sibling just before the pane (or the new first sibling,
    /// when the pane was first) takes over its room and its share, and a
    /// container left with one child collapses into that child. Fails,
    /// leaving the tree as it was, exactly when no pane holds `target`. The
    /// callback reports each pane of the expanded sibling's subtree with its
    /// new rectangle, in depth-first child order.
    pub fn delete<F: DispatchCallback>(&mut self, target: Id, f: &mut F) -> (r: Result<
        (),
        FlyjaError,
    >)
        requires
            wf(old(self)@),
        ensures
            r is Ok <==> contains_id(old(self)@, target),
            r is Ok ==> final(self)@ == spec_delete(old(self)@, target).0,
            r is Err ==> final(self)@ == old(self)@ && r == Err::<(), FlyjaError>(
                FlyjaError::ElementNotFound,
            ),
            wf(final(self)@),
            final(self)@.size_pos() == old(self)@.size_pos(),
            sums_ok(old(self)@) ==> sums_ok(final(self)@),
            tiled(old(self)@) ==> tiled(final(self)@),
    {
        proof {
            lemma_spec_delete_found(self@, target);
            lemma_spec_delete_props(self@, target);
        }
        let mut tmp = Element::EmptyOutput(
            SizeAndPos {
                size: Size { width: 0, height: 0 },
                position: Position { x: 0, y: 0 },
            },
        );
        core::mem::swap(self, &mut tmp);
        let (done, ok) = delete_node(tmp, target, f);
        *self = done;
        if ok {
            Ok(())
        } else {
            Err(FlyjaError::ElementNotFound)
        }
    }
}

} // verus!
