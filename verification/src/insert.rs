use vstd::prelude::*;

verus! {

use crate::model::{
    contains_id,
    lemma_sum_shares_insert,
    lemma_sum_shares_update,
    lemma_sums_children_build,
    lemma_sums_children_index,
    lemma_tiled_children_pointwise,
    lemma_tiled_splice,
    lemma_views_of_all,
    lemma_wf_children_build,
    lemma_wf_children_index,
    node_view,
    seq_contains_id,
    sum_shares,
    sums_children,
    sums_ok,
    tiled,
    tiled_children,
    views_of,
    wf,
    wf_children,
    NodeView,
};
use crate::utils::{split_part, split_rest, Direction, InsertWay, SizeAndPos};
use crate::{DispatchCallback, Element, FlyjaError, Id};

/// The edge of the anchor on which the split puts the part a newly inserted
/// pane takes: ahead of the anchor along the axis, or behind it.
pub open spec fn split_direction(axis: InsertWay, before: bool) -> Direction {
    match axis {
        InsertWay::Vertical => if before {
            Direction::Top
        } else {
            Direction::Bottom
        },
        InsertWay::Horizontal => if before {
            Direction::Left
        } else {
            Direction::Right
        },
    }
}

/// Whether every share in `s`, and `total`, may be doubled without leaving
/// `u64`.
pub open spec fn can_double(s: Seq<NodeView>, total: u64) -> bool {
    total <= 0x7fff_ffff_ffff_ffff && shares_below(s, 0)
}

pub open spec fn shares_below(s: Seq<NodeView>, i: int) -> bool
    decreases s, s.len() - i,
{
    if i < 0 || i >= s.len() {
        true
    } else {
        s[i].share() <= 0x7fff_ffff_ffff_ffff && shares_below(s, i + 1)
    }
}

/// Every share from `i` on doubled; nothing else changes.
pub open spec fn double_shares(s: Seq<NodeView>, i: int) -> Seq<NodeView>
    decreases s, s.len() - i,
{
    if i < 0 || i >= s.len() {
        Seq::empty()
    } else {
        seq![s[i].with_share((s[i].share() * 2) as u64)] + double_shares(s, i + 1)
    }
}

/// The split of the anchor window `s[j]`'s slot into the anchor and the new
/// pane: the anchor's share is divided in two (after doubling every share in
/// the container when an odd share could not otherwise be divided), its
/// rectangle is split in half along the container's axis, and the new pane
/// is placed just before or just after the anchor. Returns the new child
/// sequence and the container's new share total.
pub open spec fn spec_splice(
    s: Seq<NodeView>,
    j: int,
    new_id: Id,
    axis: InsertWay,
    before: bool,
    total: u64,
) -> (Seq<NodeView>, u64) {
    let w = s[j];
    let n0 = w.share();
    let dbl = n0 % 2 == 1 && can_double(s, total);
    let s1 = if dbl {
        double_shares(s, 0)
    } else {
        s
    };
    let t1 = if dbl {
        (total * 2) as u64
    } else {
        total
    };
    let n1 = if dbl {
        (n0 * 2) as u64
    } else {
        n0
    };
    let first_share = n1 / 2;
    let second_share = (n1 - n1 / 2) as u64;
    let d = split_direction(axis, before);
    let rect = w.size_pos();
    let part = split_part(rect, d);
    let rest = split_rest(rect, d);
    let anchor = s1[j].with_size_pos(rest).with_share(
        if before {
            second_share
        } else {
            first_share
        },
    );
    let neww = NodeView::Window {
        id: new_id,
        size_pos: part,
        share: if before {
            first_share
        } else {
            second_share
        },
    };
    let children = if before {
        s1.update(j, anchor).insert(j, neww)
    } else {
        s1.update(j, anchor).insert(j + 1, neww)
    };
    (children, t1)
}

/// What insert does: an empty tree becomes the new pane; the anchor pane is
/// split in half along the requested axis, in place when its container
/// already runs along that axis, and into a nested two-child container
/// otherwise; the first container found to hold the anchor, searching
/// depth-first in child order, takes the new pane. The second component
/// tells whether the anchor was found.
pub open spec fn spec_insert(
    nv: NodeView,
    new_id: Id,
    target: Id,
    axis: InsertWay,
    before: bool,
) -> (NodeView, bool)
    decreases nv, 1int,
{
    match nv {
        NodeView::Empty(sp) => (NodeView::Window { id: new_id, size_pos: sp, share: 1 }, true),
        NodeView::Window { id, size_pos, share } => {
            if id != target {
                (nv, false)
            } else {
                let d = split_direction(axis, before);
                let part = split_part(size_pos, d);
                let rest = split_rest(size_pos, d);
                let anchor = NodeView::Window { id, size_pos: rest, share: 1 };
                let neww = NodeView::Window { id: new_id, size_pos: part, share: 1 };
                let children = if before {
                    seq![neww, anchor]
                } else {
                    seq![anchor, neww]
                };
                (
                    NodeView::Container { axis, children, size_pos, share, total: 2 },
                    true,
                )
            }
        },
        NodeView::Container { axis: caxis, children, size_pos, share, total } => {
            let (children2, total2, ok) = seq_insert(
                children,
                0,
                new_id,
                target,
                axis,
                before,
                caxis,
                total,
            );
            if ok {
                (
                    NodeView::Container {
                        axis: caxis,
                        children: children2,
                        size_pos,
                        share,
                        total: total2,
                    },
                    true,
                )
            } else {
                (nv, false)
            }
        },
    }
}

/// Insert under the first child from `i` on that holds the anchor: an
/// anchor pane sitting directly in a container of the right axis is split
/// in place; any other occurrence is handled inside the child that holds
/// it.
pub open spec fn seq_insert(
    s: Seq<NodeView>,
    i: int,
    new_id: Id,
    target: Id,
    axis: InsertWay,
    before: bool,
    caxis: InsertWay,
    total: u64,
) -> (Seq<NodeView>, u64, bool)
    decreases s, s.len() - i,
{
    if i < 0 || i >= s.len() {
        (s, total, false)
    } else if s[i] matches NodeView::Window { id, .. } && id == target && axis == caxis {
        let (children, t1) = spec_splice(s, i, new_id, axis, before, total);
        (children, t1, true)
    } else {
        let (c2, ok) = spec_insert(s[i], new_id, target, axis, before);
        if ok {
            (s.update(i, c2), total, true)
        } else {
            seq_insert(s, i + 1, new_id, target, axis, before, caxis, total)
        }
    }
}


/// An insert that found no anchor leaves the children and the total alone.
pub proof fn lemma_seq_insert_unchanged(
    s: Seq<NodeView>,
    i: int,
    new_id: Id,
    target: Id,
    axis: InsertWay,
    before: bool,
    caxis: InsertWay,
    total: u64,
)
    requires
        0 <= i <= s.len(),
        !seq_insert(s, i, new_id, target, axis, before, caxis, total).2,
    ensures
        seq_insert(s, i, new_id, target, axis, before, caxis, total) == (s, total, false),
    decreases s.len() - i,
{
    if i < s.len() {
        lemma_seq_insert_unchanged(s, i + 1, new_id, target, axis, before, caxis, total);
    }
}

/// Whether doubling every share would stay within `u64`.
fn can_double_exec(elements: &Vec<Element>, total: u64) -> (r: bool)
    ensures
        r == can_double(views_of(elements@, 0), total),
{
    let ghost s = views_of(elements@, 0);
    proof {
        lemma_views_of_all(elements@);
    }
    if total > 0x7fff_ffff_ffff_ffff {
        return false;
    }
    let n = elements.len();
    let mut i: usize = 0;
    while i < n
        invariant
            0 <= i <= n,
            n == elements@.len(),
            s == views_of(elements@, 0),
            s.len() == n,
            forall|j: int| 0 <= j < n ==> s[j] == node_view(elements@[j]),
            shares_below(s, 0) == shares_below(s, i as int),
        decreases n - i,
    {
        if elements[i].percent() > 0x7fff_ffff_ffff_ffff {
            return false;
        }
        i = i + 1;
    }
    true
}

/// `double_shares` is pointwise share doubling.
proof fn lemma_double_shares_char(s: Seq<NodeView>, i: int)
    requires
        0 <= i <= s.len(),
    ensures
        double_shares(s, i).len() == s.len() - i,
        forall|j: int|
            i <= j < s.len() ==> double_shares(s, i)[j - i] == s[j].with_share(
                (s[j].share() * 2) as u64,
            ),
    decreases s.len() - i,
{
    if i < s.len() {
        lemma_double_shares_char(s, i + 1);
    }
}

/// Double every share in the container.
fn double_all(elements: &mut Vec<Element>)
    requires
        shares_below(views_of(old(elements)@, 0), 0),
    ensures
        views_of(final(elements)@, 0) == double_shares(views_of(old(elements)@, 0), 0),
        final(elements)@.len() == old(elements)@.len(),
{
    let ghost orig = elements@;
    let ghost s = views_of(orig, 0);
    proof {
        lemma_views_of_all(orig);
        lemma_double_shares_char(s, 0);
        lemma_shares_below_index(s, 0);
    }
    let n = elements.len();
    let mut i: usize = 0;
    while i < n
        invariant
            0 <= i <= n,
            n == orig.len(),
            elements@.len() == n,
            s == views_of(orig, 0),
            s.len() == n,
            forall|j: int| 0 <= j < n ==> s[j] == node_view(orig[j]),
            forall|j: int| 0 <= j < n ==> (#[trigger] s[j]).share() <= 0x7fff_ffff_ffff_ffff,
            forall|j: int| i <= j < n ==> elements@[j] == orig[j],
            forall|j: int|
                0 <= j < i ==> node_view(#[trigger] elements@[j]) == s[j].with_share(
                    (s[j].share() * 2) as u64,
                ),
        decreases n - i,
    {
        let mut child = elements.remove(i);
        let doubled = child.percent() * 2;
        child.set_percentage(doubled);
        elements.insert(i, child);
        i = i + 1;
    }
    proof {
        lemma_views_of_all(elements@);
        assert(views_of(elements@, 0) =~= double_shares(s, 0));
    }
}

pub proof fn lemma_shares_below_index(s: Seq<NodeView>, i: int)
    requires
        0 <= i <= s.len(),
        shares_below(s, i),
    ensures
        forall|j: int| i <= j < s.len() ==> (#[trigger] s[j]).share() <= 0x7fff_ffff_ffff_ffff,
    decreases s.len() - i,
{
    if i < s.len() {
        lemma_shares_below_index(s, i + 1);
    }
}

/// Insert `new_id` under the first child from `i` on that holds `target`.
#[verifier::loop_isolation(false)]
fn insert_children<F: DispatchCallback>(
    elements: Vec<Element>,
    new_id: Id,
    target: Id,
    axis: InsertWay,
    before: bool,
    caxis: InsertWay,
    total: u64,
    f: &mut F,
) -> (r: (Vec<Element>, u64, bool))
    requires
        wf_children(views_of(elements@, 0), 0),
    ensures
        (views_of(r.0@, 0), r.1, r.2) == seq_insert(
            views_of(elements@, 0),
            0,
            new_id,
            target,
            axis,
            before,
            caxis,
            total,
        ),
    decreases elements,
{
    let ghost gv = elements;
    let ghost s = views_of(elements@, 0);
    proof {
        lemma_views_of_all(elements@);
        lemma_wf_children_index(s, 0);
    }
    let mut work = elements;
    let n = work.len();
    let mut j: usize = 0;
    while j < n
        invariant
            0 <= j <= n,
            n == gv@.len(),
            work@.len() == n,
            s == views_of(gv@, 0),
            s.len() == n,
            forall|k: int| 0 <= k < n ==> s[k] == node_view(gv@[k]),
            forall|k: int| 0 <= k < n ==> wf(#[trigger] s[k]),
            forall|k: int| j <= k < n ==> work@[k] == gv@[k],
            forall|k: int| 0 <= k < j ==> node_view(#[trigger] work@[k]) == s[k],
            seq_insert(s, 0, new_id, target, axis, before, caxis, total) == seq_insert(
                s,
                j as int,
                new_id,
                target,
                axis,
                before,
                caxis,
                total,
            ),
        decreases n - j,
    {
        let hit = match &work[j] {
            Element::Window { id, .. } => id.0 == target.0,
            _ => false,
        };
        if hit && axis == caxis {
            proof {
                lemma_views_of_all(work@);
                assert(views_of(work@, 0) =~= s);
            }
            assert(s[j as int] is Window);
            let r = splice_exec(work, j, new_id, target, axis, before, total, f);
            return (r.0, r.1, true);
        }
        let child = work.remove(j);
        assert(child == gv@[j as int]);
        proof {
            assert(decreases_to!(gv => gv@[j as int]));
        }
        let (child2, ok) = insert_node(child, new_id, target, axis, before, f);
        work.insert(j, child2);
        if ok {
            proof {
                assert(views_of(work@, 0) =~= s.update(
                    j as int,
                    node_view(child2),
                )) by {
                    lemma_views_of_all(work@);
                }
            }
            return (work, total, true);
        }
        j = j + 1;
    }
    proof {
        lemma_views_of_all(work@);
        assert(views_of(work@, 0) =~= s);
    }
    (work, total, false)
}

/// Split the anchor window at index `j` in place, reporting the resized
/// anchor and then the new pane.
fn splice_exec<F: DispatchCallback>(
    elements: Vec<Element>,
    j: usize,
    new_id: Id,
    target: Id,
    axis: InsertWay,
    before: bool,
    total: u64,
    f: &mut F,
) -> (r: (Vec<Element>, u64))
    requires
        0 <= j < elements@.len(),
        views_of(elements@, 0)[j as int] is Window,
        wf_children(views_of(elements@, 0), 0),
    ensures
        (views_of(r.0@, 0), r.1) == spec_splice(
            views_of(elements@, 0),
            j as int,
            new_id,
            axis,
            before,
            total,
        ),
{
    let ghost s = views_of(elements@, 0);
    proof {
        lemma_views_of_all(elements@);
        lemma_wf_children_index(s, 0);
    }
    let mut work = elements;
    let nlen = work.len();
    let n0 = work[j].percent();
    let dbl = n0 % 2 == 1 && can_double_exec(&work, total);
    let ghost s1 = if dbl {
        double_shares(s, 0)
    } else {
        s
    };
    let t1 = if dbl {
        double_all(&mut work);
        total * 2
    } else {
        total
    };
    proof {
        if dbl {
            lemma_double_shares_char(s, 0);
            lemma_views_of_all(work@);
            assert(views_of(work@, 0) =~= s1);
        }
    }
    let mut child = work.remove(j);
    assert(node_view(child) == s1[j as int]);
    let n1 = child.percent();
    assert(n1 == (if dbl {
        (s[j as int].share() * 2) as u64
    } else {
        s[j as int].share()
    }));
    let first = n1 / 2;
    let second = n1 - n1 / 2;
    let d = match (axis, before) {
        (InsertWay::Vertical, true) => Direction::Top,
        (InsertWay::Vertical, false) => Direction::Bottom,
        (InsertWay::Horizontal, true) => Direction::Left,
        (InsertWay::Horizontal, false) => Direction::Right,
    };
    let mut rect = child.size_pos();
    let part = rect.split(d);
    child.set_size_and_pos(rect);
    child.set_percentage(if before {
        second
    } else {
        first
    });
    f.callback(target, rect);
    f.callback(new_id, part);
    let neww = Element::Window {
        id: new_id,
        size_pos: part,
        share: if before {
            first
        } else {
            second
        },
    };
    if before {
        work.insert(j, child);
        work.insert(j, neww);
    } else {
        work.insert(j, child);
        work.insert(j + 1, neww);
    }
    proof {
        lemma_views_of_all(work@);
        let pair = spec_splice(s, j as int, new_id, axis, before, total);
        assert(views_of(work@, 0) =~= pair.0);
    }
    (work, t1)
}

/// Insert `new_id` at the pane `target`, splitting along `axis`, the new
/// pane on the near side when `before` holds.
fn insert_node<F: DispatchCallback>(
    e: Element,
    new_id: Id,
    target: Id,
    axis: InsertWay,
    before: bool,
    f: &mut F,
) -> (r: (Element, bool))
    requires
        wf(e@),
    ensures
        (r.0@, r.1) == spec_insert(e@, new_id, target, axis, before),
    decreases e,
{
    let ghost g = e;
    match e {
        Element::EmptyOutput(sp) => {
            f.callback(new_id, sp);
            (Element::Window { id: new_id, size_pos: sp, share: 1 }, true)
        },
        Element::Window { id, size_pos, share } => {
            if id.0 != target.0 {
                (Element::Window { id, size_pos, share }, false)
            } else {
                let d = match (axis, before) {
                    (InsertWay::Vertical, true) => Direction::Top,
                    (InsertWay::Vertical, false) => Direction::Bottom,
                    (InsertWay::Horizontal, true) => Direction::Left,
                    (InsertWay::Horizontal, false) => Direction::Right,
                };
                let mut rect = size_pos;
                let part = rect.split(d);
                f.callback(id, rect);
                f.callback(new_id, part);
                let anchor = Element::Window { id, size_pos: rect, share: 1 };
                let neww = Element::Window { id: new_id, size_pos: part, share: 1 };
                let elements = if before {
                    vec![neww, anchor]
                } else {
                    vec![anchor, neww]
                };
                proof {
                    lemma_views_of_all(elements@);
                    assert(views_of(elements@, 0) =~= spec_insert(
                        g@,
                        new_id,
                        target,
                        axis,
                        before,
                    ).0->Container_children);
                }
                let made = match axis {
                    InsertWay::Vertical => Element::Vertical {
                        elements,
                        size_pos,
                        share,
                        total: 2,
                    },
                    InsertWay::Horizontal => Element::Horizontal {
                        elements,
                        size_pos,
                        share,
                        total: 2,
                    },
                };
                (made, true)
            }
        },
        Element::Vertical { elements, size_pos, share, total } => {
            proof {
                assert(decreases_to!(g => elements));
            }
            let (els, t2, ok) = insert_children(
                elements,
                new_id,
                target,
                axis,
                before,
                InsertWay::Vertical,
                total,
                f,
            );
            proof {
                if !ok {
                    lemma_seq_insert_unchanged(
                        views_of(g->Vertical_elements@, 0),
                        0,
                        new_id,
                        target,
                        axis,
                        before,
                        InsertWay::Vertical,
                        total,
                    );
                }
            }
            (Element::Vertical { elements: els, size_pos, share, total: t2 }, ok)
        },
        Element::Horizontal { elements, size_pos, share, total } => {
            proof {
                assert(decreases_to!(g => elements));
            }
            let (els, t2, ok) = insert_children(
                elements,
                new_id,
                target,
                axis,
                before,
                InsertWay::Horizontal,
                total,
                f,
            );
            proof {
                if !ok {
                    lemma_seq_insert_unchanged(
                        views_of(g->Horizontal_elements@, 0),
                        0,
                        new_id,
                        target,
                        axis,
                        before,
                        InsertWay::Horizontal,
                        total,
                    );
                }
            }
            (Element::Horizontal { elements: els, size_pos, share, total: t2 }, ok)
        },
    }
}


/// Changing a node's share leaves everything else about it alone.
pub proof fn lemma_with_share_same(x: NodeView, k: u64)
    ensures
        x.with_share(k).size_pos() == x.size_pos(),
        wf(x.with_share(k)) == wf(x),
        tiled(x.with_share(k)) == tiled(x),
        sums_ok(x.with_share(k)) == sums_ok(x),
        x.with_share(k) is Empty <==> x is Empty,
        x is Empty ==> x.with_share(k) == x,
        !(x is Empty) ==> x.with_share(k).share() == k,
{
}

/// Doubled shares, pointwise: geometry and subtrees are untouched.
pub proof fn lemma_double_shares_props(s: Seq<NodeView>)
    ensures
        double_shares(s, 0).len() == s.len(),
        forall|j: int|
            0 <= j < s.len() ==> (#[trigger] double_shares(s, 0)[j]).size_pos()
                == s[j].size_pos() && wf(double_shares(s, 0)[j]) == wf(s[j]) && tiled(
                double_shares(s, 0)[j],
            ) == tiled(s[j]) && sums_ok(double_shares(s, 0)[j]) == sums_ok(s[j]) && (
            double_shares(s, 0)[j] is Empty <==> s[j] is Empty) && double_shares(s, 0)[j].share()
                as int == (if s[j] is Empty {
                1int
            } else {
                ((s[j].share() * 2) as u64) as int
            }),
{
    lemma_double_shares_char(s, 0);
    assert forall|j: int| 0 <= j < s.len() implies (#[trigger] double_shares(s, 0)[j]).size_pos()
        == s[j].size_pos() && wf(double_shares(s, 0)[j]) == wf(s[j]) && tiled(
        double_shares(s, 0)[j],
    ) == tiled(s[j]) && sums_ok(double_shares(s, 0)[j]) == sums_ok(s[j]) && (double_shares(s, 0)[j]
        is Empty <==> s[j] is Empty) && double_shares(s, 0)[j].share() as int == (if s[j]
        is Empty {
        1int
    } else {
        ((s[j].share() * 2) as u64) as int
    }) by {
        assert(double_shares(s, 0)[j - 0] == s[j].with_share((s[j].share() * 2) as u64));
        lemma_with_share_same(s[j], (s[j].share() * 2) as u64);
    }
}

/// Under `shares_below`, doubling every share doubles the sum exactly.
pub proof fn lemma_double_shares_sum(s: Seq<NodeView>, i: int)
    requires
        0 <= i <= s.len(),
        shares_below(s, 0),
        forall|j: int| 0 <= j < s.len() ==> !(#[trigger] s[j] is Empty),
    ensures
        sum_shares(double_shares(s, 0), i) == 2 * sum_shares(s, i),
    decreases s.len() - i,
{
    lemma_double_shares_props(s);
    lemma_shares_below_index(s, 0);
    if i < s.len() {
        lemma_double_shares_sum(s, i + 1);
    }
}

/// What the in-place split guarantees: one more child, well-formedness
/// kept, share bookkeeping kept exactly, and the container still tiled.
pub proof fn lemma_spec_splice_props(
    s: Seq<NodeView>,
    j: int,
    new_id: Id,
    axis: InsertWay,
    before: bool,
    total: u64,
    sp: SizeAndPos,
    cur: int,
)
    requires
        0 <= j < s.len(),
        s[j] is Window,
        wf_children(s, 0),
    ensures
        spec_splice(s, j, new_id, axis, before, total).0.len() == s.len() + 1,
        wf_children(spec_splice(s, j, new_id, axis, before, total).0, 0),
        (total as int == sum_shares(s, 0) && sums_children(s, 0)) ==> (spec_splice(
            s,
            j,
            new_id,
            axis,
            before,
            total,
        ).1 as int == sum_shares(spec_splice(s, j, new_id, axis, before, total).0, 0)
            && sums_children(spec_splice(s, j, new_id, axis, before, total).0, 0)),
        tiled_children(s, 0, sp, axis, cur) ==> tiled_children(
            spec_splice(s, j, new_id, axis, before, total).0,
            0,
            sp,
            axis,
            cur,
        ),
{
    let w = s[j];
    let n0 = w.share();
    let dbl = n0 % 2 == 1 && can_double(s, total);
    let s1 = if dbl {
        double_shares(s, 0)
    } else {
        s
    };
    let t1 = if dbl {
        (total * 2) as u64
    } else {
        total
    };
    let n1 = if dbl {
        (n0 * 2) as u64
    } else {
        n0
    };
    let first_share = n1 / 2;
    let second_share = (n1 - n1 / 2) as u64;
    let d = split_direction(axis, before);
    let rect = w.size_pos();
    let part = split_part(rect, d);
    let rest = split_rest(rect, d);
    let anchor = s1[j].with_size_pos(rest).with_share(
        if before {
            second_share
        } else {
            first_share
        },
    );
    let neww = NodeView::Window {
        id: new_id,
        size_pos: part,
        share: if before {
            first_share
        } else {
            second_share
        },
    };
    let s2 = spec_splice(s, j, new_id, axis, before, total).0;
    lemma_wf_children_index(s, 0);
    if dbl {
        lemma_double_shares_props(s);
        lemma_double_shares_sum(s, 0);
    }
    assert(s1.len() == s.len());
    assert(forall|k: int|
        0 <= k < s.len() ==> (#[trigger] s1[k]).size_pos() == s[k].size_pos() && wf(s1[k]) == wf(
            s[k],
        ) && tiled(s1[k]) == tiled(s[k]) && sums_ok(s1[k]) == sums_ok(s[k]) && (s1[k] is Empty
            <==> s[k] is Empty)) by {
        if dbl {
            lemma_double_shares_props(s);
        }
    }
    if dbl {
        lemma_double_shares_char(s, 0);
        assert(double_shares(s, 0)[j - 0] == s[j].with_share((s[j].share() * 2) as u64));
    }
    assert(s1[j] is Window);
    assert(anchor is Window);
    let firstc = if before {
        neww
    } else {
        anchor
    };
    let secondc = if before {
        anchor
    } else {
        neww
    };
    assert(s2 =~= s1.update(j, firstc).insert(j + 1, secondc));
    // well-formedness, pointwise
    assert forall|k: int| 0 <= k < s2.len() implies wf(#[trigger] s2[k]) && !(s2[k] is Empty) by {
        if k < j {
            assert(s2[k] == s1[k]);
        } else if k == j {
            assert(s2[k] == firstc);
        } else if k == j + 1 {
            assert(s2[k] == secondc);
        } else {
            assert(s2[k] == s1[k - 1]);
        }
    }
    lemma_wf_children_build(s2, 0);
    // share sums
    if total as int == sum_shares(s, 0) && sums_children(s, 0) {
        lemma_sums_children_index(s, 0);
        if dbl {
            assert(t1 as int == sum_shares(s1, 0));
        }
        assert(n1 as int == s1[j].share());
        lemma_sum_shares_update(s1, 0, j, anchor);
        if before {
            lemma_sum_shares_insert(s1.update(j, anchor), 0, j, neww);
            assert(s2 =~= s1.update(j, anchor).insert(j, neww));
            assert(sum_shares(s1.update(j, anchor).insert(j, neww), 0) == sum_shares(s1, 0)
                - n1 + second_share + first_share);
        } else {
            lemma_sum_shares_insert(s1.update(j, anchor), 0, j + 1, neww);
            assert(sum_shares(s2, 0) == sum_shares(s1, 0) - n1 + first_share + second_share);
        }
        assert forall|k: int| 0 <= k < s2.len() implies sums_ok(#[trigger] s2[k]) by {
            if dbl {
                lemma_double_shares_props(s);
            }
            if k < j {
                assert(s2[k] == s1[k]);
            } else if k == j {
                assert(s2[k] == firstc);
            } else if k == j + 1 {
                assert(s2[k] == secondc);
            } else {
                assert(s2[k] == s1[k - 1]);
            }
        }
        lemma_sums_children_build(s2, 0);
    }
    // tiling
    if tiled_children(s, 0, sp, axis, cur) {
        lemma_tiled_children_pointwise(s, s1, 0, sp, axis, cur);
        lemma_tiled_splice(s1, 0, j, sp, axis, cur, firstc, secondc);
        crate::model::lemma_tiled_children_shifted_eq(
            s1.update(j, firstc).insert(j + 1, secondc),
            s2,
            0,
            sp,
            axis,
            cur,
        );
    }
}


/// Insert finds the anchor exactly when the tree is empty or holds it.
pub proof fn lemma_spec_insert_found(
    nv: NodeView,
    new_id: Id,
    target: Id,
    axis: InsertWay,
    before: bool,
)
    requires
        wf(nv),
    ensures
        spec_insert(nv, new_id, target, axis, before).1 == (nv is Empty || contains_id(
            nv,
            target,
        )),
    decreases nv, 1int,
{
    match nv {
        NodeView::Empty(_) => {},
        NodeView::Window { .. } => {},
        NodeView::Container { axis: caxis, children, total, .. } => {
            lemma_wf_children_index(children, 0);
            lemma_seq_insert_found(children, 0, new_id, target, axis, before, caxis, total);
        },
    }
}

proof fn lemma_seq_insert_found(
    s: Seq<NodeView>,
    i: int,
    new_id: Id,
    target: Id,
    axis: InsertWay,
    before: bool,
    caxis: InsertWay,
    total: u64,
)
    requires
        0 <= i <= s.len(),
        forall|k: int| 0 <= k < s.len() ==> !(#[trigger] s[k] is Empty) && wf(s[k]),
    ensures
        seq_insert(s, i, new_id, target, axis, before, caxis, total).2 == seq_contains_id(
            s,
            i,
            target,
        ),
    decreases s, s.len() - i,
{
    if i < s.len() {
        lemma_spec_insert_found(s[i], new_id, target, axis, before);
        lemma_seq_insert_found(s, i + 1, new_id, target, axis, before, caxis, total);
    }
}

/// What a successful insert preserves: well-formedness, the node's own
/// rectangle and share, exact share bookkeeping, and tiling. A failed
/// insert changes nothing.
pub proof fn lemma_spec_insert_props(
    nv: NodeView,
    new_id: Id,
    target: Id,
    axis: InsertWay,
    before: bool,
)
    requires
        wf(nv),
    ensures
        wf(spec_insert(nv, new_id, target, axis, before).0),
        spec_insert(nv, new_id, target, axis, before).0.size_pos() == nv.size_pos(),
        spec_insert(nv, new_id, target, axis, before).0.share() == nv.share(),
        !(spec_insert(nv, new_id, target, axis, before).0 is Empty) || nv is Empty,
        sums_ok(nv) ==> sums_ok(spec_insert(nv, new_id, target, axis, before).0),
        tiled(nv) ==> tiled(spec_insert(nv, new_id, target, axis, before).0),
        !spec_insert(nv, new_id, target, axis, before).1 ==> spec_insert(
            nv,
            new_id,
            target,
            axis,
            before,
        ).0 == nv,
    decreases nv, 1int,
{
    match nv {
        NodeView::Empty(_) => {},
        NodeView::Window { id, size_pos, share } => {
            if id == target {
                let d = split_direction(axis, before);
                crate::utils::lemma_split_bounded(size_pos, d);
                let part = crate::utils::split_part(size_pos, d);
                let rest = crate::utils::split_rest(size_pos, d);
                let anchor = NodeView::Window { id, size_pos: rest, share: 1u64 };
                let neww = NodeView::Window { id: new_id, size_pos: part, share: 1u64 };
                let ch = spec_insert(nv, new_id, target, axis, before).0->Container_children;
                assert(ch.len() == 2);
                if before {
                    assert(ch[0] == neww);
                    assert(ch[1] == anchor);
                } else {
                    assert(ch[0] == anchor);
                    assert(ch[1] == neww);
                }
                assert(wf(ch[0]));
                assert(wf(ch[1]));
                assert(wf_children(ch, 2));
                assert(wf_children(ch, 1));
                assert(wf_children(ch, 0));
                assert(sum_shares(ch, 2) == 0);
                assert(sum_shares(ch, 1) == 1);
                assert(sum_shares(ch, 0) == 2);
                assert(sums_ok(ch[0]));
                assert(sums_ok(ch[1]));
                assert(sums_children(ch, 2));
                assert(sums_children(ch, 1));
                assert(sums_children(ch, 0));
                let start = crate::model::axis_start(size_pos, axis);
                let e0 = crate::model::axis_extent(ch[0].size_pos(), axis);
                let e1 = crate::model::axis_extent(ch[1].size_pos(), axis);
                assert(tiled(ch[0]));
                assert(tiled(ch[1]));
                assert(crate::model::child_slot_ok(ch[0], size_pos, axis, start));
                assert(crate::model::child_slot_ok(ch[1], size_pos, axis, start + e0));
                assert(tiled_children(ch, 2, size_pos, axis, start + e0 + e1));
                assert(tiled_children(ch, 1, size_pos, axis, start + e0));
                assert(tiled_children(ch, 0, size_pos, axis, start));
            }
        },
        NodeView::Container { axis: caxis, children, size_pos, share, total } => {
            let tr = seq_insert(children, 0, new_id, target, axis, before, caxis, total);
            lemma_seq_insert_props(
                children,
                0,
                new_id,
                target,
                axis,
                before,
                caxis,
                total,
                size_pos,
                crate::model::axis_start(size_pos, caxis),
            );
            if !tr.2 {
                lemma_seq_insert_unchanged(children, 0, new_id, target, axis, before, caxis, total);
            }
        },
    }
}

/// The children's part of `lemma_spec_insert_props`.
proof fn lemma_seq_insert_props(
    s: Seq<NodeView>,
    i: int,
    new_id: Id,
    target: Id,
    axis: InsertWay,
    before: bool,
    caxis: InsertWay,
    total: u64,
    sp: SizeAndPos,
    cur: int,
)
    requires
        0 <= i <= s.len(),
        wf_children(s, 0),
    ensures
        seq_insert(s, i, new_id, target, axis, before, caxis, total).0.len() >= s.len(),
        seq_insert(s, i, new_id, target, axis, before, caxis, total).0.len() <= s.len() + 1,
        seq_insert(s, i, new_id, target, axis, before, caxis, total).2 ==> wf_children(
            seq_insert(s, i, new_id, target, axis, before, caxis, total).0,
            0,
        ),
        seq_insert(s, i, new_id, target, axis, before, caxis, total).2 && total as int
            == sum_shares(s, 0) && sums_children(s, 0) ==> seq_insert(
            s,
            i,
            new_id,
            target,
            axis,
            before,
            caxis,
            total,
        ).1 as int == sum_shares(seq_insert(s, i, new_id, target, axis, before, caxis, total).0, 0)
            && sums_children(seq_insert(s, i, new_id, target, axis, before, caxis, total).0, 0),
        seq_insert(s, i, new_id, target, axis, before, caxis, total).2 && tiled_children(
            s,
            0,
            sp,
            caxis,
            cur,
        ) ==> tiled_children(
            seq_insert(s, i, new_id, target, axis, before, caxis, total).0,
            0,
            sp,
            caxis,
            cur,
        ),
    decreases s, s.len() - i,
{
    if i < s.len() {
        lemma_wf_children_index(s, 0);
        if s[i] matches NodeView::Window { id, .. } && id == target && axis == caxis {
            lemma_spec_splice_props(s, i, new_id, axis, before, total, sp, cur);
        } else {
            lemma_spec_insert_props(s[i], new_id, target, axis, before);
            let (c2, ok) = spec_insert(s[i], new_id, target, axis, before);
            if ok {
                let s2 = s.update(i, c2);
                assert forall|k: int| 0 <= k < s2.len() implies wf(#[trigger] s2[k]) && !(s2[k]
                    is Empty) by {
                    if k != i {
                        assert(s2[k] == s[k]);
                    }
                }
                lemma_wf_children_build(s2, 0);
                if total as int == sum_shares(s, 0) && sums_children(s, 0) {
                    lemma_sum_shares_update(s, 0, i, c2);
                    lemma_sums_children_index(s, 0);
                    assert forall|k: int| 0 <= k < s2.len() implies sums_ok(#[trigger] s2[k]) by {
                        if k != i {
                            assert(s2[k] == s[k]);
                        }
                    }
                    lemma_sums_children_build(s2, 0);
                }
                if tiled_children(s, 0, sp, caxis, cur) {
                    crate::model::lemma_tiled_children_index(s, 0, sp, caxis, cur);
                    assert(tiled(s[i]));
                    crate::model::lemma_tiled_children_update(s, 0, i, sp, caxis, cur, c2);
                }
            } else {
                lemma_seq_insert_props(
                    s,
                    i + 1,
                    new_id,
                    target,
                    axis,
                    before,
                    caxis,
                    total,
                    sp,
                    cur,
                );
            }
        }
    }
}


impl Element {
    /// Insert the pane `id` by splitting the pane `target` in half along
    /// the axis of `way`; the anchor keeps the near half and the new pane
    /// takes the far half, as the next sibling when the anchor's container
    /// already runs along that axis and inside a new nested container
    /// otherwise. On an empty tree the new pane takes the whole rectangle,
    /// whatever `target` is. Fails, leaving the tree as it was, exactly when
    /// a non-empty tree holds no pane `target`. The callback reports the
    /// resized anchor and then the new pane; on an empty tree, just the new
    /// pane.
    pub fn insert<F: DispatchCallback>(
        &mut self,
        id: Id,
        target: Id,
        way: InsertWay,
        f: &mut F,
    ) -> (r: Result<(), FlyjaError>)
        requires
            wf(old(self)@),
        ensures
            r is Ok <==> (old(self)@ is Empty || contains_id(old(self)@, target)),
            r is Ok ==> final(self)@ == spec_insert(old(self)@, id, target, way, false).0,
            r is Err ==> final(self)@ == old(self)@ && r == Err::<(), FlyjaError>(
                FlyjaError::ElementNotFound,
            ),
            wf(final(self)@),
            final(self)@.size_pos() == old(self)@.size_pos(),
            sums_ok(old(self)@) ==> sums_ok(final(self)@),
            tiled(old(self)@) ==> tiled(final(self)@),
    {
        proof {
            lemma_spec_insert_found(self@, id, target, way, false);
            lemma_spec_insert_props(self@, id, target, way, false);
        }
        let mut tmp = Element::EmptyOutput(
            SizeAndPos {
                size: crate::utils::Size { width: 0, height: 0 },
                position: crate::utils::Position { x: 0, y: 0 },
            },
        );
        core::mem::swap(self, &mut tmp);
        let (done, ok) = insert_node(tmp, id, target, way, false, f);
        *self = done;
        if ok {
            Ok(())
        } else {
            Err(FlyjaError::ElementNotFound)
        }
    }

    /// Insert the pane `id` on the `direction` side of the pane `target`:
    /// the anchor's place is split in half along the axis of `direction`
    /// and the new pane takes the half toward `direction`, sitting before
    /// the anchor for `Top` and `Left` and after it for `Bottom` and
    /// `Right`. Everything else is as for `insert`.
    pub fn insert_toward<F: DispatchCallback>(
        &mut self,
        id: Id,
        target: Id,
        direction: Direction,
        f: &mut F,
    ) -> (r: Result<(), FlyjaError>)
        requires
            wf(old(self)@),
        ensures
            r is Ok <==> (old(self)@ is Empty || contains_id(old(self)@, target)),
            r is Ok ==> final(self)@ == spec_insert(
                old(self)@,
                id,
                target,
                direction.axis(),
                direction == Direction::Top || direction == Direction::Left,
            ).0,
            r is Err ==> final(self)@ == old(self)@ && r == Err::<(), FlyjaError>(
                FlyjaError::ElementNotFound,
            ),
            wf(final(self)@),
            final(self)@.size_pos() == old(self)@.size_pos(),
            sums_ok(old(self)@) ==> sums_ok(final(self)@),
            tiled(old(self)@) ==> tiled(final(self)@),
    {
        let axis = match direction {
            Direction::Top | Direction::Bottom => InsertWay::Vertical,
            Direction::Left | Direction::Right => InsertWay::Horizontal,
        };
        let before = match direction {
            Direction::Top | Direction::Left => true,
            Direction::Bottom | Direction::Right => false,
        };
        proof {
            lemma_spec_insert_found(self@, id, target, axis, before);
            lemma_spec_insert_props(self@, id, target, axis, before);
        }
        let mut tmp = Element::EmptyOutput(
            SizeAndPos {
                size: crate::utils::Size { width: 0, height: 0 },
                position: crate::utils::Position { x: 0, y: 0 },
            },
        );
        core::mem::swap(self, &mut tmp);
        let (done, ok) = insert_node(tmp, id, target, axis, before, f);
        *self = done;
        if ok {
            Ok(())
        } else {
            Err(FlyjaError::ElementNotFound)
        }
    }
}

} // verus!
