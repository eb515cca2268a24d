use vstd::prelude::*;

verus! {

use crate::model::{
    contains_id,
    lemma_views_of_all,
    lemma_wf_children_build,
    lemma_wf_children_index,
    node_view,
    seq_contains_id,
    seq_find_window,
    spec_find_window,
    sums_ok,
    tiled,
    views_of,
    wf,
    wf_children,
    NodeView,
};
use crate::utils::{rect_bounded, SizeAndPos};
use crate::{DispatchCallback, Element, FlyjaError, Id};

/// The first pane holding `target` gets the rectangle `rect` and the share
/// `share`; the second component tells whether one was found.
pub open spec fn spec_set_window(nv: NodeView, target: Id, rect: SizeAndPos, share: u64) -> (
    NodeView,
    bool,
)
    decreases nv, 1int,
{
    match nv {
        NodeView::Empty(_) => (nv, false),
        NodeView::Window { id, .. } => {
            if id == target {
                (NodeView::Window { id, size_pos: rect, share }, true)
            } else {
                (nv, false)
            }
        },
        NodeView::Container { axis, children, size_pos, share: cshare, total } => {
            let (children2, ok) = seq_set_window(children, 0, target, rect, share);
            if ok {
                (
                    NodeView::Container { axis, children: children2, size_pos, share: cshare, total },
                    true,
                )
            } else {
                (nv, false)
            }
        },
    }
}

pub open spec fn seq_set_window(
    s: Seq<NodeView>,
    i: int,
    target: Id,
    rect: SizeAndPos,
    share: u64,
) -> (Seq<NodeView>, bool)
    decreases s, s.len() - i,
{
    if i < 0 || i >= s.len() {
        (s, false)
    } else {
        let (c2, ok) = spec_set_window(s[i], target, rect, share);
        if ok {
            (s.update(i, c2), true)
        } else {
            seq_set_window(s, i + 1, target, rect, share)
        }
    }
}

/// What swap does: the two panes exchange their rectangles and their
/// shares; nothing else in the tree moves. It fails, changing nothing, when
/// the two ids name the same pane or either is missing.
pub open spec fn spec_swap(nv: NodeView, a: Id, b: Id) -> (NodeView, bool) {
    let fa = spec_find_window(nv, a);
    let fb = spec_find_window(nv, b);
    if a != b && fa is Some && fb is Some {
        let wa = fa->0;
        let wb = fb->0;
        let t1 = spec_set_window(nv, a, wb.size_pos(), wb.share()).0;
        (spec_set_window(t1, b, wa.size_pos(), wa.share()).0, true)
    } else {
        (nv, false)
    }
}

/// A set that found nothing changes nothing.
pub proof fn lemma_seq_set_unchanged(s: Seq<NodeView>, i: int, target: Id, rect: SizeAndPos, share: u64)
    requires
        0 <= i <= s.len(),
        !seq_set_window(s, i, target, rect, share).1,
    ensures
        seq_set_window(s, i, target, rect, share) == (s, false),
    decreases s.len() - i,
{
    if i < s.len() {
        lemma_seq_set_unchanged(s, i + 1, target, rect, share);
    }
}

/// A pane is found exactly when the tree holds its id, and setting succeeds
/// exactly when finding does.
pub proof fn lemma_find_contains(nv: NodeView, target: Id)
    ensures
        spec_find_window(nv, target) is Some <==> contains_id(nv, target),
        spec_find_window(nv, target) matches Some(w) ==> w matches NodeView::Window { id, .. }
            && id == target,
    decreases nv, 1int,
{
    match nv {
        NodeView::Empty(_) => {},
        NodeView::Window { .. } => {},
        NodeView::Container { children, .. } => {
            lemma_seq_find_contains(children, 0, target);
        },
    }
}

proof fn lemma_seq_find_contains(s: Seq<NodeView>, i: int, target: Id)
    requires
        0 <= i <= s.len(),
    ensures
        seq_find_window(s, i, target) is Some <==> seq_contains_id(s, i, target),
        seq_find_window(s, i, target) matches Some(w) ==> w matches NodeView::Window {
            id,
            ..
        } && id == target,
    decreases s, s.len() - i,
{
    if i < s.len() {
        lemma_find_contains(s[i], target);
        lemma_seq_find_contains(s, i + 1, target);
    }
}

/// Setting succeeds exactly when the pane exists, and preserves
/// well-formedness when the new rectangle is bounded.
pub proof fn lemma_spec_set_props(nv: NodeView, target: Id, rect: SizeAndPos, share: u64)
    requires
        wf(nv),
        rect_bounded(rect),
    ensures
        spec_set_window(nv, target, rect, share).1 == contains_id(nv, target),
        wf(spec_set_window(nv, target, rect, share).0),
        !spec_set_window(nv, target, rect, share).1 ==> spec_set_window(
            nv,
            target,
            rect,
            share,
        ).0 == nv,
        !(spec_set_window(nv, target, rect, share).0 is Empty) || nv is Empty,
    decreases nv, 1int,
{
    match nv {
        NodeView::Empty(_) => {},
        NodeView::Window { .. } => {},
        NodeView::Container { children, .. } => {
            lemma_wf_children_index(children, 0);
            lemma_seq_set_props(children, 0, target, rect, share);
            let (s2, ok) = seq_set_window(children, 0, target, rect, share);
            if ok {
                lemma_wf_children_build(s2, 0);
            } else {
                lemma_seq_set_unchanged(children, 0, target, rect, share);
            }
        },
    }
}

proof fn lemma_seq_set_props(s: Seq<NodeView>, i: int, target: Id, rect: SizeAndPos, share: u64)
    requires
        0 <= i <= s.len(),
        forall|k: int| 0 <= k < s.len() ==> wf(#[trigger] s[k]) && !(s[k] is Empty),
        rect_bounded(rect),
    ensures
        seq_set_window(s, i, target, rect, share).1 == seq_contains_id(s, i, target),
        seq_set_window(s, i, target, rect, share).0.len() == s.len(),
        forall|k: int|
            0 <= k < s.len() ==> wf(#[trigger] seq_set_window(s, i, target, rect, share).0[k])
                && !(seq_set_window(s, i, target, rect, share).0[k] is Empty),
    decreases s, s.len() - i,
{
    if i < s.len() {
        lemma_spec_set_props(s[i], target, rect, share);
        lemma_seq_set_props(s, i + 1, target, rect, share);
        let (c2, ok) = spec_set_window(s[i], target, rect, share);
        if ok {
            let s2 = s.update(i, c2);
            assert forall|k: int| 0 <= k < s.len() implies wf(#[trigger] s2[k]) && !(s2[k]
                is Empty) by {
                if k != i {
                    assert(s2[k] == s[k]);
                }
            }
        }
    } else {
        assert(seq_set_window(s, i, target, rect, share).0 == s);
    }
}


/// The first index from `i` on whose subtree holds `t`; the length when
/// none does.
pub open spec fn first_hit(s: Seq<NodeView>, i: int, t: Id) -> int
    decreases s, s.len() - i,
{
    if i < 0 || i >= s.len() {
        s.len() as int
    } else if contains_id(s[i], t) {
        i
    } else {
        first_hit(s, i + 1, t)
    }
}

/// A set walks to the first child that holds the id and rewrites only it.
pub proof fn lemma_seq_set_char(s: Seq<NodeView>, i: int, t: Id, rect: SizeAndPos, share: u64)
    requires
        0 <= i <= s.len(),
    ensures
        seq_set_window(s, i, t, rect, share).1 == seq_contains_id(s, i, t),
        !seq_contains_id(s, i, t) ==> seq_set_window(s, i, t, rect, share).0 == s && first_hit(
            s,
            i,
            t,
        ) == s.len(),
        seq_contains_id(s, i, t) ==> {
            let h = first_hit(s, i, t);
            &&& i <= h < s.len()
            &&& contains_id(s[h], t)
            &&& forall|m: int| i <= m < h ==> !contains_id(#[trigger] s[m], t)
            &&& spec_set_window(s[h], t, rect, share).1
            &&& seq_set_window(s, i, t, rect, share).0 == s.update(
                h,
                spec_set_window(s[h], t, rect, share).0,
            )
        },
    decreases s.len() - i,
{
    if i < s.len() {
        lemma_set_found(s[i], t, rect, share);
        lemma_seq_set_char(s, i + 1, t, rect, share);
    }
}

/// A find walks to the first child that holds the id and looks only there.
pub proof fn lemma_seq_find_char(s: Seq<NodeView>, i: int, t: Id)
    requires
        0 <= i <= s.len(),
    ensures
        seq_find_window(s, i, t) is Some <==> seq_contains_id(s, i, t),
        seq_contains_id(s, i, t) ==> {
            let h = first_hit(s, i, t);
            &&& i <= h < s.len()
            &&& contains_id(s[h], t)
            &&& seq_find_window(s, i, t) == spec_find_window(s[h], t)
        },
    decreases s.len() - i,
{
    if i < s.len() {
        lemma_find_contains(s[i], t);
        lemma_seq_find_char(s, i + 1, t);
    }
}

/// Setting succeeds exactly where the id is held.
pub proof fn lemma_set_found(nv: NodeView, t: Id, rect: SizeAndPos, share: u64)
    ensures
        spec_set_window(nv, t, rect, share).1 == contains_id(nv, t),
        !spec_set_window(nv, t, rect, share).1 ==> spec_set_window(nv, t, rect, share).0 == nv,
    decreases nv, 1int,
{
    match nv {
        NodeView::Empty(_) => {},
        NodeView::Window { .. } => {},
        NodeView::Container { children, .. } => {
            lemma_seq_set_char_weak(children, 0, t, rect, share);
        },
    }
}

proof fn lemma_seq_set_char_weak(s: Seq<NodeView>, i: int, t: Id, rect: SizeAndPos, share: u64)
    requires
        0 <= i <= s.len(),
    ensures
        seq_set_window(s, i, t, rect, share).1 == seq_contains_id(s, i, t),
        !seq_contains_id(s, i, t) ==> seq_set_window(s, i, t, rect, share).0 == s,
    decreases s, s.len() - i,
{
    if i < s.len() {
        lemma_set_found(s[i], t, rect, share);
        lemma_seq_set_char_weak(s, i + 1, t, rect, share);
    }
}

/// Setting one pane does not change which ids any subtree holds.
pub proof fn lemma_set_contains(nv: NodeView, t: Id, rect: SizeAndPos, share: u64, t2: Id)
    ensures
        contains_id(spec_set_window(nv, t, rect, share).0, t2) == contains_id(nv, t2),
    decreases nv, 1int,
{
    match nv {
        NodeView::Empty(_) => {},
        NodeView::Window { .. } => {},
        NodeView::Container { children, .. } => {
            lemma_set_found(nv, t, rect, share);
            if contains_id(nv, t) {
                lemma_seq_set_char(children, 0, t, rect, share);
                let h = first_hit(children, 0, t);
                lemma_set_contains(children[h], t, rect, share, t2);
                let s2 = children.update(h, spec_set_window(children[h], t, rect, share).0);
                lemma_seq_contains_pointwise(children, s2, 0, t2);
            }
        },
    }
}

/// Pointwise equal holding gives equal holding.
pub proof fn lemma_seq_contains_pointwise(a: Seq<NodeView>, b: Seq<NodeView>, i: int, t: Id)
    requires
        0 <= i <= a.len(),
        a.len() == b.len(),
        forall|m: int| 0 <= m < a.len() ==> contains_id(#[trigger] b[m], t) == contains_id(a[m], t),
    ensures
        seq_contains_id(b, i, t) == seq_contains_id(a, i, t),
        first_hit(b, i, t) == first_hit(a, i, t),
    decreases a.len() - i,
{
    if i < a.len() {
        assert(contains_id(b[i], t) == contains_id(a[i], t));
        lemma_seq_contains_pointwise(a, b, i + 1, t);
    }
}

/// Setting one id leaves what find answers for another id alone.
pub proof fn lemma_set_find_other(nv: NodeView, t1: Id, rect: SizeAndPos, share: u64, t2: Id)
    requires
        t1 != t2,
    ensures
        spec_find_window(spec_set_window(nv, t1, rect, share).0, t2) == spec_find_window(nv, t2),
    decreases nv, 1int,
{
    match nv {
        NodeView::Empty(_) => {},
        NodeView::Window { .. } => {},
        NodeView::Container { children, .. } => {
            lemma_set_found(nv, t1, rect, share);
            if contains_id(nv, t1) {
                lemma_seq_set_char(children, 0, t1, rect, share);
                let h = first_hit(children, 0, t1);
                let s2 = children.update(h, spec_set_window(children[h], t1, rect, share).0);
                lemma_set_find_other(children[h], t1, rect, share, t2);
                assert forall|m: int| 0 <= m < children.len() implies spec_find_window(
                    #[trigger] s2[m],
                    t2,
                ) == spec_find_window(children[m], t2) && contains_id(s2[m], t2) == contains_id(
                    children[m],
                    t2,
                ) by {
                    if m == h {
                        lemma_set_contains(children[h], t1, rect, share, t2);
                    } else {
                        assert(s2[m] == children[m]);
                    }
                }
                lemma_seq_find_pointwise(children, s2, 0, t2);
            }
        },
    }
}

/// Pointwise equal finds give an equal find.
pub proof fn lemma_seq_find_pointwise(a: Seq<NodeView>, b: Seq<NodeView>, i: int, t: Id)
    requires
        0 <= i <= a.len(),
        a.len() == b.len(),
        forall|m: int|
            0 <= m < a.len() ==> spec_find_window(#[trigger] b[m], t) == spec_find_window(a[m], t),
    ensures
        seq_find_window(b, i, t) == seq_find_window(a, i, t),
    decreases a.len() - i,
{
    if i < a.len() {
        assert(spec_find_window(b[i], t) == spec_find_window(a[i], t));
        lemma_seq_find_pointwise(a, b, i + 1, t);
    }
}

/// After setting an id, finding it yields exactly what was set.
pub proof fn lemma_set_find_same(nv: NodeView, t: Id, rect: SizeAndPos, share: u64)
    requires
        contains_id(nv, t),
    ensures
        spec_find_window(spec_set_window(nv, t, rect, share).0, t) == Some(
            NodeView::Window { id: t, size_pos: rect, share },
        ),
    decreases nv, 1int,
{
    match nv {
        NodeView::Empty(_) => {},
        NodeView::Window { .. } => {},
        NodeView::Container { children, .. } => {
            lemma_seq_set_char(children, 0, t, rect, share);
            let h = first_hit(children, 0, t);
            let s2 = children.update(h, spec_set_window(children[h], t, rect, share).0);
            lemma_set_find_same(children[h], t, rect, share);
            lemma_set_contains(children[h], t, rect, share, t);
            lemma_seq_contains_pointwise(children, s2, 0, t);
            lemma_seq_find_char(s2, 0, t);
            lemma_find_contains(nv, t);
            assert forall|m: int| 0 <= m < children.len() implies contains_id(
                #[trigger] s2[m],
                t,
            ) == contains_id(children[m], t) by {
                if m != h {
                    assert(s2[m] == children[m]);
                }
            }
            lemma_seq_contains_pointwise(children, s2, 0, t);
            assert(first_hit(s2, 0, t) == h);
        },
    }
}

/// Sets of two different ids land on different panes, so their order does
/// not matter.
pub proof fn lemma_set_commute(
    nv: NodeView,
    t1: Id,
    r1: SizeAndPos,
    s1: u64,
    t2: Id,
    r2: SizeAndPos,
    s2: u64,
)
    requires
        t1 != t2,
    ensures
        spec_set_window(spec_set_window(nv, t1, r1, s1).0, t2, r2, s2).0 == spec_set_window(
            spec_set_window(nv, t2, r2, s2).0,
            t1,
            r1,
            s1,
        ).0,
    decreases nv, 1int,
{
    match nv {
        NodeView::Empty(_) => {},
        NodeView::Window { .. } => {},
        NodeView::Container { children, .. } => {
            lemma_set_found(nv, t1, r1, s1);
            lemma_set_found(nv, t2, r2, s2);
            let c1 = contains_id(nv, t1);
            let c2 = contains_id(nv, t2);
            if c1 && c2 {
                lemma_seq_set_char(children, 0, t1, r1, s1);
                lemma_seq_set_char(children, 0, t2, r2, s2);
                let h1 = first_hit(children, 0, t1);
                let h2 = first_hit(children, 0, t2);
                let u1 = spec_set_window(children[h1], t1, r1, s1).0;
                let u2 = spec_set_window(children[h2], t2, r2, s2).0;
                let a1 = children.update(h1, u1);
                let a2 = children.update(h2, u2);
                assert forall|m: int| 0 <= m < children.len() implies contains_id(
                    #[trigger] a1[m],
                    t2,
                ) == contains_id(children[m], t2) by {
                    if m == h1 {
                        lemma_set_contains(children[h1], t1, r1, s1, t2);
                    } else {
                        assert(a1[m] == children[m]);
                    }
                }
                assert forall|m: int| 0 <= m < children.len() implies contains_id(
                    #[trigger] a2[m],
                    t1,
                ) == contains_id(children[m], t1) by {
                    if m == h2 {
                        lemma_set_contains(children[h2], t2, r2, s2, t1);
                    } else {
                        assert(a2[m] == children[m]);
                    }
                }
                lemma_seq_contains_pointwise(children, a1, 0, t2);
                lemma_seq_contains_pointwise(children, a2, 0, t1);
                lemma_seq_set_char(a1, 0, t2, r2, s2);
                lemma_seq_set_char(a2, 0, t1, r1, s1);
                if h1 == h2 {
                    lemma_set_commute(children[h1], t1, r1, s1, t2, r2, s2);
                    assert(a1.update(h1, spec_set_window(a1[h1], t2, r2, s2).0) =~= a2.update(
                        h1,
                        spec_set_window(a2[h1], t1, r1, s1).0,
                    ));
                } else {
                    assert(a1[h2] == children[h2]);
                    assert(a2[h1] == children[h1]);
                    assert(a1.update(h2, u2) =~= a2.update(h1, u1));
                }
            } else if c1 {
                lemma_seq_set_char(children, 0, t1, r1, s1);
                let h1 = first_hit(children, 0, t1);
                let a1 = children.update(h1, spec_set_window(children[h1], t1, r1, s1).0);
                assert forall|m: int| 0 <= m < children.len() implies contains_id(
                    #[trigger] a1[m],
                    t2,
                ) == contains_id(children[m], t2) by {
                    if m == h1 {
                        lemma_set_contains(children[h1], t1, r1, s1, t2);
                    } else {
                        assert(a1[m] == children[m]);
                    }
                }
                lemma_seq_contains_pointwise(children, a1, 0, t2);
                lemma_set_found(spec_set_window(nv, t1, r1, s1).0, t2, r2, s2);
                lemma_set_contains(nv, t1, r1, s1, t2);
            } else if c2 {
                lemma_seq_set_char(children, 0, t2, r2, s2);
                let h2 = first_hit(children, 0, t2);
                let a2 = children.update(h2, spec_set_window(children[h2], t2, r2, s2).0);
                assert forall|m: int| 0 <= m < children.len() implies contains_id(
                    #[trigger] a2[m],
                    t1,
                ) == contains_id(children[m], t1) by {
                    if m == h2 {
                        lemma_set_contains(children[h2], t2, r2, s2, t1);
                    } else {
                        assert(a2[m] == children[m]);
                    }
                }
                lemma_seq_contains_pointwise(children, a2, 0, t1);
                lemma_set_found(spec_set_window(nv, t2, r2, s2).0, t1, r1, s1);
                lemma_set_contains(nv, t2, r2, s2, t1);
            }
        },
    }
}

/// Setting a pane and then setting it back to what find reported restores
/// the tree.
pub proof fn lemma_set_restore(nv: NodeView, t: Id, rect: SizeAndPos, share: u64)
    requires
        spec_find_window(nv, t) matches Some(w) && w == (NodeView::Window {
            id: t,
            size_pos: nv_found_rect(nv, t),
            share: nv_found_share(nv, t),
        }),
    ensures
        spec_set_window(
            spec_set_window(nv, t, rect, share).0,
            t,
            nv_found_rect(nv, t),
            nv_found_share(nv, t),
        ).0 == nv,
    decreases nv, 1int,
{
    lemma_find_contains(nv, t);
    match nv {
        NodeView::Empty(_) => {},
        NodeView::Window { .. } => {},
        NodeView::Container { children, .. } => {
            lemma_seq_set_char(children, 0, t, rect, share);
            lemma_seq_find_char(children, 0, t);
            let h = first_hit(children, 0, t);
            let u1 = spec_set_window(children[h], t, rect, share).0;
            let a1 = children.update(h, u1);
            assert forall|m: int| 0 <= m < children.len() implies contains_id(
                #[trigger] a1[m],
                t,
            ) == contains_id(children[m], t) by {
                if m == h {
                    lemma_set_contains(children[h], t, rect, share, t);
                } else {
                    assert(a1[m] == children[m]);
                }
            }
            lemma_seq_contains_pointwise(children, a1, 0, t);
            lemma_seq_set_char(a1, 0, t, nv_found_rect(nv, t), nv_found_share(nv, t));
            assert(nv_found_rect(nv, t) == nv_found_rect(children[h], t)
                && nv_found_share(nv, t) == nv_found_share(children[h], t)) by {
                lemma_find_contains(children[h], t);
            }
            lemma_set_restore(children[h], t, rect, share);
            assert(a1.update(
                h,
                spec_set_window(u1, t, nv_found_rect(nv, t), nv_found_share(nv, t)).0,
            ) =~= children);
        },
    }
}

/// The rectangle of the first pane holding `t`.
pub open spec fn nv_found_rect(nv: NodeView, t: Id) -> SizeAndPos {
    spec_find_window(nv, t)->0.size_pos()
}

/// The share of the first pane holding `t`.
pub open spec fn nv_found_share(nv: NodeView, t: Id) -> u64 {
    spec_find_window(nv, t)->0.share()
}

/// Swapping the same two panes twice restores every pane's rectangle and
/// share: the whole tree returns to exactly what it was.
pub proof fn lemma_swap_involution(nv: NodeView, a: Id, b: Id)
    requires
        spec_swap(nv, a, b).1,
    ensures
        spec_swap(spec_swap(nv, a, b).0, a, b) == (nv, true),
{
    lemma_find_contains(nv, a);
    lemma_find_contains(nv, b);
    let wa = spec_find_window(nv, a)->0;
    let wb = spec_find_window(nv, b)->0;
    let ra = wa.size_pos();
    let sa = wa.share();
    let rb = wb.size_pos();
    let sb = wb.share();
    let u1 = spec_set_window(nv, a, rb, sb).0;
    let t1 = spec_set_window(u1, b, ra, sa).0;
    // what the second swap finds
    lemma_set_find_same(nv, a, rb, sb);
    lemma_set_find_other(u1, b, ra, sa, a);
    assert(spec_find_window(t1, a) == Some(NodeView::Window { id: a, size_pos: rb, share: sb }));
    lemma_set_find_other(nv, a, rb, sb, b);
    lemma_set_contains(nv, a, rb, sb, b);
    lemma_find_contains(u1, b);
    lemma_set_find_same(u1, b, ra, sa);
    assert(spec_find_window(t1, b) == Some(NodeView::Window { id: b, size_pos: ra, share: sa }));
    // the second swap undoes the first
    let v1 = spec_set_window(t1, a, ra, sa).0;
    let t2 = spec_set_window(v1, b, rb, sb).0;
    lemma_set_commute(u1, b, ra, sa, a, ra, sa);
    assert(v1 == spec_set_window(spec_set_window(u1, a, ra, sa).0, b, ra, sa).0);
    assert(spec_find_window(nv, a) == Some(NodeView::Window { id: a, size_pos: ra, share: sa }));
    lemma_set_restore(nv, a, rb, sb);
    assert(spec_set_window(u1, a, ra, sa).0 == nv);
    assert(v1 == spec_set_window(nv, b, ra, sa).0);
    lemma_set_restore(nv, b, ra, sa);
    assert(t2 == nv);
    assert(spec_swap(t1, a, b).1);
    assert(spec_swap(t1, a, b).0 == t2);
}


/// Give the first pane holding `target` the rectangle and share supplied.
#[verifier::loop_isolation(false)]
fn set_window_children(
    elements: Vec<Element>,
    target: Id,
    rect: SizeAndPos,
    share: u64,
) -> (r: (Vec<Element>, bool))
    ensures
        (views_of(r.0@, 0), r.1) == seq_set_window(views_of(elements@, 0), 0, target, rect, share),
    decreases elements,
{
    let ghost gv = elements;
    let ghost s = views_of(elements@, 0);
    proof {
        lemma_views_of_all(elements@);
    }
    let mut work = elements;
    let n = work.len();
    let mut j: usize = 0;
    while j < n
        invariant
            0 <= j <= n,
            n == gv@.len(),
            work@.len() == n,
            s == views_of(gv@, 0),
            s.len() == n,
            forall|k: int| 0 <= k < n ==> s[k] == node_view(gv@[k]),
            forall|k: int| j <= k < n ==> work@[k] == gv@[k],
            forall|k: int| 0 <= k < j ==> node_view(#[trigger] work@[k]) == s[k],
            seq_set_window(s, 0, target, rect, share) == seq_set_window(
                s,
                j as int,
                target,
                rect,
                share,
            ),
        decreases n - j,
    {
        let child = work.remove(j);
        assert(child == gv@[j as int]);
        proof {
            assert(decreases_to!(gv => gv@[j as int]));
        }
        let (child2, ok) = set_window_node(child, target, rect, share);
        work.insert(j, child2);
        if ok {
            proof {
                lemma_views_of_all(work@);
                assert(views_of(work@, 0) =~= s.update(j as int, node_view(child2)));
            }
            return (work, true);
        }
        j = j + 1;
    }
    proof {
        lemma_views_of_all(work@);
        assert(views_of(work@, 0) =~= s);
    }
    (work, false)
}

fn set_window_node(e: Element, target: Id, rect: SizeAndPos, share: u64) -> (r: (Element, bool))
    ensures
        (r.0@, r.1) == spec_set_window(e@, target, rect, share),
    decreases e,
{
    let ghost g = e;
    match e {
        Element::EmptyOutput(sp) => (Element::EmptyOutput(sp), false),
        Element::Window { id, size_pos, share: old_share } => {
            if id.0 == target.0 {
                (Element::Window { id, size_pos: rect, share }, true)
            } else {
                (Element::Window { id, size_pos, share: old_share }, false)
            }
        },
        Element::Vertical { elements, size_pos, share: cshare, total } => {
            proof {
                assert(decreases_to!(g => elements));
            }
            let (els, ok) = set_window_children(elements, target, rect, share);
            proof {
                if !ok {
                    lemma_seq_set_unchanged(
                        views_of(g->Vertical_elements@, 0),
                        0,
                        target,
                        rect,
                        share,
                    );
                }
            }
            (Element::Vertical { elements: els, size_pos, share: cshare, total }, ok)
        },
        Element::Horizontal { elements, size_pos, share: cshare, total } => {
            proof {
                assert(decreases_to!(g => elements));
            }
            let (els, ok) = set_window_children(elements, target, rect, share);
            proof {
                if !ok {
                    lemma_seq_set_unchanged(
                        views_of(g->Horizontal_elements@, 0),
                        0,
                        target,
                        rect,
                        share,
                    );
                }
            }
            (Element::Horizontal { elements: els, size_pos, share: cshare, total }, ok)
        },
    }
}

/// The rectangle of every pane in a well-formed tree is bounded; in
/// particular, whatever find reports.
pub proof fn lemma_find_wf(nv: NodeView, target: Id)
    requires
        wf(nv),
    ensures
        spec_find_window(nv, target) matches Some(w) ==> rect_bounded(w.size_pos()),
    decreases nv, 1int,
{
    match nv {
        NodeView::Empty(_) => {},
        NodeView::Window { .. } => {},
        NodeView::Container { children, .. } => {
            lemma_wf_children_index(children, 0);
            lemma_seq_find_wf(children, 0, target);
        },
    }
}

proof fn lemma_seq_find_wf(s: Seq<NodeView>, i: int, target: Id)
    requires
        0 <= i <= s.len(),
        forall|k: int| 0 <= k < s.len() ==> wf(#[trigger] s[k]),
    ensures
        seq_find_window(s, i, target) matches Some(w) ==> rect_bounded(w.size_pos()),
    decreases s, s.len() - i,
{
    if i < s.len() {
        lemma_find_wf(s[i], target);
        lemma_seq_find_wf(s, i + 1, target);
    }
}

impl Element {
    /// Exchange the rectangles and the shares of the panes `id` and
    /// `target`; nothing else in the tree moves. Fails, leaving the tree as
    /// it was, when the two ids are equal or either pane is missing. The
    /// callback reports `id` and then `target`, each with its new rectangle.
    /// Swapping the same two panes again restores both exactly.
    pub fn swap<F: DispatchCallback>(&mut self, id: Id, target: Id, f: &mut F) -> (r: Result<
        (),
        FlyjaError,
    >)
        requires
            wf(old(self)@),
        ensures
            r is Ok <==> (id != target && contains_id(old(self)@, id) && contains_id(
                old(self)@,
                target,
            )),
            r is Ok ==> final(self)@ == spec_swap(old(self)@, id, target).0 && spec_swap(
                old(self)@,
                id,
                target,
            ).1,
            r is Err ==> final(self)@ == old(self)@ && r == Err::<(), FlyjaError>(
                FlyjaError::ElementNotFound,
            ),
            wf(final(self)@),
    {
        proof {
            lemma_find_contains(self@, id);
            lemma_find_contains(self@, target);
            lemma_find_wf(self@, id);
            lemma_find_wf(self@, target);
        }
        let (ra, sa) = match self.find_window(id) {
            Some(w) => (w.size_pos(), w.percent()),
            None => {
                return Err(FlyjaError::ElementNotFound);
            },
        };
        let (rb, sb) = match self.find_window(target) {
            Some(w) => (w.size_pos(), w.percent()),
            None => {
                return Err(FlyjaError::ElementNotFound);
            },
        };
        if id.0 == target.0 {
            return Err(FlyjaError::ElementNotFound);
        }
        proof {
            lemma_spec_set_props(self@, id, rb, sb);
            lemma_spec_set_props(
                spec_set_window(self@, id, rb, sb).0,
                target,
                ra,
                sa,
            );
            lemma_set_contains(self@, id, rb, sb, target);
        }
        let mut tmp = Element::EmptyOutput(
            SizeAndPos {
                size: crate::utils::Size { width: 0, height: 0 },
                position: crate::utils::Position { x: 0, y: 0 },
            },
        );
        core::mem::swap(self, &mut tmp);
        let (t1, ok1) = set_window_node(tmp, id, rb, sb);
        let (t2, ok2) = set_window_node(t1, target, ra, sa);
        *self = t2;
        f.callback(id, rb);
        f.callback(target, ra);
        Ok(())
    }
}

} // verus!
