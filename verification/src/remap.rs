use vstd::prelude::*;

verus! {

use crate::model::{
    axis_end,
    axis_extent,
    axis_start,
    child_slot_ok,
    lemma_sums_children_build,
    lemma_sums_children_index,
    lemma_wf_children_build,
    lemma_wf_children_index,
    sum_shares,
    sums_children,
    sums_ok,
    tiled,
    tiled_children,
    wf,
    wf_children,
    NodeView,
};
use crate::utils::{rect_bounded, InsertWay, Position, Size, SizeAndPos};
use crate::{DispatchCallback, Element};
use crate::model::{lemma_views_of_all, node_view, views_of};
use vstd::arithmetic::div_mod::{lemma_div_by_multiple, lemma_div_is_ordered, lemma_div_pos_is_pos};
use vstd::arithmetic::mul::{lemma_mul_inequality, lemma_mul_is_commutative, lemma_mul_nonnegative, lemma_mul_upper_bound};

/// Where the boundary after `num` of `total` share units falls inside an
/// extent of `ext`: the floor of `ext * num / total`, read as zero for a
/// degenerate total and clamped to `ext` once `num` reaches `total`.
pub open spec fn child_boundary(ext: int, num: int, total: int) -> int {
    let t = if total <= 0 {
        1
    } else {
        total
    };
    let n = if num <= 0 {
        0
    } else {
        num
    };
    if n >= t {
        ext
    } else {
        (ext * n) / t
    }
}

pub proof fn lemma_child_boundary_range(ext: int, num: int, total: int)
    requires
        0 <= ext,
    ensures
        0 <= child_boundary(ext, num, total) <= ext,
{
    let t = if total <= 0 {
        1
    } else {
        total
    };
    let n = if num <= 0 {
        0
    } else {
        num
    };
    if n < t {
        lemma_mul_nonnegative(ext, n);
        lemma_div_pos_is_pos(ext * n, t);
        lemma_mul_inequality(n, t, ext);
        lemma_mul_is_commutative(n, ext);
        lemma_mul_is_commutative(t, ext);
        lemma_div_is_ordered(ext * n, ext * t, t);
        lemma_div_by_multiple(ext, t);
    }
}

pub proof fn lemma_child_boundary_mono(ext: int, a: int, b: int, total: int)
    requires
        0 <= ext,
        a <= b,
    ensures
        child_boundary(ext, a, total) <= child_boundary(ext, b, total),
{
    let t = if total <= 0 {
        1
    } else {
        total
    };
    let na = if a <= 0 {
        0
    } else {
        a
    };
    let nb = if b <= 0 {
        0
    } else {
        b
    };
    lemma_child_boundary_range(ext, a, total);
    lemma_child_boundary_range(ext, b, total);
    if na < t && nb < t {
        lemma_mul_inequality(na, nb, ext);
        lemma_mul_is_commutative(na, ext);
        lemma_mul_is_commutative(nb, ext);
        lemma_div_is_ordered(ext * na, ext * nb, t);
    }
}

/// The sum of the first `j` children's shares.
pub open spec fn prefix_shares(s: Seq<NodeView>, j: int) -> int
    decreases
            if j <= s.len() {
                j
            } else {
                s.len() as int + 1
            },
{
    if j <= 0 || s.len() == 0 {
        0
    } else if j > s.len() {
        prefix_shares(s, s.len() as int)
    } else {
        prefix_shares(s, j - 1) + s[j - 1].share()
    }
}

pub proof fn lemma_prefix_shares_nonneg(s: Seq<NodeView>, j: int)
    ensures
        0 <= prefix_shares(s, j),
    decreases
            if j <= s.len() {
                j
            } else {
                s.len() as int + 1
            },
{
    if j > 0 && s.len() != 0 {
        if j > s.len() {
            lemma_prefix_shares_nonneg(s, s.len() as int);
        } else {
            lemma_prefix_shares_nonneg(s, j - 1);
        }
    }
}

/// Two child sequences whose shares agree pointwise have equal prefixes.
pub proof fn lemma_prefix_shares_congruent(a: Seq<NodeView>, b: Seq<NodeView>, j: int)
    requires
        a.len() == b.len(),
        forall|k: int| 0 <= k < a.len() ==> a[k].share() == b[k].share(),
    ensures
        prefix_shares(a, j) == prefix_shares(b, j),
    decreases
            if j <= a.len() {
                j
            } else {
                a.len() as int + 1
            },
{
    if j > 0 && a.len() != 0 {
        if j > a.len() {
            lemma_prefix_shares_congruent(a, b, a.len() as int);
        } else {
            lemma_prefix_shares_congruent(a, b, j - 1);
        }
    }
}

/// The rectangle of the child whose share prefix runs from `lo` to `hi`
/// inside `c` along `axis`; the last child always reaches `c`'s far edge.
pub open spec fn spec_child_slot(
    c: SizeAndPos,
    axis: InsertWay,
    total: int,
    lo: int,
    hi: int,
    last: bool,
) -> SizeAndPos {
    let ext = axis_extent(c, axis);
    let b0 = child_boundary(ext, lo, total);
    let b1 = if last {
        ext
    } else {
        child_boundary(ext, hi, total)
    };
    match axis {
        InsertWay::Vertical => SizeAndPos {
            size: Size { width: c.size.width, height: (b1 - b0) as i64 },
            position: Position { x: c.position.x, y: (c.position.y + b0) as i64 },
        },
        InsertWay::Horizontal => SizeAndPos {
            size: Size { width: (b1 - b0) as i64, height: c.size.height },
            position: Position { x: (c.position.x + b0) as i64, y: c.position.y },
        },
    }
}

/// A child slot of a bounded rectangle is itself bounded, fills `c` across
/// the off axis, and sits between its two boundaries along the axis.
pub proof fn lemma_child_slot_bounded(
    c: SizeAndPos,
    axis: InsertWay,
    total: int,
    lo: int,
    hi: int,
    last: bool,
)
    requires
        rect_bounded(c),
        lo <= hi,
    ensures
        rect_bounded(spec_child_slot(c, axis, total, lo, hi, last)),
        child_slot_ok(
            NodeView::Empty(spec_child_slot(c, axis, total, lo, hi, last)),
            c,
            axis,
            axis_start(c, axis) + child_boundary(axis_extent(c, axis), lo, total),
        ),
        axis_extent(spec_child_slot(c, axis, total, lo, hi, last), axis) == (if last {
            axis_extent(c, axis)
        } else {
            child_boundary(axis_extent(c, axis), hi, total)
        }) - child_boundary(axis_extent(c, axis), lo, total),
{
    let ext = axis_extent(c, axis);
    lemma_child_boundary_range(ext, lo, total);
    lemma_child_boundary_range(ext, hi, total);
    lemma_child_boundary_mono(ext, lo, hi, total);
}

/// The whole tree laid out anew inside `c`: every rectangle is recomputed
/// from the shares, top down; nothing else changes.
pub open spec fn spec_remap(nv: NodeView, c: SizeAndPos) -> NodeView
    decreases nv, 1int,
{
    match nv {
        NodeView::Empty(_) => NodeView::Empty(c),
        NodeView::Window { id, share, .. } => NodeView::Window { id, size_pos: c, share },
        NodeView::Container { axis, children, share, total, .. } => NodeView::Container {
            axis,
            children: remap_children(children, 0, c, axis, total as int),
            size_pos: c,
            share,
            total,
        },
    }
}

/// The children from `i` on, each remapped into its slot of `c`.
pub open spec fn remap_children(
    s: Seq<NodeView>,
    i: int,
    c: SizeAndPos,
    axis: InsertWay,
    total: int,
) -> Seq<NodeView>
    decreases s, s.len() - i,
{
    if i < 0 || i >= s.len() {
        Seq::empty()
    } else {
        seq![
            spec_remap(
                s[i],
                spec_child_slot(
                    c,
                    axis,
                    total,
                    prefix_shares(s, i),
                    prefix_shares(s, i + 1),
                    i == s.len() - 1,
                ),
            ),
        ] + remap_children(s, i + 1, c, axis, total)
    }
}

/// The slot of child `j`: from the boundary its predecessors' shares set to
/// the boundary its own share adds, the last child reaching the far edge.
pub open spec fn slot_of(
    s: Seq<NodeView>,
    j: int,
    c: SizeAndPos,
    axis: InsertWay,
    total: int,
) -> SizeAndPos {
    spec_child_slot(c, axis, total, prefix_shares(s, j), prefix_shares(s, j + 1), j == s.len() - 1)
}

/// `remap_children` maps each child into its own slot, pointwise.
proof fn lemma_remap_children_char_from(
    s: Seq<NodeView>,
    i: int,
    c: SizeAndPos,
    axis: InsertWay,
    total: int,
)
    requires
        0 <= i <= s.len(),
    ensures
        remap_children(s, i, c, axis, total).len() == s.len() - i,
        forall|j: int|
            i <= j < s.len() ==> remap_children(s, i, c, axis, total)[j - i] == spec_remap(
                s[j],
                slot_of(s, j, c, axis, total),
            ),
    decreases s.len() - i,
{
    if i < s.len() {
        lemma_remap_children_char_from(s, i + 1, c, axis, total);
    }
}

/// The whole remapped child sequence, pointwise.
pub proof fn lemma_remap_children_char(s: Seq<NodeView>, c: SizeAndPos, axis: InsertWay, total: int)
    ensures
        remap_children(s, 0, c, axis, total).len() == s.len(),
        forall|j: int|
            0 <= j < s.len() ==> #[trigger] remap_children(s, 0, c, axis, total)[j] == spec_remap(
                s[j],
                slot_of(s, j, c, axis, total),
            ),
{
    lemma_remap_children_char_from(s, 0, c, axis, total);
    assert forall|j: int| 0 <= j < s.len() implies #[trigger] remap_children(s, 0, c, axis, total)[j]
        == spec_remap(s[j], slot_of(s, j, c, axis, total)) by {
        assert(remap_children(s, 0, c, axis, total)[j - 0] == spec_remap(
            s[j],
            slot_of(s, j, c, axis, total),
        ));
    }
}

/// The share, id and stored total of every node survive a remap; only
/// rectangles change.
pub open spec fn same_skeleton(a: NodeView, b: NodeView) -> bool
    decreases a, 0int,
{
    match (a, b) {
        (NodeView::Empty(_), NodeView::Empty(_)) => true,
        (NodeView::Window { id: ia, share: sa, .. }, NodeView::Window { id: ib, share: sb, .. }) => ia
            == ib && sa == sb,
        (
            NodeView::Container { axis: xa, children: ca, share: sa, total: ta, .. },
            NodeView::Container { axis: xb, children: cb, share: sb, total: tb, .. },
        ) => xa == xb && sa == sb && ta == tb && ca.len() == cb.len() && skeleton_children(
            ca,
            cb,
            0,
        ),
        _ => false,
    }
}

pub open spec fn skeleton_children(a: Seq<NodeView>, b: Seq<NodeView>, i: int) -> bool
    decreases a, a.len() - i,
{
    if i < 0 || i >= a.len() {
        true
    } else {
        (i < b.len() && same_skeleton(a[i], b[i])) && skeleton_children(a, b, i + 1)
    }
}

pub proof fn lemma_skeleton_children_index(a: Seq<NodeView>, b: Seq<NodeView>, i: int)
    requires
        0 <= i <= a.len(),
        a.len() == b.len(),
        skeleton_children(a, b, i),
    ensures
        forall|j: int| i <= j < a.len() ==> #[trigger] same_skeleton(a[j], b[j]),
    decreases a.len() - i,
{
    if i < a.len() {
        lemma_skeleton_children_index(a, b, i + 1);
    }
}

pub proof fn lemma_skeleton_children_build(a: Seq<NodeView>, b: Seq<NodeView>, i: int)
    requires
        0 <= i <= a.len(),
        a.len() == b.len(),
        forall|j: int| i <= j < a.len() ==> #[trigger] same_skeleton(a[j], b[j]),
    ensures
        skeleton_children(a, b, i),
    decreases a.len() - i,
{
    if i < a.len() {
        assert(same_skeleton(a[i], b[i]));
        lemma_skeleton_children_build(a, b, i + 1);
    }
}

/// Nodes with the same skeleton have the same share.
pub proof fn lemma_same_skeleton_share(a: NodeView, b: NodeView)
    requires
        same_skeleton(a, b),
    ensures
        a.share() == b.share(),
{
}


/// Pointwise equal shares give equal share sums.
pub proof fn lemma_sum_shares_congruent(a: Seq<NodeView>, b: Seq<NodeView>, i: int)
    requires
        0 <= i <= a.len(),
        a.len() == b.len(),
        forall|k: int| 0 <= k < a.len() ==> a[k].share() == b[k].share(),
    ensures
        sum_shares(a, i) == sum_shares(b, i),
    decreases a.len() - i,
{
    if i < a.len() {
        assert(a[i].share() == b[i].share());
        lemma_sum_shares_congruent(a, b, i + 1);
    }
}

/// A remap keeps the node's kind and bookkeeping and adopts the given
/// rectangle.
pub proof fn lemma_spec_remap_basic(nv: NodeView, c: SizeAndPos)
    ensures
        spec_remap(nv, c).size_pos() == c,
        spec_remap(nv, c).share() == nv.share(),
        spec_remap(nv, c).total() == nv.total(),
        spec_remap(nv, c).axis() == nv.axis(),
        spec_remap(nv, c) is Empty <==> nv is Empty,
        spec_remap(nv, c) is Window <==> nv is Window,
        spec_remap(nv, c) is Container <==> nv is Container,
{
}

/// What a remap guarantees: the result is well-formed, tiles its rectangle
/// exactly, keeps every share, id and total, and keeps share bookkeeping
/// consistent.
pub proof fn lemma_spec_remap_props(nv: NodeView, c: SizeAndPos)
    requires
        wf(nv),
        rect_bounded(c),
    ensures
        wf(spec_remap(nv, c)),
        tiled(spec_remap(nv, c)),
        same_skeleton(spec_remap(nv, c), nv),
        sums_ok(nv) ==> sums_ok(spec_remap(nv, c)),
    decreases nv, 1int,
{
    match nv {
        NodeView::Empty(_) => {},
        NodeView::Window { .. } => {},
        NodeView::Container { axis, children, size_pos, share, total } => {
            let s = children;
            let t = total as int;
            let r0 = remap_children(s, 0, c, axis, t);
            lemma_remap_children_char(s, c, axis, t);
            lemma_wf_children_index(s, 0);
            assert forall|j: int| 0 <= j < s.len() implies wf(#[trigger] r0[j]) && !(r0[j]
                is Empty) && same_skeleton(r0[j], s[j]) && tiled(r0[j]) && (sums_ok(s[j])
                ==> sums_ok(r0[j])) && r0[j].size_pos() == slot_of(s, j, c, axis, t) by {
                lemma_prefix_shares_nonneg(s, j);
                lemma_child_slot_bounded(
                    c,
                    axis,
                    t,
                    prefix_shares(s, j),
                    prefix_shares(s, j + 1),
                    j == s.len() - 1,
                );
                lemma_spec_remap_props(s[j], slot_of(s, j, c, axis, t));
                lemma_spec_remap_basic(s[j], slot_of(s, j, c, axis, t));
            }
            lemma_wf_children_build(r0, 0);
            lemma_skeleton_children_build(r0, s, 0);
            lemma_remap_children_tiled(s, 0, c, axis, t);
            if sums_ok(nv) {
                lemma_sums_children_index(s, 0);
                assert forall|j: int| 0 <= j < s.len() implies sums_ok(#[trigger] r0[j]) by {}
                lemma_sums_children_build(r0, 0);
                assert forall|j: int| 0 <= j < r0.len() implies r0[j].share() == s[j].share() by {
                    lemma_same_skeleton_share(r0[j], s[j]);
                }
                lemma_sum_shares_congruent(r0, s, 0);
            }
        },
    }
}

/// From index `i` on, the remapped children tile the rest of `c`: each one
/// starts where the shares before it set the boundary, and the last one
/// reaches the far edge.
proof fn lemma_remap_children_tiled(
    s: Seq<NodeView>,
    i: int,
    c: SizeAndPos,
    axis: InsertWay,
    total: int,
)
    requires
        0 <= i <= s.len(),
        rect_bounded(c),
        forall|j: int|
            0 <= j < s.len() ==> tiled(#[trigger] remap_children(s, 0, c, axis, total)[j])
                && remap_children(s, 0, c, axis, total)[j].size_pos() == slot_of(
                s,
                j,
                c,
                axis,
                total,
            ),
    ensures
        tiled_children(
            remap_children(s, 0, c, axis, total),
            i,
            c,
            axis,
            if i == s.len() {
                axis_end(c, axis)
            } else {
                axis_start(c, axis) + child_boundary(
                    axis_extent(c, axis),
                    prefix_shares(s, i),
                    total,
                )
            },
        ),
    decreases s.len() - i,
{
    let r0 = remap_children(s, 0, c, axis, total);
    let ext = axis_extent(c, axis);
    lemma_remap_children_char(s, c, axis, total);
    if i < s.len() {
        let lo = prefix_shares(s, i);
        let hi = prefix_shares(s, i + 1);
        let last = i == s.len() - 1;
        lemma_prefix_shares_nonneg(s, i);
        lemma_child_slot_bounded(c, axis, total, lo, hi, last);
        lemma_remap_children_tiled(s, i + 1, c, axis, total);
        if last {
            lemma_child_boundary_range(ext, hi, total);
        }
        assert(child_slot_ok(r0[i], c, axis, axis_start(c, axis) + child_boundary(ext, lo, total)));
    }
}

/// Remapping twice with the same rectangle is the same as remapping once.
#[verifier::rlimit(100)]
#[verifier::spinoff_prover]
pub proof fn lemma_spec_remap_idempotent(nv: NodeView, c: SizeAndPos)
    requires
        wf(nv),
        rect_bounded(c),
    ensures
        spec_remap(spec_remap(nv, c), c) == spec_remap(nv, c),
    decreases nv, 1int,
{
    match nv {
        NodeView::Empty(_) => {},
        NodeView::Window { .. } => {},
        NodeView::Container { axis, children, size_pos, share, total } => {
            let s = children;
            let t = total as int;
            let r0 = remap_children(s, 0, c, axis, t);
            lemma_remap_children_char(s, c, axis, t);
            lemma_spec_remap_props(nv, c);
            lemma_skeleton_children_index(r0, s, 0);
            assert forall|j: int| 0 <= j < r0.len() implies r0[j].share() == s[j].share() by {
                lemma_same_skeleton_share(r0[j], s[j]);
            }
            lemma_remap_children_char(r0, c, axis, t);
            lemma_wf_children_index(s, 0);
            assert forall|j: int| 0 <= j < r0.len() implies #[trigger] remap_children(
                r0,
                0,
                c,
                axis,
                t,
            )[j] == r0[j] by {
                lemma_prefix_shares_congruent(r0, s, j);
                lemma_prefix_shares_congruent(r0, s, j + 1);
                lemma_prefix_shares_nonneg(s, j);
                lemma_child_slot_bounded(
                    c,
                    axis,
                    t,
                    prefix_shares(s, j),
                    prefix_shares(s, j + 1),
                    j == s.len() - 1,
                );
                assert(slot_of(r0, j, c, axis, t) == slot_of(s, j, c, axis, t));
                lemma_spec_remap_idempotent(s[j], slot_of(s, j, c, axis, t));
            }
            assert(remap_children(r0, 0, c, axis, t) =~= r0);
        },
    }
}


/// The boundary after `num` of `total` share units inside a non-negative
/// extent, as the layout code computes it.
fn boundary_exec(ext: i64, num: u128, total: u64) -> (b: i64)
    requires
        0 <= ext,
    ensures
        b as int == child_boundary(ext as int, num as int, total as int),
        0 <= b <= ext,
{
    proof {
        lemma_child_boundary_range(ext as int, num as int, total as int);
    }
    let t: u128 = if total == 0 {
        1
    } else {
        total as u128
    };
    if num >= t {
        ext
    } else {
        proof {
            lemma_mul_upper_bound(
                ext as int,
                0x7fff_ffff_ffff_ffff,
                num as int,
                0xffff_ffff_ffff_fffe,
            );
        }
        let q = (ext as u128 * num) / t;
        proof {
            lemma_mul_nonnegative(ext as int, num as int);
            lemma_mul_inequality(num as int, t as int, ext as int);
            lemma_mul_is_commutative(num as int, ext as int);
            lemma_mul_is_commutative(t as int, ext as int);
            lemma_div_is_ordered((ext as int) * (num as int), (ext as int) * (t as int), t as int);
            lemma_div_by_multiple(ext as int, t as int);
            lemma_div_pos_is_pos((ext as int) * (num as int), t as int);
        }
        q as i64
    }
}

/// Shares can only add up so far: each is below 2^64.
proof fn lemma_prefix_shares_bound(s: Seq<NodeView>, j: int)
    requires
        0 <= j <= s.len(),
    ensures
        prefix_shares(s, j) <= j * 0xffff_ffff_ffff_ffff,
    decreases j,
{
    if j > 0 {
        lemma_prefix_shares_bound(s, j - 1);
        assert((j - 1) * 0xffff_ffff_ffff_ffff + 0xffff_ffff_ffff_ffff == j
            * 0xffff_ffff_ffff_ffff) by (nonlinear_arith);
    }
}

/// Remap the children of a container into `c` along `axis`: child `i` gets
/// the slot its shares call for, and every pane underneath reports through
/// the callback.
#[verifier::loop_isolation(false)]
fn remap_elements<F: DispatchCallback>(
    elements: Vec<Element>,
    c: SizeAndPos,
    axis: InsertWay,
    total: u64,
    f: &mut F,
) -> (r: Vec<Element>)
    requires
        rect_bounded(c),
        wf_children(views_of(elements@, 0), 0),
    ensures
        views_of(r@, 0) == remap_children(views_of(elements@, 0), 0, c, axis, total as int),
    decreases elements,
{
    let ghost gv = elements;
    let ghost orig = elements@;
    let ghost s = views_of(orig, 0);
    let ghost rc = remap_children(s, 0, c, axis, total as int);
    proof {
        lemma_views_of_all(orig);
        lemma_remap_children_char(s, c, axis, total as int);
        lemma_wf_children_index(s, 0);
    }
    let mut work = elements;
    let ext = match axis {
        InsertWay::Vertical => c.size.height,
        InsertWay::Horizontal => c.size.width,
    };
    let n = work.len();
    let mut acc: u128 = 0;
    let mut i: usize = 0;
    while i < n
        invariant
            0 <= i <= n,
            n == orig.len(),
            work@.len() == n,
            rect_bounded(c),
            s == views_of(orig, 0),
            rc == remap_children(s, 0, c, axis, total as int),
            s.len() == n,
            rc.len() == n,
            ext as int == axis_extent(c, axis),
            0 <= ext,
            gv@ == orig,
            forall|j: int| 0 <= j < n ==> s[j] == node_view(orig[j]),
            forall|j: int| 0 <= j < n ==> wf(#[trigger] s[j]),
            forall|j: int|
                0 <= j < n ==> #[trigger] rc[j] == spec_remap(s[j], slot_of(s, j, c, axis,
                total as int)),
            forall|j: int| i <= j < n ==> work@[j] == orig[j],
            forall|j: int| 0 <= j < i ==> node_view(#[trigger] work@[j]) == rc[j],
            acc as int == prefix_shares(s, i as int),
        decreases n - i,
    {
        proof {
            lemma_prefix_shares_bound(s, i as int);
            assert((i as int) * 0xffff_ffff_ffff_ffff < 0xffff_ffff_ffff_ffff_ffff_ffff_ffff_ffff
                - 0xffff_ffff_ffff_ffff) by (nonlinear_arith)
                requires
                    i < 0x1_0000_0000_0000_0000,
            ;
        }
        let child = work.remove(i);
        assert(child == orig[i as int]);
        let share_i = child.percent();
        assert(share_i == s[i as int].share());
        let b0 = boundary_exec(ext, acc, total);
        let next_acc: u128 = acc + share_i as u128;
        assert(next_acc as int == prefix_shares(s, i as int + 1));
        let b1 = if i == n - 1 {
            ext
        } else {
            boundary_exec(ext, next_acc, total)
        };
        proof {
            lemma_prefix_shares_nonneg(s, i as int);
            lemma_child_slot_bounded(
                c,
                axis,
                total as int,
                prefix_shares(s, i as int),
                prefix_shares(s, i as int + 1),
                i as int == s.len() - 1,
            );
            lemma_child_boundary_mono(
                ext as int,
                prefix_shares(s, i as int),
                prefix_shares(s, i as int + 1),
                total as int,
            );
            lemma_child_boundary_range(ext as int, prefix_shares(s, i as int + 1), total as int);
        }
        let slot = match axis {
            InsertWay::Vertical => SizeAndPos {
                size: Size { width: c.size.width, height: b1 - b0 },
                position: Position { x: c.position.x, y: c.position.y + b0 },
            },
            InsertWay::Horizontal => SizeAndPos {
                size: Size { width: b1 - b0, height: c.size.height },
                position: Position { x: c.position.x + b0, y: c.position.y },
            },
        };
        assert(slot == slot_of(s, i as int, c, axis, total as int));
        proof {
            assert(decreases_to!(gv => gv@[i as int]));
        }
        let done = remap_node_for(child, slot, f);
        work.insert(i, done);
        i = i + 1;
        acc = next_acc;
    }
    proof {
        lemma_views_of_all(work@);
        assert(views_of(work@, 0) =~= rc);
    }
    work
}

/// Lay the whole tree out anew inside `c`, reporting every pane's new
/// rectangle through the callback, in depth-first child order.
pub(crate) fn remap_node_for<F: DispatchCallback>(e: Element, c: SizeAndPos, f: &mut F) -> (r:
    Element)
    requires
        wf(e@),
        rect_bounded(c),
    ensures
        r@ == spec_remap(e@, c),
    decreases e,
{
    let ghost g = e;
    match e {
        Element::EmptyOutput(_) => Element::EmptyOutput(c),
        Element::Window { id, share, .. } => {
            f.callback(id, c);
            Element::Window { id, size_pos: c, share }
        },
        Element::Vertical { elements, share, total, .. } => {
            proof {
                assert(decreases_to!(g => elements));
            }
            let new_elements = remap_elements(elements, c, InsertWay::Vertical, total, f);
            Element::Vertical { elements: new_elements, size_pos: c, share, total }
        },
        Element::Horizontal { elements, share, total, .. } => {
            proof {
                assert(decreases_to!(g => elements));
            }
            let new_elements = remap_elements(elements, c, InsertWay::Horizontal, total, f);
            Element::Horizontal { elements: new_elements, size_pos: c, share, total }
        },
    }
}

impl Element {
    /// Lay the tree out anew inside `c_size_pos`: every rectangle is
    /// recomputed from the shares, top down, and the callback fires once for
    /// each pane, in depth-first child order, with its new rectangle. Shares
    /// are never changed, and doing this twice with the same rectangle
    /// changes nothing the second time.
    pub fn remap<F: DispatchCallback>(&mut self, c_size_pos: SizeAndPos, f: &mut F)
        requires
            wf(old(self)@),
            rect_bounded(c_size_pos),
        ensures
            final(self)@ == spec_remap(old(self)@, c_size_pos),
            wf(final(self)@),
            tiled(final(self)@),
            same_skeleton(final(self)@, old(self)@),
            sums_ok(old(self)@) ==> sums_ok(final(self)@),
    {
        proof {
            lemma_spec_remap_props(self@, c_size_pos);
        }
        let mut tmp = Element::EmptyOutput(
            SizeAndPos {
                size: Size { width: 0, height: 0 },
                position: Position { x: 0, y: 0 },
            },
        );
        core::mem::swap(self, &mut tmp);
        let done = remap_node_for(tmp, c_size_pos, f);
        *self = done;
    }
}

} // verus!
