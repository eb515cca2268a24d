use vstd::prelude::*;

verus! {

use crate::{Element, Id};
use crate::utils::{rect_bounded, InsertWay, SizeAndPos};

/// The mathematical shape of a pane tree: the two container variants of
/// `Element` collapse into one carrying its axis, and children form a `Seq`.
/// Every contract of the crate speaks about this view.
pub enum NodeView {
    Empty(SizeAndPos),
    Window { id: Id, size_pos: SizeAndPos, share: u64 },
    Container {
        axis: InsertWay,
        children: Seq<NodeView>,
        size_pos: SizeAndPos,
        share: u64,
        total: u64,
    },
}

impl NodeView {
    /// The node's own rectangle.
    pub open spec fn size_pos(self) -> SizeAndPos {
        match self {
            NodeView::Empty(sp) => sp,
            NodeView::Window { size_pos, .. } => size_pos,
            NodeView::Container { size_pos, .. } => size_pos,
        }
    }

    /// The node's share of its parent; one where no parent exists.
    pub open spec fn share(self) -> u64 {
        match self {
            NodeView::Empty(_) => 1,
            NodeView::Window { share, .. } => share,
            NodeView::Container { share, .. } => share,
        }
    }

    /// The children of a container; empty for leaves.
    pub open spec fn children(self) -> Seq<NodeView> {
        match self {
            NodeView::Container { children, .. } => children,
            _ => Seq::empty(),
        }
    }

    /// The stored share total of a container; one elsewhere.
    pub open spec fn total(self) -> u64 {
        match self {
            NodeView::Container { total, .. } => total,
            _ => 1,
        }
    }

    /// The axis along which a container stacks its children; `Horizontal`
    /// for every other node, as the layout walk treats them.
    pub open spec fn axis(self) -> InsertWay {
        match self {
            NodeView::Container { axis, .. } => axis,
            _ => InsertWay::Horizontal,
        }
    }

    /// This node with its share replaced; an empty tree holds no share.
    pub open spec fn with_share(self, new_share: u64) -> NodeView {
        match self {
            NodeView::Empty(sp) => NodeView::Empty(sp),
            NodeView::Window { id, size_pos, .. } => NodeView::Window {
                id,
                size_pos,
                share: new_share,
            },
            NodeView::Container { axis, children, size_pos, total, .. } => NodeView::Container {
                axis,
                children,
                size_pos,
                share: new_share,
                total,
            },
        }
    }

    /// This node with its own rectangle replaced.
    pub open spec fn with_size_pos(self, new_sp: SizeAndPos) -> NodeView {
        match self {
            NodeView::Empty(_) => NodeView::Empty(new_sp),
            NodeView::Window { id, share, .. } => NodeView::Window { id, size_pos: new_sp, share },
            NodeView::Container { axis, children, share, total, .. } => NodeView::Container {
                axis,
                children,
                size_pos: new_sp,
                share,
                total,
            },
        }
    }

}

/// The view of one tree node.
pub open spec fn node_view(e: Element) -> NodeView
    decreases e, 1int,
{
    match e {
        Element::EmptyOutput(sp) => NodeView::Empty(sp),
        Element::Window { id, size_pos, share } => NodeView::Window { id, size_pos, share },
        Element::Vertical { elements, size_pos, share, total } => NodeView::Container {
            axis: InsertWay::Vertical,
            children: views_of(elements@, 0),
            size_pos,
            share,
            total,
        },
        Element::Horizontal { elements, size_pos, share, total } => NodeView::Container {
            axis: InsertWay::Horizontal,
            children: views_of(elements@, 0),
            size_pos,
            share,
            total,
        },
    }
}

/// The views of the elements of `s` from index `i` on, in order.
pub open spec fn views_of(s: Seq<Element>, i: int) -> Seq<NodeView>
    decreases s, s.len() - i,
{
    if i < 0 || i >= s.len() {
        Seq::empty()
    } else {
        seq![node_view(s[i])] + views_of(s, i + 1)
    }
}

/// `views_of(s, i)` is the pointwise view of the tail of `s` from `i` on.
pub proof fn lemma_views_of(s: Seq<Element>, i: int)
    requires
        0 <= i <= s.len(),
    ensures
        views_of(s, i).len() == s.len() - i,
        forall|j: int| i <= j < s.len() ==> views_of(s, i)[j - i] == node_view(s[j]),
    decreases s.len() - i,
{
    if i < s.len() {
        lemma_views_of(s, i + 1);
    }
}

/// The whole view sequence, pointwise.
pub proof fn lemma_views_of_all(s: Seq<Element>)
    ensures
        views_of(s, 0).len() == s.len(),
        forall|j: int| 0 <= j < s.len() ==> #[trigger] views_of(s, 0)[j] == node_view(s[j]),
{
    lemma_views_of(s, 0);
    assert forall|j: int| 0 <= j < s.len() implies #[trigger] views_of(s, 0)[j] == node_view(
        s[j],
    ) by {
        assert(views_of(s, 0)[j - 0] == node_view(s[j]));
    }
}

impl View for Element {
    type V = NodeView;

    open spec fn view(&self) -> NodeView {
        node_view(*self)
    }
}

/// Structural and geometric well-formedness: every rectangle is bounded,
/// every container has at least two children, and an empty node occurs only
/// as the whole tree. Every operation preserves this.
pub open spec fn wf(nv: NodeView) -> bool
    decreases nv, 0int,
{
    match nv {
        NodeView::Empty(sp) => rect_bounded(sp),
        NodeView::Window { size_pos, .. } => rect_bounded(size_pos),
        NodeView::Container { children, size_pos, .. } => rect_bounded(size_pos) && children.len()
            >= 2 && wf_children(children, 0),
    }
}

pub open spec fn wf_children(s: Seq<NodeView>, i: int) -> bool
    decreases s, s.len() - i,
{
    if i < 0 || i >= s.len() {
        true
    } else {
        !(s[i] is Empty) && wf(s[i]) && wf_children(s, i + 1)
    }
}

/// Each child from `i` on is well-formed and not empty.
pub proof fn lemma_wf_children_index(s: Seq<NodeView>, i: int)
    requires
        0 <= i <= s.len(),
        wf_children(s, i),
    ensures
        forall|j: int| i <= j < s.len() ==> wf(#[trigger] s[j]) && !(s[j] is Empty),
    decreases s.len() - i,
{
    if i < s.len() {
        lemma_wf_children_index(s, i + 1);
    }
}

/// `wf_children` follows from the same facts pointwise.
pub proof fn lemma_wf_children_build(s: Seq<NodeView>, i: int)
    requires
        0 <= i <= s.len(),
        forall|j: int| i <= j < s.len() ==> wf(#[trigger] s[j]) && !(s[j] is Empty),
    ensures
        wf_children(s, i),
    decreases s.len() - i,
{
    if i < s.len() {
        lemma_wf_children_build(s, i + 1);
    }
}

/// The sum of the children's shares from index `i` on, as an unbounded
/// integer.
pub open spec fn sum_shares(s: Seq<NodeView>, i: int) -> int
    decreases s, s.len() - i,
{
    if i < 0 || i >= s.len() {
        0
    } else {
        s[i].share() + sum_shares(s, i + 1)
    }
}

/// Share bookkeeping is consistent: every container's stored `total` equals
/// the sum of its children's shares, so the children's fractions of the
/// container sum to exactly one. Insert, delete, drag and remap preserve
/// this; swapping panes that sit in different containers may not.
pub open spec fn sums_ok(nv: NodeView) -> bool
    decreases nv, 0int,
{
    match nv {
        NodeView::Empty(_) => true,
        NodeView::Window { .. } => true,
        NodeView::Container { children, total, .. } => total as int == sum_shares(children, 0)
            && sums_children(children, 0),
    }
}

pub open spec fn sums_children(s: Seq<NodeView>, i: int) -> bool
    decreases s, s.len() - i,
{
    if i < 0 || i >= s.len() {
        true
    } else {
        sums_ok(s[i]) && sums_children(s, i + 1)
    }
}

pub proof fn lemma_sums_children_index(s: Seq<NodeView>, i: int)
    requires
        0 <= i <= s.len(),
        sums_children(s, i),
    ensures
        forall|j: int| i <= j < s.len() ==> sums_ok(#[trigger] s[j]),
    decreases s.len() - i,
{
    if i < s.len() {
        lemma_sums_children_index(s, i + 1);
    }
}

pub proof fn lemma_sums_children_build(s: Seq<NodeView>, i: int)
    requires
        0 <= i <= s.len(),
        forall|j: int| i <= j < s.len() ==> sums_ok(#[trigger] s[j]),
    ensures
        sums_children(s, i),
    decreases s.len() - i,
{
    if i < s.len() {
        lemma_sums_children_build(s, i + 1);
    }
}

/// A share sum only reads the elements from `i` on: updating an earlier
/// element, or one whose share is unchanged, keeps it; updating a later one
/// shifts it by the difference.
pub proof fn lemma_sum_shares_update(s: Seq<NodeView>, i: int, j: int, x: NodeView)
    requires
        0 <= i <= s.len(),
        0 <= j < s.len(),
    ensures
        j < i ==> sum_shares(s.update(j, x), i) == sum_shares(s, i),
        i <= j ==> sum_shares(s.update(j, x), i) == sum_shares(s, i) - s[j].share()
            + x.share(),
    decreases s.len() - i,
{
    if i < s.len() {
        lemma_sum_shares_update(s, i + 1, j, x);
    }
}

/// Inserting an element at `j` adds its share to sums that cover `j`.
pub proof fn lemma_sum_shares_insert(s: Seq<NodeView>, i: int, j: int, x: NodeView)
    requires
        0 <= i <= s.len(),
        i <= j <= s.len(),
    ensures
        sum_shares(s.insert(j, x), i) == sum_shares(s, i) + x.share(),
    decreases j - i,
{
    if i < j {
        assert(s.insert(j, x)[i] == s[i]);
        lemma_sum_shares_insert(s, i + 1, j, x);
    } else {
        assert(s.insert(j, x)[j] == x);
        lemma_sum_shares_shifted(s, s.insert(j, x), j, 1);
    }
}

/// Removing the element at `j` takes its share out of sums that cover `j`.
pub proof fn lemma_sum_shares_remove(s: Seq<NodeView>, i: int, j: int)
    requires
        0 <= i <= j < s.len(),
    ensures
        sum_shares(s.remove(j), i) == sum_shares(s, i) - s[j].share(),
    decreases j - i,
{
    if i < j {
        assert(s.remove(j)[i] == s[i]);
        lemma_sum_shares_remove(s, i + 1, j);
    } else {
        lemma_sum_shares_shifted(s.remove(j), s, j, 1);
    }
}

/// `b` from `i + k` on is `a` from `i` on, so the tail sums agree.
pub proof fn lemma_sum_shares_shifted(a: Seq<NodeView>, b: Seq<NodeView>, i: int, k: int)
    requires
        0 <= i <= a.len(),
        0 <= k,
        b.len() == a.len() + k,
        forall|j: int| i <= j < a.len() ==> a[j] == b[j + k],
    ensures
        sum_shares(a, i) == sum_shares(b, i + k),
    decreases a.len() - i,
{
    if i < a.len() {
        lemma_sum_shares_shifted(a, b, i + 1, k);
    }
}

/// The children of every container tile the container's rectangle exactly,
/// in child order: along the container's axis they sit one after the other
/// from the container's start to its end, and across the other axis each
/// spans the container fully. Insert, delete, drag and remap preserve this;
/// remap establishes it outright. Swap may break it until the next remap.
pub open spec fn tiled(nv: NodeView) -> bool
    decreases nv, 0int,
{
    match nv {
        NodeView::Empty(_) => true,
        NodeView::Window { .. } => true,
        NodeView::Container { axis, children, size_pos, .. } => tiled_children(
            children,
            0,
            size_pos,
            axis,
            axis_start(size_pos, axis),
        ),
    }
}

/// The children from index `i` on tile the rest of `sp` along `axis`,
/// starting at offset `cur` and reaching exactly to `sp`'s end.
pub open spec fn tiled_children(
    s: Seq<NodeView>,
    i: int,
    sp: SizeAndPos,
    axis: InsertWay,
    cur: int,
) -> bool
    decreases s, s.len() - i,
{
    if i < 0 || i >= s.len() {
        cur == axis_end(sp, axis)
    } else {
        child_slot_ok(s[i], sp, axis, cur) && tiled(s[i]) && tiled_children(
            s,
            i + 1,
            sp,
            axis,
            cur + axis_extent(s[i].size_pos(), axis),
        )
    }
}

/// Where `sp` ends along `axis`.
pub open spec fn axis_end(sp: SizeAndPos, axis: InsertWay) -> int {
    match axis {
        InsertWay::Vertical => sp.position.y + sp.size.height,
        InsertWay::Horizontal => sp.position.x + sp.size.width,
    }
}

/// Where `sp` starts along `axis`.
pub open spec fn axis_start(sp: SizeAndPos, axis: InsertWay) -> int {
    match axis {
        InsertWay::Vertical => sp.position.y as int,
        InsertWay::Horizontal => sp.position.x as int,
    }
}

/// `sp`'s extent along `axis`.
pub open spec fn axis_extent(sp: SizeAndPos, axis: InsertWay) -> int {
    match axis {
        InsertWay::Vertical => sp.size.height as int,
        InsertWay::Horizontal => sp.size.width as int,
    }
}

/// The child starts at offset `cur` along `axis` and spans `sp` fully
/// across the other axis.
pub open spec fn child_slot_ok(c: NodeView, sp: SizeAndPos, axis: InsertWay, cur: int) -> bool {
    let csp = c.size_pos();
    match axis {
        InsertWay::Vertical => csp.position.y == cur && csp.position.x == sp.position.x
            && csp.size.width == sp.size.width,
        InsertWay::Horizontal => csp.position.x == cur && csp.position.y == sp.position.y
            && csp.size.height == sp.size.height,
    }
}

/// Whether some pane in the tree carries `target`. False for an empty tree.
pub open spec fn contains_id(nv: NodeView, target: Id) -> bool
    decreases nv, 0int,
{
    match nv {
        NodeView::Empty(_) => false,
        NodeView::Window { id, .. } => id == target,
        NodeView::Container { children, .. } => seq_contains_id(children, 0, target),
    }
}

pub open spec fn seq_contains_id(s: Seq<NodeView>, i: int, target: Id) -> bool
    decreases s, s.len() - i,
{
    if i < 0 || i >= s.len() {
        false
    } else {
        contains_id(s[i], target) || seq_contains_id(s, i + 1, target)
    }
}

/// What `has_id` answers: an empty tree accepts any id as a future anchor,
/// so the answer is vacuously true there.
pub open spec fn spec_has_id(nv: NodeView, target: Id) -> bool {
    nv is Empty || contains_id(nv, target)
}

/// The first pane holding `target`, in depth-first child order.
pub open spec fn spec_find_window(nv: NodeView, target: Id) -> Option<NodeView>
    decreases nv, 0int,
{
    match nv {
        NodeView::Empty(_) => None,
        NodeView::Window { id, .. } => if id == target {
            Some(nv)
        } else {
            None
        },
        NodeView::Container { children, .. } => seq_find_window(children, 0, target),
    }
}

pub open spec fn seq_find_window(s: Seq<NodeView>, i: int, target: Id) -> Option<NodeView>
    decreases s, s.len() - i,
{
    if i < 0 || i >= s.len() {
        None
    } else if spec_find_window(s[i], target) is Some {
        spec_find_window(s[i], target)
    } else {
        seq_find_window(s, i + 1, target)
    }
}


/// `x` and `y` agree across the axis: same start and extent on the axis
/// perpendicular to `axis`.
pub open spec fn off_axis_eq(x: SizeAndPos, y: SizeAndPos, axis: InsertWay) -> bool {
    match axis {
        InsertWay::Vertical => x.position.x == y.position.x && x.size.width == y.size.width,
        InsertWay::Horizontal => x.position.y == y.position.y && x.size.height == y.size.height,
    }
}

/// Tiling from `i` on only depends on each child's rectangle and its own
/// tiling.
pub proof fn lemma_tiled_children_pointwise(
    a: Seq<NodeView>,
    b: Seq<NodeView>,
    i: int,
    sp: SizeAndPos,
    axis: InsertWay,
    cur: int,
)
    requires
        0 <= i <= a.len(),
        a.len() == b.len(),
        tiled_children(a, i, sp, axis, cur),
        forall|k: int|
            i <= k < a.len() ==> (#[trigger] b[k]).size_pos() == a[k].size_pos() && (tiled(a[k])
                ==> tiled(b[k])),
    ensures
        tiled_children(b, i, sp, axis, cur),
    decreases a.len() - i,
{
    if i < a.len() {
        assert(b[i].size_pos() == a[i].size_pos() && (tiled(a[i]) ==> tiled(b[i])));
        lemma_tiled_children_pointwise(a, b, i + 1, sp, axis, cur + axis_extent(a[i].size_pos(), axis));
    }
}

/// `b` from `i + k` on is `a` from `i` on, so the tilings agree.
pub proof fn lemma_tiled_children_shifted(
    a: Seq<NodeView>,
    b: Seq<NodeView>,
    i: int,
    k: int,
    sp: SizeAndPos,
    axis: InsertWay,
    cur: int,
)
    requires
        0 <= i <= a.len(),
        0 <= k,
        b.len() == a.len() + k,
        forall|m: int| i <= m < a.len() ==> a[m] == b[m + k],
        tiled_children(a, i, sp, axis, cur),
    ensures
        tiled_children(b, i + k, sp, axis, cur),
    decreases a.len() - i,
{
    if i < a.len() {
        assert(a[i] == b[i + k]);
        lemma_tiled_children_shifted(a, b, i + 1, k, sp, axis, cur + axis_extent(a[i].size_pos(), axis));
    }
}

/// Replacing child `j` by a node with the same rectangle that tiles itself
/// keeps the container tiled.
pub proof fn lemma_tiled_children_update(
    s: Seq<NodeView>,
    i: int,
    j: int,
    sp: SizeAndPos,
    axis: InsertWay,
    cur: int,
    a: NodeView,
)
    requires
        0 <= i <= j < s.len(),
        tiled_children(s, i, sp, axis, cur),
        a.size_pos() == s[j].size_pos(),
        tiled(a),
    ensures
        tiled_children(s.update(j, a), i, sp, axis, cur),
    decreases j - i,
{
    if i < j {
        assert(s.update(j, a)[i] == s[i]);
        lemma_tiled_children_update(s, i + 1, j, sp, axis, cur + axis_extent(s[i].size_pos(), axis), a);
    } else {
        assert(s.update(j, a)[j] == a);
        assert(forall|m: int|
            j + 1 <= m < s.len() ==> s[m] == #[trigger] s.update(j, a)[m]);
        lemma_tiled_children_shifted_eq(s, s.update(j, a), j + 1, sp, axis, cur + axis_extent(
            s[j].size_pos(),
            axis,
        ));
    }
}

/// Two child sequences equal from `i` on have the same tiling from `i` on.
pub proof fn lemma_tiled_children_shifted_eq(
    a: Seq<NodeView>,
    b: Seq<NodeView>,
    i: int,
    sp: SizeAndPos,
    axis: InsertWay,
    cur: int,
)
    requires
        0 <= i <= a.len(),
        a.len() == b.len(),
        forall|m: int| i <= m < a.len() ==> a[m] == b[m],
        tiled_children(a, i, sp, axis, cur),
    ensures
        tiled_children(b, i, sp, axis, cur),
    decreases a.len() - i,
{
    if i < a.len() {
        assert(a[i] == b[i]);
        lemma_tiled_children_shifted_eq(a, b, i + 1, sp, axis, cur + axis_extent(a[i].size_pos(), axis));
    }
}

/// Splitting child `j` into the adjacent pair `a`, `b` that tiles its
/// rectangle keeps the container tiled.
pub proof fn lemma_tiled_splice(
    s: Seq<NodeView>,
    i: int,
    j: int,
    sp: SizeAndPos,
    axis: InsertWay,
    cur: int,
    a: NodeView,
    b: NodeView,
)
    requires
        0 <= i <= j < s.len(),
        tiled_children(s, i, sp, axis, cur),
        off_axis_eq(a.size_pos(), s[j].size_pos(), axis),
        off_axis_eq(b.size_pos(), s[j].size_pos(), axis),
        axis_start(a.size_pos(), axis) == axis_start(s[j].size_pos(), axis),
        axis_start(b.size_pos(), axis) == axis_start(s[j].size_pos(), axis) + axis_extent(
            a.size_pos(),
            axis,
        ),
        axis_extent(a.size_pos(), axis) + axis_extent(b.size_pos(), axis) == axis_extent(
            s[j].size_pos(),
            axis,
        ),
        tiled(a),
        tiled(b),
    ensures
        tiled_children(s.update(j, a).insert(j + 1, b), i, sp, axis, cur),
    decreases j - i,
{
    let s2 = s.update(j, a).insert(j + 1, b);
    if i < j {
        assert(s2[i] == s[i]);
        lemma_tiled_splice(s, i + 1, j, sp, axis, cur + axis_extent(s[i].size_pos(), axis), a, b);
    } else {
        assert(s2[j] == a);
        assert(s2[j + 1] == b);
        assert(forall|m: int| j + 1 <= m < s.len() ==> s[m] == #[trigger] s2[m + 1]);
        lemma_tiled_children_shifted(s, s2, j + 1, 1, sp, axis, cur + axis_extent(
            s[j].size_pos(),
            axis,
        ));
        assert(tiled_children(s2, j + 2, sp, axis, cur + axis_extent(s[j].size_pos(), axis)));
        assert(tiled_children(s2, j + 1, sp, axis, cur + axis_extent(a.size_pos(), axis)));
        assert(tiled_children(s2, j, sp, axis, cur));
    }
}


/// Each child from `i` on of a tiled container is itself tiled.
pub proof fn lemma_tiled_children_index(
    s: Seq<NodeView>,
    i: int,
    sp: SizeAndPos,
    axis: InsertWay,
    cur: int,
)
    requires
        0 <= i <= s.len(),
        tiled_children(s, i, sp, axis, cur),
    ensures
        forall|j: int| i <= j < s.len() ==> tiled(#[trigger] s[j]),
    decreases s.len() - i,
{
    if i < s.len() {
        lemma_tiled_children_index(s, i + 1, sp, axis, cur + axis_extent(s[i].size_pos(), axis));
    }
}


/// Replacing the adjacent pair `j`, `j + 1` by one node `m` that covers
/// both slots keeps the container tiled.
pub proof fn lemma_tiled_merge(
    s: Seq<NodeView>,
    i: int,
    j: int,
    sp: SizeAndPos,
    axis: InsertWay,
    cur: int,
    m: NodeView,
)
    requires
        0 <= i <= j,
        j + 1 < s.len(),
        tiled_children(s, i, sp, axis, cur),
        off_axis_eq(m.size_pos(), s[j].size_pos(), axis),
        axis_start(m.size_pos(), axis) == axis_start(s[j].size_pos(), axis),
        axis_extent(m.size_pos(), axis) == axis_extent(s[j].size_pos(), axis) + axis_extent(
            s[j + 1].size_pos(),
            axis,
        ),
        tiled(m),
    ensures
        tiled_children(s.update(j, m).remove(j + 1), i, sp, axis, cur),
    decreases j - i,
{
    let s2 = s.update(j, m).remove(j + 1);
    if i < j {
        assert(s2[i] == s[i]);
        lemma_tiled_merge(s, i + 1, j, sp, axis, cur + axis_extent(s[i].size_pos(), axis), m);
    } else {
        assert(s2[j] == m);
        assert(forall|k: int| j + 2 <= k < s.len() ==> s[k] == #[trigger] s2[k - 1]);
        assert(forall|k: int|
            j + 1 <= k < s2.len() ==> s2[k] == #[trigger] s[k + 1]);
        let cur1 = cur + axis_extent(s[j].size_pos(), axis);
        let cur2 = cur1 + axis_extent(s[j + 1].size_pos(), axis);
        assert(tiled_children(s, j + 1, sp, axis, cur1));
        assert(tiled_children(s, j + 2, sp, axis, cur2));
        lemma_tiled_merge_tail(s, s2, j + 2, sp, axis, cur2);
        assert(tiled_children(s2, j + 1, sp, axis, cur2));
        assert(tiled_children(s2, j, sp, axis, cur));
    }
}

proof fn lemma_tiled_merge_tail(
    a: Seq<NodeView>,
    b: Seq<NodeView>,
    i: int,
    sp: SizeAndPos,
    axis: InsertWay,
    cur: int,
)
    requires
        1 <= i <= a.len(),
        b.len() == a.len() - 1,
        forall|m: int| i <= m < a.len() ==> a[m] == b[m - 1],
        tiled_children(a, i, sp, axis, cur),
    ensures
        tiled_children(b, i - 1, sp, axis, cur),
    decreases a.len() - i,
{
    if i < a.len() {
        assert(a[i] == b[i - 1]);
        lemma_tiled_merge_tail(a, b, i + 1, sp, axis, cur + axis_extent(a[i].size_pos(), axis));
    }
}


/// Share sums are never negative.
pub proof fn lemma_sum_shares_nonneg(s: Seq<NodeView>, i: int)
    ensures
        0 <= sum_shares(s, i),
    decreases s.len() - i,
{
    if 0 <= i < s.len() {
        lemma_sum_shares_nonneg(s, i + 1);
    }
}

/// One share never exceeds the sum that covers it.
pub proof fn lemma_share_le_sum(s: Seq<NodeView>, i: int, j: int)
    requires
        0 <= i <= j < s.len(),
    ensures
        s[j].share() <= sum_shares(s, i),
    decreases j - i,
{
    if i < j {
        lemma_share_le_sum(s, i + 1, j);
    } else {
        lemma_sum_shares_nonneg(s, i + 1);
    }
}

/// Two shares at distinct places never exceed the sum that covers both.
pub proof fn lemma_two_shares_le_sum(s: Seq<NodeView>, i: int, j: int, k: int)
    requires
        0 <= i <= j < k < s.len(),
    ensures
        s[j].share() + s[k].share() <= sum_shares(s, i),
    decreases j - i,
{
    if i < j {
        lemma_two_shares_le_sum(s, i + 1, j, k);
    } else {
        lemma_share_le_sum(s, i + 1, k);
    }
}

/// The consecutive slots of a tiled container: each child ends where the
/// next begins, and all agree with the container across the axis.
pub proof fn lemma_tiled_adjacent(
    s: Seq<NodeView>,
    i: int,
    j: int,
    sp: SizeAndPos,
    axis: InsertWay,
    cur: int,
)
    requires
        0 <= i <= j,
        j + 1 < s.len(),
        tiled_children(s, i, sp, axis, cur),
    ensures
        axis_start(s[j + 1].size_pos(), axis) == axis_start(s[j].size_pos(), axis) + axis_extent(
            s[j].size_pos(),
            axis,
        ),
        off_axis_eq(s[j].size_pos(), sp, axis),
        off_axis_eq(s[j + 1].size_pos(), sp, axis),
    decreases j - i,
{
    if i < j {
        lemma_tiled_adjacent(s, i + 1, j, sp, axis, cur + axis_extent(s[i].size_pos(), axis));
    } else {
        assert(child_slot_ok(s[j], sp, axis, cur));
        assert(tiled_children(s, j + 1, sp, axis, cur + axis_extent(s[j].size_pos(), axis)));
        assert(child_slot_ok(s[j + 1], sp, axis, cur + axis_extent(s[j].size_pos(), axis)));
    }
}

/// Replacing a node's own rectangle: what survives, and when.
pub proof fn lemma_with_size_pos_props(x: NodeView, p: SizeAndPos)
    ensures
        x.with_size_pos(p).size_pos() == p,
        x.with_size_pos(p).share() == x.share(),
        x.with_size_pos(p) is Empty <==> x is Empty,
        wf(x) && rect_bounded(p) ==> wf(x.with_size_pos(p)),
        sums_ok(x.with_size_pos(p)) == sums_ok(x),
        x.size_pos() == p ==> x.with_size_pos(p) == x,
{
}


/// Replacing the adjacent pair `j`, `j + 1` by a pair that covers the same
/// two slots, split at a new boundary, keeps the container tiled.
pub proof fn lemma_tiled_pair_update(
    s: Seq<NodeView>,
    i: int,
    j: int,
    sp: SizeAndPos,
    axis: InsertWay,
    cur: int,
    a: NodeView,
    b: NodeView,
)
    requires
        0 <= i <= j,
        j + 1 < s.len(),
        tiled_children(s, i, sp, axis, cur),
        off_axis_eq(a.size_pos(), s[j].size_pos(), axis),
        off_axis_eq(b.size_pos(), s[j].size_pos(), axis),
        axis_start(a.size_pos(), axis) == axis_start(s[j].size_pos(), axis),
        axis_start(b.size_pos(), axis) == axis_start(a.size_pos(), axis) + axis_extent(
            a.size_pos(),
            axis,
        ),
        axis_extent(a.size_pos(), axis) + axis_extent(b.size_pos(), axis) == axis_extent(
            s[j].size_pos(),
            axis,
        ) + axis_extent(s[j + 1].size_pos(), axis),
        tiled(a),
        tiled(b),
    ensures
        tiled_children(s.update(j, a).update(j + 1, b), i, sp, axis, cur),
    decreases j - i,
{
    let s2 = s.update(j, a).update(j + 1, b);
    if i < j {
        assert(s2[i] == s[i]);
        lemma_tiled_pair_update(s, i + 1, j, sp, axis, cur + axis_extent(s[i].size_pos(), axis), a, b);
    } else {
        assert(s2[j] == a);
        assert(s2[j + 1] == b);
        let cur1 = cur + axis_extent(s[j].size_pos(), axis);
        let cur2 = cur1 + axis_extent(s[j + 1].size_pos(), axis);
        assert(tiled_children(s, j + 1, sp, axis, cur1));
        assert(tiled_children(s, j + 2, sp, axis, cur2));
        assert(forall|m: int| j + 2 <= m < s.len() ==> s[m] == #[trigger] s2[m]);
        lemma_tiled_children_shifted_eq2(s, s2, j + 2, sp, axis, cur2);
        assert(tiled_children(s2, j + 1, sp, axis, cur + axis_extent(a.size_pos(), axis)));
        assert(tiled_children(s2, j, sp, axis, cur));
    }
}

proof fn lemma_tiled_children_shifted_eq2(
    a: Seq<NodeView>,
    b: Seq<NodeView>,
    i: int,
    sp: SizeAndPos,
    axis: InsertWay,
    cur: int,
)
    requires
        0 <= i <= a.len(),
        a.len() == b.len(),
        forall|m: int| i <= m < a.len() ==> a[m] == b[m],
        tiled_children(a, i, sp, axis, cur),
    ensures
        tiled_children(b, i, sp, axis, cur),
    decreases a.len() - i,
{
    if i < a.len() {
        assert(a[i] == b[i]);
        lemma_tiled_children_shifted_eq2(a, b, i + 1, sp, axis, cur + axis_extent(a[i].size_pos(), axis));
    }
}

} // verus!
