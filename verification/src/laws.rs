use vstd::prelude::*;

verus! {

use crate::model::{
    axis_end,
    axis_extent,
    axis_start,
    child_slot_ok,
    lemma_wf_children_index,
    sum_shares,
    sums_ok,
    tiled,
    tiled_children,
    wf,
    wf_children,
    NodeView,
};
use crate::utils::{InsertWay, SizeAndPos};

/// Whether the unit cell at `(px, py)` lies inside `sp`.
pub open spec fn in_rect(px: int, py: int, sp: SizeAndPos) -> bool {
    &&& sp.position.x <= px < sp.position.x + sp.size.width
    &&& sp.position.y <= py < sp.position.y + sp.size.height
}

/// How many panes of the tree cover the cell at `(px, py)`.
pub open spec fn covered_count(nv: NodeView, px: int, py: int) -> int
    decreases nv, 1int,
{
    match nv {
        NodeView::Empty(_) => 0,
        NodeView::Window { size_pos, .. } => if in_rect(px, py, size_pos) {
            1
        } else {
            0
        },
        NodeView::Container { children, .. } => covered_children(children, 0, px, py),
    }
}

pub open spec fn covered_children(s: Seq<NodeView>, i: int, px: int, py: int) -> int
    decreases s, s.len() - i,
{
    if i < 0 || i >= s.len() {
        0
    } else {
        covered_count(s[i], px, py) + covered_children(s, i + 1, px, py)
    }
}

/// The partition law: in a well-formed, tiled tree that is not empty, the
/// panes' rectangles tile the tree's rectangle exactly — every cell inside
/// it is covered by exactly one pane, and no cell outside it is covered at
/// all. Since a new tree is tiled and insert keeps it so, this holds after
/// any run of successful inserts.
pub proof fn lemma_leaves_partition(nv: NodeView, px: int, py: int)
    requires
        wf(nv),
        tiled(nv),
        !(nv is Empty),
    ensures
        covered_count(nv, px, py) == if in_rect(px, py, nv.size_pos()) {
            1int
        } else {
            0int
        },
    decreases nv, 1int,
{
    match nv {
        NodeView::Empty(_) => {},
        NodeView::Window { .. } => {},
        NodeView::Container { axis, children, size_pos, .. } => {
            lemma_wf_children_index(children, 0);
            lemma_covered_children(
                children,
                0,
                size_pos,
                axis,
                axis_start(size_pos, axis),
                px,
                py,
            );
        },
    }
}

/// The cell's coordinate along `axis`.
pub open spec fn axis_coord(px: int, py: int, axis: InsertWay) -> int {
    match axis {
        InsertWay::Vertical => py,
        InsertWay::Horizontal => px,
    }
}

/// The cell lies within `sp`'s span across the axis.
pub open spec fn cross_in(px: int, py: int, sp: SizeAndPos, axis: InsertWay) -> bool {
    match axis {
        InsertWay::Vertical => sp.position.x <= px < sp.position.x + sp.size.width,
        InsertWay::Horizontal => sp.position.y <= py < sp.position.y + sp.size.height,
    }
}

/// The children from `i` on cover the cell exactly once when it lies in
/// the strip from `cur` to the container's end, and never otherwise.
proof fn lemma_covered_children(
    s: Seq<NodeView>,
    i: int,
    sp: SizeAndPos,
    axis: InsertWay,
    cur: int,
    px: int,
    py: int,
)
    requires
        0 <= i <= s.len(),
        forall|k: int| 0 <= k < s.len() ==> wf(#[trigger] s[k]) && !(s[k] is Empty),
        tiled_children(s, i, sp, axis, cur),
    ensures
        covered_children(s, i, px, py) == if cross_in(px, py, sp, axis) && cur <= axis_coord(
            px,
            py,
            axis,
        ) < axis_end(sp, axis) {
            1int
        } else {
            0int
        },
    decreases s, s.len() - i,
{
    if i < s.len() {
        let csp = s[i].size_pos();
        let ext = axis_extent(csp, axis);
        lemma_leaves_partition(s[i], px, py);
        assert(in_rect(px, py, csp) == (cross_in(px, py, sp, axis) && cur <= axis_coord(
            px,
            py,
            axis,
        ) < cur + ext));
        lemma_covered_children(s, i + 1, sp, axis, cur + ext, px, py);
        lemma_tiled_extent_nonneg(s, i, sp, axis, cur);
    }
}

/// In a tiled run of children the offsets only grow, so every child's
/// strip lies between `cur` and the container's end.
proof fn lemma_tiled_extent_nonneg(
    s: Seq<NodeView>,
    i: int,
    sp: SizeAndPos,
    axis: InsertWay,
    cur: int,
)
    requires
        0 <= i < s.len(),
        forall|k: int| 0 <= k < s.len() ==> wf(#[trigger] s[k]),
        tiled_children(s, i, sp, axis, cur),
    ensures
        cur + axis_extent(s[i].size_pos(), axis) <= axis_end(sp, axis),
        axis_extent(s[i].size_pos(), axis) >= 0,
    decreases s.len() - i,
{
    let ext = axis_extent(s[i].size_pos(), axis);
    assert(tiled_children(s, i + 1, sp, axis, cur + ext));
    if i + 1 < s.len() {
        lemma_tiled_extent_nonneg(s, i + 1, sp, axis, cur + ext);
    } else {
        assert(cur + ext == axis_end(sp, axis));
    }
}

/// The exact share law: in a tree whose bookkeeping is consistent, the sum
/// of every container's children's shares equals the container's stored
/// total — the children's fractions of the container sum to exactly one.
/// A new tree has consistent bookkeeping and insert, delete, drag and remap
/// keep it, so this holds after any run of those operations.
pub proof fn lemma_shares_fill_container(nv: NodeView)
    requires
        sums_ok(nv),
        nv is Container,
    ensures
        sum_shares(nv.children(), 0) == nv.total() as int,
{
}

} // verus!
