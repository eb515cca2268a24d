use vstd::prelude::*;

pub mod error;
pub mod delete;
pub mod drag;
pub mod insert;
pub mod laws;
pub mod model;
pub mod remap;
pub mod swap;
pub mod utils;

pub use error::FlyjaError;
pub use utils::{Direction, InsertWay, Position, Size, SizeAndPos};

verus! {

use crate::model::{NodeView, node_view, wf, sums_ok, tiled, contains_id, spec_has_id, spec_find_window, seq_contains_id, seq_find_window, views_of, lemma_views_of_all};
use crate::utils::rect_bounded;

/// The id of a pane. Ids are chosen by the caller and must be unique across
/// the whole tree; the tree only stores and compares them.
#[derive(Debug, Clone, Copy, PartialEq, Eq, Hash, PartialOrd, Ord, Structural)]
pub struct Id(pub u64);

/// The callback a mutating operation drives: it is invoked once, during the
/// operation, for each pane whose rectangle changed, with the pane's id and
/// its new rectangle. It observes; it must not reach back into the tree.
/// The contracts of the operations pin the tree itself; what an arbitrary
/// implementation of this trait records is outside them and is exercised by
/// the crate's tests instead.
pub trait DispatchCallback {
    fn callback(&mut self, id: Id, size_pos: SizeAndPos);
}

/// A callback that ignores every report.
impl DispatchCallback for () {
    fn callback(&mut self, _id: Id, _size_pos: SizeAndPos) {
    }
}

/// A node of the pane tree.
///
/// A pane's *share* is an integer weight: the fraction of the parent
/// container's extent along the parent's axis that the pane owns is its
/// share divided by the parent's `total`. Across the parent's other axis
/// every child spans the parent fully. A well-formed container's `total`
/// equals the sum of its children's shares, so the fractions sum to one
/// exactly.
pub enum Element {
    /// An empty tree; valid only as the whole tree.
    EmptyOutput(SizeAndPos),
    /// A single pane.
    Window { id: Id, size_pos: SizeAndPos, share: u64 },
    /// Children stacked top-to-bottom.
    Vertical { elements: Vec<Element>, size_pos: SizeAndPos, share: u64, total: u64 },
    /// Children laid out left-to-right.
    Horizontal { elements: Vec<Element>, size_pos: SizeAndPos, share: u64, total: u64 },
}

impl Element {
    /// A new, empty tree covering `size_pos`.
    pub fn new(size_pos: SizeAndPos) -> (r: Element)
        requires
            rect_bounded(size_pos),
        ensures
            r@ == NodeView::Empty(size_pos),
            wf(r@),
            sums_ok(r@),
            tiled(r@),
    {
        Element::EmptyOutput(size_pos)
    }

    /// The pane's id, when this node is a single pane.
    pub fn id(&self) -> (r: Option<Id>)
        ensures
            r == (match self@ {
                NodeView::Window { id, .. } => Some(id),
                _ => None::<Id>,
            }),
    {
        match self {
            Element::Window { id, .. } => Some(*id),
            _ => None,
        }
    }

    /// The node's share of its parent along the parent's axis. For the whole
    /// tree the value has no parent to refer to and is reported as one.
    pub fn percent(&self) -> (r: u64)
        ensures
            r == self@.share(),
    {
        match self {
            Element::Vertical { share, .. }
            | Element::Horizontal { share, .. }
            | Element::Window { share, .. } => *share,
            Element::EmptyOutput(_) => 1,
        }
    }

    /// The node's rectangle.
    pub fn size_pos(&self) -> (r: SizeAndPos)
        ensures
            r == self@.size_pos(),
    {
        match self {
            Element::EmptyOutput(size_pos)
            | Element::Vertical { size_pos, .. }
            | Element::Horizontal { size_pos, .. }
            | Element::Window { size_pos, .. } => *size_pos,
        }
    }

    /// The position of the node's rectangle.
    pub fn position(&self) -> (r: Position)
        ensures
            r == self@.size_pos().position,
    {
        self.size_pos().position
    }

    /// The size of the node's rectangle.
    pub fn size(&self) -> (r: Size)
        ensures
            r == self@.size_pos().size,
    {
        self.size_pos().size
    }

    /// The width of the node's rectangle.
    pub fn width(&self) -> (r: i64)
        ensures
            r == self@.size_pos().size.width,
    {
        self.size().width
    }

    /// The height of the node's rectangle.
    pub fn height(&self) -> (r: i64)
        ensures
            r == self@.size_pos().size.height,
    {
        self.size().height
    }

    /// Whether this tree holds the pane `target`. An empty tree answers yes
    /// to every id: it can accept any id as a future anchor.
    #[verifier::loop_isolation(false)]
    pub fn has_id(&self, target: Id) -> (r: bool)
        requires
            wf(self@),
        ensures
            r == spec_has_id(self@, target),
        decreases *self,
    {
        match self {
            Element::EmptyOutput(_) => true,
            Element::Window { id, .. } => id.0 == target.0,
            Element::Vertical { elements, .. } | Element::Horizontal { elements, .. } => {
                let ghost cv = views_of(elements@, 0);
                proof {
                    lemma_views_of_all(elements@);
                    crate::model::lemma_wf_children_index(cv, 0);
                }
                let n = elements.len();
                let mut i: usize = 0;
                while i < n
                    invariant
                        0 <= i <= n,
                        n == elements@.len(),
                        cv == views_of(elements@, 0),
                        cv.len() == n,
                        self@ is Container,
                        self@.children() == cv,
                        forall|j: int| 0 <= j < n ==> cv[j] == node_view(elements@[j]),
                        forall|j: int| 0 <= j < n ==> wf(#[trigger] cv[j]) && !(cv[j] is Empty),
                        seq_contains_id(cv, 0, target) == seq_contains_id(cv, i as int, target),
                    decreases n - i,
                {
                    proof {
                        assert(decreases_to!(*self => elements@[i as int]));
                    }
                    if elements[i].has_id(target) {
                        return true;
                    }
                    i = i + 1;
                }
                false
            },
        }
    }

    /// The first pane holding `target`, searching depth-first in child
    /// order; nothing for an empty tree.
    #[verifier::loop_isolation(false)]
    pub fn find_window(&self, target: Id) -> (r: Option<&Element>)
        ensures
            r matches Some(w) ==> spec_find_window(self@, target) == Some(w@),
            r is None ==> spec_find_window(self@, target) is None,
        decreases *self,
    {
        match self {
            Element::EmptyOutput(_) => None,
            Element::Window { id, .. } => {
                if id.0 == target.0 {
                    Some(self)
                } else {
                    None
                }
            },
            Element::Vertical { elements, .. } | Element::Horizontal { elements, .. } => {
                let ghost cv = views_of(elements@, 0);
                proof {
                    lemma_views_of_all(elements@);
                }
                let n = elements.len();
                let mut i: usize = 0;
                while i < n
                    invariant
                        0 <= i <= n,
                        n == elements@.len(),
                        cv == views_of(elements@, 0),
                        cv.len() == n,
                        self@ is Container,
                        self@.children() == cv,
                        forall|j: int| 0 <= j < n ==> cv[j] == node_view(elements@[j]),
                        seq_find_window(cv, 0, target) == seq_find_window(cv, i as int, target),
                    decreases n - i,
                {
                    proof {
                        assert(decreases_to!(*self => elements@[i as int]));
                    }
                    let fr = elements[i].find_window(target);
                    if fr.is_some() {
                        return fr;
                    }
                    i = i + 1;
                }
                None
            },
        }
    }

    /// Whether this node is a single pane.
    pub fn is_window(&self) -> (r: bool)
        ensures
            r == (self@ is Window),
    {
        match self {
            Element::Window { .. } => true,
            _ => false,
        }
    }

    /// Overwrite the node's share. An empty tree holds no share.
    pub fn set_percentage(&mut self, c_percent: u64)
        ensures
            final(self)@ == old(self)@.with_share(c_percent),
    {
        match self {
            Element::EmptyOutput(_) => {},
            Element::Window { share, .. } => {
                *share = c_percent;
            },
            Element::Vertical { share, .. } => {
                *share = c_percent;
            },
            Element::Horizontal { share, .. } => {
                *share = c_percent;
            },
        }
    }

    /// Overwrite the node's rectangle, leaving everything beneath it alone.
    pub fn set_size_and_pos(&mut self, c_size_pos: SizeAndPos)
        ensures
            final(self)@ == old(self)@.with_size_pos(c_size_pos),
    {
        match self {
            Element::EmptyOutput(size_pos) => {
                *size_pos = c_size_pos;
            },
            Element::Window { size_pos, .. } => {
                *size_pos = c_size_pos;
            },
            Element::Vertical { size_pos, .. } => {
                *size_pos = c_size_pos;
            },
            Element::Horizontal { size_pos, .. } => {
                *size_pos = c_size_pos;
            },
        }
    }
}


/// The tree of panes that fills one display area. It starts empty at the
/// display rectangle; every operation below forwards to the root node.
pub struct TopElementMap(pub Element);

impl View for TopElementMap {
    type V = NodeView;

    open spec fn view(&self) -> NodeView {
        self.0@
    }
}

impl TopElementMap {
    /// A new, empty map covering `size_pos`.
    pub fn new(size_pos: SizeAndPos) -> (r: TopElementMap)
        requires
            rect_bounded(size_pos),
        ensures
            r@ == NodeView::Empty(size_pos),
            wf(r@),
            sums_ok(r@),
            tiled(r@),
    {
        TopElementMap(Element::new(size_pos))
    }

    /// The whole map's rectangle.
    pub fn size_pos(&self) -> (r: SizeAndPos)
        ensures
            r == self@.size_pos(),
    {
        self.0.size_pos()
    }

    /// The position of the whole map's rectangle.
    pub fn position(&self) -> (r: Position)
        ensures
            r == self@.size_pos().position,
    {
        self.0.position()
    }

    /// The size of the whole map's rectangle.
    pub fn size(&self) -> (r: Size)
        ensures
            r == self@.size_pos().size,
    {
        self.0.size()
    }

    /// The width of the whole map's rectangle.
    pub fn width(&self) -> (r: i64)
        ensures
            r == self@.size_pos().size.width,
    {
        self.0.width()
    }

    /// The height of the whole map's rectangle.
    pub fn height(&self) -> (r: i64)
        ensures
            r == self@.size_pos().size.height,
    {
        self.0.height()
    }

    /// Whether the map holds the pane `target`; an empty map accepts any id
    /// as a future anchor.
    pub fn has_id(&self, target: Id) -> (r: bool)
        requires
            wf(self@),
        ensures
            r == spec_has_id(self@, target),
    {
        self.0.has_id(target)
    }

    /// The first pane holding `target`.
    pub fn find_window(&self, target: Id) -> (r: Option<&Element>)
        ensures
            r matches Some(w) ==> spec_find_window(self@, target) == Some(w@),
            r is None ==> spec_find_window(self@, target) is None,
    {
        self.0.find_window(target)
    }

    /// Exchange the rectangles and shares of two panes. See
    /// [`Element::swap`].
    pub fn swap<F: DispatchCallback>(&mut self, id: Id, target: Id, f: &mut F) -> (r: Result<
        (),
        FlyjaError,
    >)
        requires
            wf(old(self)@),
        ensures
            r is Ok <==> (id != target && contains_id(old(self)@, id) && contains_id(
                old(self)@,
                target,
            )),
            r is Ok ==> final(self)@ == crate::swap::spec_swap(old(self)@, id, target).0
                && crate::swap::spec_swap(old(self)@, id, target).1,
            r is Err ==> final(self)@ == old(self)@ && r == Err::<(), FlyjaError>(
                FlyjaError::ElementNotFound,
            ),
            wf(final(self)@),
    {
        self.0.swap(id, target, f)
    }

    /// Lay the map out anew inside `c_size_pos`. See [`Element::remap`].
    pub fn remap<F: DispatchCallback>(&mut self, c_size_pos: SizeAndPos, f: &mut F)
        requires
            wf(old(self)@),
            rect_bounded(c_size_pos),
        ensures
            final(self)@ == crate::remap::spec_remap(old(self)@, c_size_pos),
            wf(final(self)@),
            tiled(final(self)@),
            crate::remap::same_skeleton(final(self)@, old(self)@),
            sums_ok(old(self)@) ==> sums_ok(final(self)@),
    {
        self.0.remap(c_size_pos, f)
    }

    /// Delete the pane `target`. See [`Element::delete`].
    pub fn delete<F: DispatchCallback>(&mut self, target: Id, f: &mut F) -> (r: Result<
        (),
        FlyjaError,
    >)
        requires
            wf(old(self)@),
        ensures
            r is Ok <==> contains_id(old(self)@, target),
            r is Ok ==> final(self)@ == crate::delete::spec_delete(old(self)@, target).0,
            r is Err ==> final(self)@ == old(self)@ && r == Err::<(), FlyjaError>(
                FlyjaError::ElementNotFound,
            ),
            wf(final(self)@),
            final(self)@.size_pos() == old(self)@.size_pos(),
            sums_ok(old(self)@) ==> sums_ok(final(self)@),
            tiled(old(self)@) ==> tiled(final(self)@),
    {
        self.0.delete(target, f)
    }

    /// Insert the pane `id` at the pane `target`, splitting along `way`.
    /// See [`Element::insert`].
    pub fn insert<F: DispatchCallback>(
        &mut self,
        id: Id,
        target: Id,
        way: InsertWay,
        f: &mut F,
    ) -> (r: Result<(), FlyjaError>)
        requires
            wf(old(self)@),
        ensures
            r is Ok <==> (old(self)@ is Empty || contains_id(old(self)@, target)),
            r is Ok ==> final(self)@ == crate::insert::spec_insert(
                old(self)@,
                id,
                target,
                way,
                false,
            ).0,
            r is Err ==> final(self)@ == old(self)@ && r == Err::<(), FlyjaError>(
                FlyjaError::ElementNotFound,
            ),
            wf(final(self)@),
            final(self)@.size_pos() == old(self)@.size_pos(),
            sums_ok(old(self)@) ==> sums_ok(final(self)@),
            tiled(old(self)@) ==> tiled(final(self)@),
    {
        self.0.insert(id, target, way, f)
    }

    /// Insert the pane `id` on the `direction` side of the pane `target`.
    /// See [`Element::insert_toward`].
    pub fn insert_toward<F: DispatchCallback>(
        &mut self,
        id: Id,
        target: Id,
        direction: Direction,
        f: &mut F,
    ) -> (r: Result<(), FlyjaError>)
        requires
            wf(old(self)@),
        ensures
            r is Ok <==> (old(self)@ is Empty || contains_id(old(self)@, target)),
            r is Ok ==> final(self)@ == crate::insert::spec_insert(
                old(self)@,
                id,
                target,
                direction.axis(),
                direction == Direction::Top || direction == Direction::Left,
            ).0,
            r is Err ==> final(self)@ == old(self)@ && r == Err::<(), FlyjaError>(
                FlyjaError::ElementNotFound,
            ),
            wf(final(self)@),
            final(self)@.size_pos() == old(self)@.size_pos(),
            sums_ok(old(self)@) ==> sums_ok(final(self)@),
            tiled(old(self)@) ==> tiled(final(self)@),
    {
        self.0.insert_toward(id, target, direction, f)
    }

    /// Move the boundary on the `direction` side of the pane `target` by
    /// `transfer`. See [`Element::drag`].
    pub fn drag<F: DispatchCallback>(
        &mut self,
        transfer: i64,
        direction: Direction,
        target: Id,
        f: &mut F,
    ) -> (r: Result<(), FlyjaError>)
        requires
            wf(old(self)@),
        ensures
            r is Ok <==> crate::drag::spec_drag(old(self)@, transfer, direction, target).1
                == crate::drag::DragOutcome::Done,
            r == Err::<(), FlyjaError>(FlyjaError::ElementNotFound) <==> crate::drag::spec_drag(
                old(self)@,
                transfer,
                direction,
                target,
            ).1 == crate::drag::DragOutcome::NotFound,
            r == Err::<(), FlyjaError>(FlyjaError::DragIllegal) <==> crate::drag::spec_drag(
                old(self)@,
                transfer,
                direction,
                target,
            ).1 == crate::drag::DragOutcome::Illegal,
            final(self)@ == crate::drag::spec_drag(old(self)@, transfer, direction, target).0,
            r is Err ==> final(self)@ == old(self)@,
            wf(final(self)@),
            final(self)@.size_pos() == old(self)@.size_pos(),
            sums_ok(old(self)@) ==> sums_ok(final(self)@),
            tiled(old(self)@) ==> tiled(final(self)@),
    {
        self.0.drag(transfer, direction, target, f)
    }

    /// Move the pane `id` next to the pane `target`, on its `direction`
    /// side: the pane is deleted (silently, its room going to its sibling)
    /// and inserted anew at the target. When the delete fails nothing has
    /// changed; when the insert fails the delete stands. The callback
    /// reports only the final insert.
    pub fn drag_and_drop<F: DispatchCallback>(
        &mut self,
        id: Id,
        target: Id,
        direction: Direction,
        f: &mut F,
    ) -> (r: Result<(), FlyjaError>)
        requires
            wf(old(self)@),
        ensures
            ({
                let deleted = crate::delete::spec_delete(old(self)@, id).0;
                let okd = contains_id(old(self)@, id);
                let oki = deleted is Empty || contains_id(deleted, target);
                &&& (r is Ok <==> okd && oki)
                &&& (r is Ok ==> final(self)@ == crate::insert::spec_insert(
                    deleted,
                    id,
                    target,
                    direction.axis(),
                    direction == Direction::Top || direction == Direction::Left,
                ).0)
                &&& (!okd ==> final(self)@ == old(self)@)
                &&& (r is Err ==> r == Err::<(), FlyjaError>(FlyjaError::ElementNotFound))
            }),
            wf(final(self)@),
            sums_ok(old(self)@) ==> sums_ok(final(self)@),
            tiled(old(self)@) ==> tiled(final(self)@),
    {
        let mut quiet: () = ();
        let deleted = self.0.delete(id, &mut quiet);
        if deleted.is_err() {
            return Err(FlyjaError::ElementNotFound);
        }
        self.0.insert_toward(id, target, direction, f)
    }
}

} // verus!
