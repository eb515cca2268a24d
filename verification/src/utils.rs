use vstd::prelude::*;

verus! {

/// Every coordinate a tree may hold stays within this bound, so that all of
/// the layout arithmetic (splits, merges, drags) fits comfortably in `i64`.
pub const COORD_LIMIT: i64 = 0x0800_0000_0000_0000;

/// A width and a height, in integer layout units.
#[derive(Debug, Clone, Copy, PartialEq, Eq, Structural)]
pub struct Size {
    pub width: i64,
    pub height: i64,
}

/// The position of a rectangle's top-left corner.
#[derive(Debug, Clone, Copy, PartialEq, Eq, Structural)]
pub struct Position {
    pub x: i64,
    pub y: i64,
}

/// A rectangle: a size together with the position of its top-left corner.
#[derive(Debug, Clone, Copy, PartialEq, Eq, Structural)]
pub struct SizeAndPos {
    pub size: Size,
    pub position: Position,
}

/// The axis along which a container stacks its children: `Vertical`
/// containers stack top-to-bottom, `Horizontal` ones left-to-right.
#[derive(Debug, Clone, Copy, PartialEq, Eq, Structural)]
pub enum InsertWay {
    Vertical,
    Horizontal,
}

/// One of the four edges of a pane, as seen from that pane.
#[derive(Debug, Clone, Copy, PartialEq, Eq, Structural)]
pub enum Direction {
    Left,
    Right,
    Top,
    Bottom,
}

/// A rectangle whose coordinates stay within `COORD_LIMIT`, with
/// non-negative extents. Every rectangle stored in a tree satisfies this.
pub open spec fn rect_bounded(sp: SizeAndPos) -> bool {
    &&& 0 <= sp.size.width
    &&& 0 <= sp.size.height
    &&& -COORD_LIMIT <= sp.position.x
    &&& -COORD_LIMIT <= sp.position.y
    &&& sp.position.x + sp.size.width <= COORD_LIMIT
    &&& sp.position.y + sp.size.height <= COORD_LIMIT
}

impl Size {
    /// The size with both extents zero.
    pub fn zero() -> (r: Size)
        ensures
            r == (Size { width: 0, height: 0 }),
    {
        Size { width: 0, height: 0 }
    }

    /// A size is legal when both of its extents are strictly positive;
    /// a drag that would leave a pane with a non-positive extent is refused.
    pub fn size_legal(&self) -> (r: bool)
        ensures
            r == (self.width > 0 && self.height > 0),
    {
        self.width > 0 && self.height > 0
    }

    /// Divide the width into `pieces` equal parts, keeping the height.
    pub fn split_h(&self, pieces: i64) -> (r: Size)
        requires
            0 <= self.width,
            pieces > 0,
        ensures
            r.width == self.width as int / pieces as int,
            r.height == self.height,
    {
        Size { width: self.width / pieces, height: self.height }
    }

    /// Divide the height into `pieces` equal parts, keeping the width.
    pub fn split_v(&self, pieces: i64) -> (r: Size)
        requires
            0 <= self.height,
            pieces > 0,
        ensures
            r.width == self.width,
            r.height == self.height as int / pieces as int,
    {
        Size { width: self.width, height: self.height / pieces }
    }

    /// Divide along the axis that `direction` points along.
    pub fn split(&self, pieces: i64, direction: Direction) -> (r: Size)
        requires
            0 <= self.width,
            0 <= self.height,
            pieces > 0,
        ensures
            direction.axis() == InsertWay::Horizontal ==> r.width == self.width as int
                / pieces as int && r.height == self.height,
            direction.axis() == InsertWay::Vertical ==> r.width == self.width && r.height
                == self.height as int / pieces as int,
    {
        match direction {
            Direction::Left | Direction::Right => self.split_h(pieces),
            Direction::Top | Direction::Bottom => self.split_v(pieces),
        }
    }

    /// Divide along the axis of `way`.
    pub fn split_way(&self, pieces: i64, way: InsertWay) -> (r: Size)
        requires
            0 <= self.width,
            0 <= self.height,
            pieces > 0,
        ensures
            way == InsertWay::Horizontal ==> r.width == self.width as int / pieces as int
                && r.height == self.height,
            way == InsertWay::Vertical ==> r.width == self.width && r.height == self.height as int
                / pieces as int,
    {
        match way {
            InsertWay::Horizontal => self.split_h(pieces),
            InsertWay::Vertical => self.split_v(pieces),
        }
    }
}

impl Position {
    /// The origin.
    pub fn zero() -> (r: Position)
        ensures
            r == (Position { x: 0, y: 0 }),
    {
        Position { x: 0, y: 0 }
    }
}

impl InsertWay {
    /// Whether dragging toward `direction` moves a boundary along this axis.
    pub fn fit_direction(&self, direction: Direction) -> (r: bool)
        ensures
            r == (*self == direction.axis()),
    {
        match direction {
            Direction::Left | Direction::Right => *self == InsertWay::Horizontal,
            Direction::Top | Direction::Bottom => *self == InsertWay::Vertical,
        }
    }
}

impl Direction {
    /// The axis this direction points along.
    pub open spec fn axis(self) -> InsertWay {
        match self {
            Direction::Left | Direction::Right => InsertWay::Horizontal,
            Direction::Top | Direction::Bottom => InsertWay::Vertical,
        }
    }

    /// The opposite edge.
    pub fn opposite(&self) -> (r: Direction)
        ensures
            r == spec_opposite(*self),
    {
        match self {
            Direction::Top => Direction::Bottom,
            Direction::Bottom => Direction::Top,
            Direction::Left => Direction::Right,
            Direction::Right => Direction::Left,
        }
    }

    /// The edge toward which a sibling expands when a child is deleted:
    /// when the removed child was first, the new first child grows toward
    /// the start of the axis, otherwise the preceding child grows toward
    /// the end of the axis.
    pub fn expend_way(insert_way: InsertWay, start: bool) -> (r: Direction)
        ensures
            insert_way == InsertWay::Horizontal && start ==> r == Direction::Left,
            insert_way == InsertWay::Horizontal && !start ==> r == Direction::Right,
            insert_way == InsertWay::Vertical && start ==> r == Direction::Top,
            insert_way == InsertWay::Vertical && !start ==> r == Direction::Bottom,
    {
        match (insert_way, start) {
            (InsertWay::Horizontal, true) => Direction::Left,
            (InsertWay::Horizontal, false) => Direction::Right,
            (InsertWay::Vertical, true) => Direction::Top,
            (InsertWay::Vertical, false) => Direction::Bottom,
        }
    }
}

/// The opposite edge.
pub open spec fn spec_opposite(d: Direction) -> Direction {
    match d {
        Direction::Top => Direction::Bottom,
        Direction::Bottom => Direction::Top,
        Direction::Left => Direction::Right,
        Direction::Right => Direction::Left,
    }
}

impl SizeAndPos {
    /// A size is legal when both of its extents are strictly positive.
    pub fn size_legal(&self) -> (r: bool)
        ensures
            r == (self.size.width > 0 && self.size.height > 0),
    {
        self.size.size_legal()
    }

    /// Split this rectangle in two along the axis of `direction`; `self`
    /// becomes the part away from `direction` and the returned rectangle is
    /// the part on the `direction` side. The two parts tile the original
    /// exactly, also when the divided extent is odd.
    pub fn split(&mut self, direction: Direction) -> (r: SizeAndPos)
        requires
            rect_bounded(*old(self)),
        ensures
            rect_bounded(*final(self)),
            rect_bounded(r),
            *final(self) == split_rest(*old(self), direction),
            r == split_part(*old(self), direction),
    {
        let w = self.size.width;
        let h = self.size.height;
        match direction {
            Direction::Left => {
                let part = SizeAndPos {
                    size: Size { width: w / 2, height: h },
                    position: self.position,
                };
                self.size.width = w - w / 2;
                self.position.x = self.position.x + w / 2;
                part
            },
            Direction::Right => {
                let part = SizeAndPos {
                    size: Size { width: w - w / 2, height: h },
                    position: Position { x: self.position.x + w / 2, y: self.position.y },
                };
                self.size.width = w / 2;
                part
            },
            Direction::Top => {
                let part = SizeAndPos {
                    size: Size { width: w, height: h / 2 },
                    position: self.position,
                };
                self.size.height = h - h / 2;
                self.position.y = self.position.y + h / 2;
                part
            },
            Direction::Bottom => {
                let part = SizeAndPos {
                    size: Size { width: w, height: h - h / 2 },
                    position: Position { x: self.position.x, y: self.position.y + h / 2 },
                };
                self.size.height = h / 2;
                part
            },
        }
    }

    /// Split along the axis of `way`; `self` keeps the first part (top or
    /// left) and the returned rectangle is the second part.
    pub fn split_way(&mut self, way: InsertWay) -> (r: SizeAndPos)
        requires
            rect_bounded(*old(self)),
        ensures
            rect_bounded(*final(self)),
            rect_bounded(r),
            way == InsertWay::Vertical ==> *final(self) == split_rest(*old(self), Direction::Bottom)
                && r == split_part(*old(self), Direction::Bottom),
            way == InsertWay::Horizontal ==> *final(self) == split_rest(
                *old(self),
                Direction::Right,
            ) && r == split_part(*old(self), Direction::Right),
    {
        match way {
            InsertWay::Vertical => self.split(Direction::Bottom),
            InsertWay::Horizontal => self.split(Direction::Right),
        }
    }

    /// The change a drag applies to the element on the `direction` side of
    /// the dragged boundary: a positive `transfer` moves the boundary toward
    /// `Right` or `Bottom`.
    pub fn drag_change(transfer: i64, direction: Direction) -> (r: SizeAndPos)
        requires
            transfer > i64::MIN,
        ensures
            direction == Direction::Left ==> r.size.width == -(transfer as int) && r.size.height
                == 0 && r.position.x == transfer && r.position.y == 0,
            direction == Direction::Right ==> r.size.width == transfer && r.size.height == 0
                && r.position.x == 0 && r.position.y == 0,
            direction == Direction::Top ==> r.size.width == 0 && r.size.height == -(
            transfer as int) && r.position.x == 0 && r.position.y == transfer,
            direction == Direction::Bottom ==> r.size.width == 0 && r.size.height == transfer
                && r.position.x == 0 && r.position.y == 0,
    {
        match direction {
            Direction::Left => SizeAndPos {
                size: Size { width: -transfer, height: 0 },
                position: Position { x: transfer, y: 0 },
            },
            Direction::Right => SizeAndPos {
                size: Size { width: transfer, height: 0 },
                position: Position { x: 0, y: 0 },
            },
            Direction::Top => SizeAndPos {
                size: Size { width: 0, height: -transfer },
                position: Position { x: 0, y: transfer },
            },
            Direction::Bottom => SizeAndPos {
                size: Size { width: 0, height: transfer },
                position: Position { x: 0, y: 0 },
            },
        }
    }

    /// The change that hands this rectangle's room to the neighbor on the
    /// opposite side of `direction` when this element disappears.
    pub fn change_disappear(&self, direction: Direction) -> (r: SizeAndPos)
        requires
            0 <= self.size.width,
            0 <= self.size.height,
        ensures
            direction == Direction::Top ==> r.size.width == 0 && r.size.height
                == self.size.height && r.position.x == 0 && r.position.y == -(
            self.size.height as int),
            direction == Direction::Bottom ==> r.size.width == 0 && r.size.height
                == self.size.height && r.position.x == 0 && r.position.y == 0,
            direction == Direction::Left ==> r.size.width == self.size.width && r.size.height == 0
                && r.position.x == -(self.size.width as int) && r.position.y == 0,
            direction == Direction::Right ==> r.size.width == self.size.width && r.size.height == 0
                && r.position.x == 0 && r.position.y == 0,
    {
        match direction {
            Direction::Top => SizeAndPos {
                size: Size { width: 0, height: self.size.height },
                position: Position { x: 0, y: -self.size.height },
            },
            Direction::Bottom => SizeAndPos {
                size: Size { width: 0, height: self.size.height },
                position: Position { x: 0, y: 0 },
            },
            Direction::Left => SizeAndPos {
                size: Size { width: self.size.width, height: 0 },
                position: Position { x: -self.size.width, y: 0 },
            },
            Direction::Right => SizeAndPos {
                size: Size { width: self.size.width, height: 0 },
                position: Position { x: 0, y: 0 },
            },
        }
    }
}

/// The part of `sp` on the `direction` side after an even split: half of the
/// divided extent, rounded down.
pub open spec fn split_part(sp: SizeAndPos, direction: Direction) -> SizeAndPos {
    let w = sp.size.width as int;
    let h = sp.size.height as int;
    match direction {
        Direction::Left => SizeAndPos {
            size: Size { width: (w / 2) as i64, height: sp.size.height },
            position: sp.position,
        },
        Direction::Right => SizeAndPos {
            size: Size { width: (w - w / 2) as i64, height: sp.size.height },
            position: Position { x: (sp.position.x + w / 2) as i64, y: sp.position.y },
        },
        Direction::Top => SizeAndPos {
            size: Size { width: sp.size.width, height: (h / 2) as i64 },
            position: sp.position,
        },
        Direction::Bottom => SizeAndPos {
            size: Size { width: sp.size.width, height: (h - h / 2) as i64 },
            position: Position { x: sp.position.x, y: (sp.position.y + h / 2) as i64 },
        },
    }
}

/// The rest of `sp` after `split_part(sp, direction)` is taken away; the two
/// tile `sp` exactly.
pub open spec fn split_rest(sp: SizeAndPos, direction: Direction) -> SizeAndPos {
    let w = sp.size.width as int;
    let h = sp.size.height as int;
    match direction {
        Direction::Left => SizeAndPos {
            size: Size { width: (w - w / 2) as i64, height: sp.size.height },
            position: Position { x: (sp.position.x + w / 2) as i64, y: sp.position.y },
        },
        Direction::Right => SizeAndPos {
            size: Size { width: (w / 2) as i64, height: sp.size.height },
            position: sp.position,
        },
        Direction::Top => SizeAndPos {
            size: Size { width: sp.size.width, height: (h - h / 2) as i64 },
            position: Position { x: sp.position.x, y: (sp.position.y + h / 2) as i64 },
        },
        Direction::Bottom => SizeAndPos {
            size: Size { width: sp.size.width, height: (h / 2) as i64 },
            position: sp.position,
        },
    }
}


/// The two halves of a split: together they cover `sp` exactly along the
/// split axis, match it across the other axis, and stay bounded.
pub proof fn lemma_split_bounded(sp: SizeAndPos, d: Direction)
    requires
        rect_bounded(sp),
    ensures
        rect_bounded(split_part(sp, d)),
        rect_bounded(split_rest(sp, d)),
{
    let w = sp.size.width as int;
    let h = sp.size.height as int;
    vstd::arithmetic::div_mod::lemma_div_pos_is_pos(w, 2);
    vstd::arithmetic::div_mod::lemma_div_pos_is_pos(h, 2);
    vstd::arithmetic::div_mod::lemma_div_is_ordered(w, w + w, 2);
    vstd::arithmetic::div_mod::lemma_div_is_ordered(h, h + h, 2);
    assert((w + w) / 2 == w) by {
        vstd::arithmetic::div_mod::lemma_div_by_multiple(w, 2);
        assert(w * 2 == w + w) by (nonlinear_arith);
    }
    assert((h + h) / 2 == h) by {
        vstd::arithmetic::div_mod::lemma_div_by_multiple(h, 2);
        assert(h * 2 == h + h) by (nonlinear_arith);
    }
}

} // verus!
