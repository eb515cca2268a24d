use flyja::{
    Direction, DispatchCallback, Element, FlyjaError, Id, InsertWay, Position, Size, SizeAndPos,
    TopElementMap,
};

const DISPLAY_SIZE: SizeAndPos = SizeAndPos {
    size: Size { width: 1980, height: 1080 },
    position: Position { x: 0, y: 0 },
};

fn rect(x: i64, y: i64, width: i64, height: i64) -> SizeAndPos {
    SizeAndPos { size: Size { width, height }, position: Position { x, y } }
}

struct Tape {
    events: Vec<(u64, SizeAndPos)>,
}

impl Tape {
    fn new() -> Tape {
        Tape { events: Vec::new() }
    }
}

impl DispatchCallback for Tape {
    fn callback(&mut self, id: Id, size_pos: SizeAndPos) {
        self.events.push((id.0, size_pos));
    }
}

/// The literal scenario of a 1980 by 1080 display: one pane fills it, a
/// second stacks below, and deleting the first hands everything to the
/// survivor, which stays a lone pane.
#[test]
fn scenario_full_cycle() {
    let mut map = TopElementMap::new(DISPLAY_SIZE);

    let mut tape = Tape::new();
    map.insert(Id(0), Id(0), InsertWay::Vertical, &mut tape).unwrap();
    assert_eq!(tape.events, vec![(0, rect(0, 0, 1980, 1080))]);

    let mut tape = Tape::new();
    map.insert(Id(1), Id(0), InsertWay::Vertical, &mut tape).unwrap();
    assert_eq!(
        tape.events,
        vec![(0, rect(0, 0, 1980, 540)), (1, rect(0, 540, 1980, 540))]
    );

    let mut tape = Tape::new();
    map.delete(Id(0), &mut tape).unwrap();
    assert_eq!(tape.events, vec![(1, rect(0, 0, 1980, 1080))]);
    match map.find_window(Id(1)) {
        Some(w) => {
            assert!(w.is_window());
            assert_eq!(w.size_pos(), rect(0, 0, 1980, 1080));
        },
        None => panic!("the surviving pane must be present"),
    }
}

#[test]
fn insert_missing_anchor_fails() {
    let mut map = TopElementMap::new(DISPLAY_SIZE);
    map.insert(Id(0), Id(0), InsertWay::Vertical, &mut ()).unwrap();
    let r = map.insert(Id(1), Id(7), InsertWay::Vertical, &mut ());
    assert_eq!(r, Err(FlyjaError::ElementNotFound));
    assert!(map.has_id(Id(0)));
    assert!(!map.has_id(Id(1)));
    assert_eq!(map.size_pos(), DISPLAY_SIZE);
}

#[test]
fn delete_missing_fails() {
    let mut map = TopElementMap::new(DISPLAY_SIZE);
    let r = map.delete(Id(0), &mut ());
    assert_eq!(r, Err(FlyjaError::ElementNotFound));
    map.insert(Id(0), Id(0), InsertWay::Vertical, &mut ()).unwrap();
    let r = map.delete(Id(9), &mut ());
    assert_eq!(r, Err(FlyjaError::ElementNotFound));
    assert!(map.has_id(Id(0)));
}

#[test]
fn swap_errors() {
    let mut map = TopElementMap::new(DISPLAY_SIZE);
    map.insert(Id(0), Id(0), InsertWay::Vertical, &mut ()).unwrap();
    map.insert(Id(1), Id(0), InsertWay::Vertical, &mut ()).unwrap();
    assert_eq!(map.swap(Id(0), Id(0), &mut ()), Err(FlyjaError::ElementNotFound));
    assert_eq!(map.swap(Id(0), Id(5), &mut ()), Err(FlyjaError::ElementNotFound));
    assert_eq!(map.swap(Id(5), Id(0), &mut ()), Err(FlyjaError::ElementNotFound));
}

/// Swapping the same two panes twice restores both rectangles.
#[test]
fn swap_involution_restores() {
    let mut map = TopElementMap::new(DISPLAY_SIZE);
    map.insert(Id(0), Id(0), InsertWay::Vertical, &mut ()).unwrap();
    map.insert(Id(1), Id(0), InsertWay::Vertical, &mut ()).unwrap();
    map.insert(Id(2), Id(1), InsertWay::Horizontal, &mut ()).unwrap();

    let r0 = map.find_window(Id(0)).unwrap().size_pos();
    let p0 = map.find_window(Id(0)).unwrap().percent();
    let r2 = map.find_window(Id(2)).unwrap().size_pos();
    let p2 = map.find_window(Id(2)).unwrap().percent();

    map.swap(Id(0), Id(2), &mut ()).unwrap();
    assert_eq!(map.find_window(Id(0)).unwrap().size_pos(), r2);
    assert_eq!(map.find_window(Id(2)).unwrap().size_pos(), r0);

    map.swap(Id(0), Id(2), &mut ()).unwrap();
    assert_eq!(map.find_window(Id(0)).unwrap().size_pos(), r0);
    assert_eq!(map.find_window(Id(0)).unwrap().percent(), p0);
    assert_eq!(map.find_window(Id(2)).unwrap().size_pos(), r2);
    assert_eq!(map.find_window(Id(2)).unwrap().percent(), p2);
}

/// A drag whose transfer reaches the neighbor's extent is illegal and
/// leaves both rectangles alone.
#[test]
fn drag_overlong_is_illegal() {
    let mut map = TopElementMap::new(DISPLAY_SIZE);
    map.insert(Id(0), Id(0), InsertWay::Vertical, &mut ()).unwrap();
    map.insert(Id(1), Id(0), InsertWay::Vertical, &mut ()).unwrap();

    let r = map.drag(540, Direction::Bottom, Id(0), &mut ());
    assert_eq!(r, Err(FlyjaError::DragIllegal));
    assert_eq!(map.find_window(Id(0)).unwrap().size_pos(), rect(0, 0, 1980, 540));
    assert_eq!(map.find_window(Id(1)).unwrap().size_pos(), rect(0, 540, 1980, 540));

    let r = map.drag(-540, Direction::Bottom, Id(0), &mut ());
    assert_eq!(r, Err(FlyjaError::DragIllegal));
    assert_eq!(map.find_window(Id(0)).unwrap().size_pos(), rect(0, 0, 1980, 540));
    assert_eq!(map.find_window(Id(1)).unwrap().size_pos(), rect(0, 540, 1980, 540));
}

#[test]
fn drag_moves_the_boundary() {
    let mut map = TopElementMap::new(DISPLAY_SIZE);
    map.insert(Id(0), Id(0), InsertWay::Vertical, &mut ()).unwrap();
    map.insert(Id(1), Id(0), InsertWay::Vertical, &mut ()).unwrap();

    let mut tape = Tape::new();
    map.drag(100, Direction::Bottom, Id(0), &mut tape).unwrap();
    assert_eq!(
        tape.events,
        vec![(0, rect(0, 0, 1980, 640)), (1, rect(0, 640, 1980, 440))]
    );
    assert_eq!(map.find_window(Id(0)).unwrap().size_pos(), rect(0, 0, 1980, 640));
    assert_eq!(map.find_window(Id(1)).unwrap().size_pos(), rect(0, 640, 1980, 440));

    // a later remap honors the renormalized shares
    let mut tape = Tape::new();
    map.remap(rect(0, 0, 1980, 1080), &mut tape);
    assert_eq!(
        tape.events,
        vec![(0, rect(0, 0, 1980, 640)), (1, rect(0, 640, 1980, 440))]
    );
}

#[test]
fn drag_without_neighbor_fails() {
    let mut map = TopElementMap::new(DISPLAY_SIZE);
    map.insert(Id(0), Id(0), InsertWay::Vertical, &mut ()).unwrap();
    map.insert(Id(1), Id(0), InsertWay::Vertical, &mut ()).unwrap();

    // pane 0 is topmost: no boundary above it
    assert_eq!(map.drag(10, Direction::Top, Id(0), &mut ()), Err(FlyjaError::ElementNotFound));
    // pane 1 is bottommost: no boundary below it
    assert_eq!(
        map.drag(10, Direction::Bottom, Id(1), &mut ()),
        Err(FlyjaError::ElementNotFound)
    );
    // no horizontal boundary exists at all
    assert_eq!(map.drag(10, Direction::Left, Id(0), &mut ()), Err(FlyjaError::ElementNotFound));
}

/// Remapping twice with the same rectangle reports the same rectangles
/// twice and never changes any share.
#[test]
fn remap_is_idempotent_and_pure() {
    let mut map = TopElementMap::new(DISPLAY_SIZE);
    map.insert(Id(0), Id(0), InsertWay::Vertical, &mut ()).unwrap();
    map.insert(Id(1), Id(0), InsertWay::Vertical, &mut ()).unwrap();
    map.insert(Id(2), Id(1), InsertWay::Horizontal, &mut ()).unwrap();

    let shares_before = (
        map.find_window(Id(0)).unwrap().percent(),
        map.find_window(Id(1)).unwrap().percent(),
        map.find_window(Id(2)).unwrap().percent(),
    );
    let target = rect(0, 0, 1000, 800);
    let mut first = Tape::new();
    map.remap(target, &mut first);
    let mut second = Tape::new();
    map.remap(target, &mut second);
    assert_eq!(first.events, second.events);
    let shares_after = (
        map.find_window(Id(0)).unwrap().percent(),
        map.find_window(Id(1)).unwrap().percent(),
        map.find_window(Id(2)).unwrap().percent(),
    );
    assert_eq!(shares_before, shares_after);
}

/// An odd extent splits without losing a row: the two halves tile it.
#[test]
fn odd_split_tiles_exactly() {
    let mut map = TopElementMap::new(rect(0, 0, 7, 5));
    map.insert(Id(0), Id(0), InsertWay::Vertical, &mut ()).unwrap();
    map.insert(Id(1), Id(0), InsertWay::Vertical, &mut ()).unwrap();
    let a = map.find_window(Id(0)).unwrap().size_pos();
    let b = map.find_window(Id(1)).unwrap().size_pos();
    assert_eq!(a, rect(0, 0, 7, 2));
    assert_eq!(b, rect(0, 2, 7, 3));
}

#[test]
fn getters_report_the_tree() {
    let map = TopElementMap::new(DISPLAY_SIZE);
    assert_eq!(map.size_pos(), DISPLAY_SIZE);
    assert_eq!(map.position(), Position { x: 0, y: 0 });
    assert_eq!(map.size(), Size { width: 1980, height: 1080 });
    assert_eq!(map.width(), 1980);
    assert_eq!(map.height(), 1080);
    // an empty tree accepts any id as a future anchor
    assert!(map.has_id(Id(42)));
    assert!(map.find_window(Id(42)).is_none());

    let e = Element::new(rect(1, 2, 3, 4));
    assert_eq!(e.size_pos(), rect(1, 2, 3, 4));
    assert!(!e.is_window());
    assert_eq!(e.id(), None);
    assert_eq!(e.percent(), 1);
}

#[test]
fn error_messages() {
    assert_eq!(FlyjaError::ElementNotFound.message(), "Not Found Element");
    assert_eq!(FlyjaError::DragIllegal.message(), "Drag Illegal");
}

#[test]
fn geometry_helpers() {
    let s = Size { width: 10, height: 7 };
    assert_eq!(s.split_h(2), Size { width: 5, height: 7 });
    assert_eq!(s.split_v(2), Size { width: 10, height: 3 });
    assert_eq!(s.split(2, Direction::Left), Size { width: 5, height: 7 });
    assert_eq!(s.split_way(2, InsertWay::Vertical), Size { width: 10, height: 3 });
    assert!(s.size_legal());
    assert!(!Size::zero().size_legal());
    assert_eq!(Position::zero(), Position { x: 0, y: 0 });

    assert_eq!(Direction::Top.opposite(), Direction::Bottom);
    assert_eq!(Direction::Left.opposite(), Direction::Right);
    assert_eq!(Direction::expend_way(InsertWay::Vertical, true), Direction::Top);
    assert_eq!(Direction::expend_way(InsertWay::Horizontal, false), Direction::Right);
    assert!(InsertWay::Vertical.fit_direction(Direction::Top));
    assert!(!InsertWay::Vertical.fit_direction(Direction::Left));

    let mut sp = rect(0, 0, 10, 8);
    let part = sp.split(Direction::Bottom);
    assert_eq!(part, rect(0, 4, 10, 4));
    assert_eq!(sp, rect(0, 0, 10, 4));

    let delta = SizeAndPos::drag_change(5, Direction::Top);
    assert_eq!(delta.size, Size { width: 0, height: -5 });
    assert_eq!(delta.position, Position { x: 0, y: 5 });

    let gone = rect(0, 0, 10, 8).change_disappear(Direction::Right);
    assert_eq!(gone.size, Size { width: 10, height: 0 });
    assert_eq!(gone.position, Position { x: 0, y: 0 });
}

/// An empty tree accepts any anchor id for its first pane.
#[test]
fn empty_tree_accepts_any_anchor() {
    let mut map = TopElementMap::new(DISPLAY_SIZE);
    let mut tape = Tape::new();
    map.insert(Id(3), Id(99), InsertWay::Horizontal, &mut tape).unwrap();
    assert_eq!(tape.events, vec![(3, DISPLAY_SIZE)]);
    assert!(map.has_id(Id(3)));
    assert!(!map.has_id(Id(99)));
}

#[test]
fn insert_toward_all_sides() {
    let mut map = TopElementMap::new(rect(0, 0, 800, 600));
    map.insert_toward(Id(0), Id(0), Direction::Top, &mut ()).unwrap();
    map.insert_toward(Id(1), Id(0), Direction::Right, &mut ()).unwrap();
    assert_eq!(map.find_window(Id(0)).unwrap().size_pos(), rect(0, 0, 400, 600));
    assert_eq!(map.find_window(Id(1)).unwrap().size_pos(), rect(400, 0, 400, 600));

    map.insert_toward(Id(2), Id(1), Direction::Bottom, &mut ()).unwrap();
    assert_eq!(map.find_window(Id(1)).unwrap().size_pos(), rect(400, 0, 400, 300));
    assert_eq!(map.find_window(Id(2)).unwrap().size_pos(), rect(400, 300, 400, 300));

    map.insert_toward(Id(3), Id(2), Direction::Left, &mut ()).unwrap();
    assert_eq!(map.find_window(Id(3)).unwrap().size_pos(), rect(400, 300, 200, 300));
    assert_eq!(map.find_window(Id(2)).unwrap().size_pos(), rect(600, 300, 200, 300));
}

/// The shares of siblings always account for the whole container: after a
/// mix of operations each pair of siblings still fills its parent.
#[test]
fn shares_keep_accounting() {
    let mut map = TopElementMap::new(DISPLAY_SIZE);
    map.insert(Id(0), Id(0), InsertWay::Vertical, &mut ()).unwrap();
    map.insert(Id(1), Id(0), InsertWay::Vertical, &mut ()).unwrap();
    map.insert(Id(2), Id(0), InsertWay::Vertical, &mut ()).unwrap();
    map.drag(100, Direction::Bottom, Id(2), &mut ()).unwrap();
    map.delete(Id(2), &mut ()).unwrap();
    // a remap of the same rectangle reproduces the current layout exactly
    let r0 = map.find_window(Id(0)).unwrap().size_pos();
    let r1 = map.find_window(Id(1)).unwrap().size_pos();
    map.remap(DISPLAY_SIZE, &mut ());
    assert_eq!(map.find_window(Id(0)).unwrap().size_pos(), r0);
    assert_eq!(map.find_window(Id(1)).unwrap().size_pos(), r1);
    // and the two panes tile the display
    assert_eq!(r0.position.y, 0);
    assert_eq!(r1.position.y, r0.size.height);
    assert_eq!(r0.size.height + r1.size.height, 1080);
    assert_eq!(r0.size.width, 1980);
    assert_eq!(r1.size.width, 1980);
}

/// The largest representable display still splits exactly.
#[test]
fn largest_display_splits() {
    let limit = flyja::utils::COORD_LIMIT;
    let mut map = TopElementMap::new(rect(0, 0, limit, limit));
    map.insert(Id(0), Id(0), InsertWay::Horizontal, &mut ()).unwrap();
    map.insert(Id(1), Id(0), InsertWay::Horizontal, &mut ()).unwrap();
    let a = map.find_window(Id(0)).unwrap().size_pos();
    let b = map.find_window(Id(1)).unwrap().size_pos();
    assert_eq!(a.size.width + b.size.width, limit);
    assert_eq!(b.position.x, a.size.width);
}

/// A boundary inside a same-axis nested container is found: the drag
/// descends to the pair instead of reporting the pane missing, and an
/// over-long drag there is refused as illegal, not as missing.
#[test]
fn drag_descends_into_nested_container() {
    // build Vertical[9, Vertical[3, 5]] through the public api
    let mut map = TopElementMap::new(DISPLAY_SIZE);
    map.insert(Id(9), Id(9), InsertWay::Vertical, &mut ()).unwrap();
    map.insert(Id(3), Id(9), InsertWay::Vertical, &mut ()).unwrap();
    map.insert(Id(4), Id(3), InsertWay::Horizontal, &mut ()).unwrap();
    map.insert(Id(5), Id(3), InsertWay::Vertical, &mut ()).unwrap();
    map.delete(Id(4), &mut ()).unwrap();
    assert_eq!(map.find_window(Id(9)).unwrap().size_pos(), rect(0, 0, 1980, 540));
    assert_eq!(map.find_window(Id(3)).unwrap().size_pos(), rect(0, 540, 1980, 270));
    assert_eq!(map.find_window(Id(5)).unwrap().size_pos(), rect(0, 810, 1980, 270));

    // pane 5 sits inside the nested container, off its top edge: its top
    // boundary is the inner one against pane 3
    let mut tape = Tape::new();
    map.drag(100, Direction::Top, Id(5), &mut tape).unwrap();
    assert_eq!(
        tape.events,
        vec![(3, rect(0, 540, 1980, 370)), (5, rect(0, 910, 1980, 170))]
    );
    assert_eq!(map.find_window(Id(9)).unwrap().size_pos(), rect(0, 0, 1980, 540));

    // an over-long drag at that inner boundary is illegal, not missing
    assert_eq!(map.drag(170, Direction::Top, Id(5), &mut ()), Err(FlyjaError::DragIllegal));
    assert_eq!(map.find_window(Id(5)).unwrap().size_pos(), rect(0, 910, 1980, 170));
}

/// The in-place split reports the two panes whose rectangles changed:
/// the resized anchor first, then the new pane.
#[test]
fn in_place_insert_reports_both_panes() {
    let mut map = TopElementMap::new(DISPLAY_SIZE);
    map.insert(Id(0), Id(0), InsertWay::Vertical, &mut ()).unwrap();
    map.insert(Id(1), Id(0), InsertWay::Vertical, &mut ()).unwrap();
    let mut tape = Tape::new();
    map.insert(Id(2), Id(0), InsertWay::Vertical, &mut tape).unwrap();
    assert_eq!(
        tape.events,
        vec![(0, rect(0, 0, 1980, 270)), (2, rect(0, 270, 1980, 270))]
    );
}
