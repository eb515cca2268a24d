use flyja::{Direction, DispatchCallback, Id, InsertWay, Position, Size, SizeAndPos, TopElementMap};

const DISPLAY_SIZE: SizeAndPos = SizeAndPos {
    size: Size { width: 1980, height: 1080 },
    position: Position { x: 0, y: 0 },
};

fn rect(x: i64, y: i64, width: i64, height: i64) -> SizeAndPos {
    SizeAndPos { size: Size { width, height }, position: Position { x, y } }
}

/// Records every callback in order.
struct Recorder {
    events: Vec<(u64, SizeAndPos)>,
}

impl Recorder {
    fn new() -> Recorder {
        Recorder { events: Vec::new() }
    }

    fn expect(&self, id: u64, sp: SizeAndPos) {
        for (eid, esp) in &self.events {
            if *eid == id {
                assert_eq!(*esp, sp, "pane {} reported an unexpected rectangle", id);
                return;
            }
        }
        panic!("no callback for pane {}", id);
    }
}

impl DispatchCallback for Recorder {
    fn callback(&mut self, id: Id, size_pos: SizeAndPos) {
        self.events.push((id.0, size_pos));
    }
}

#[test]
fn drag_drop() {
    let mut element_map = TopElementMap::new(DISPLAY_SIZE);
    let id = Id(0);
    let mut rec = Recorder::new();
    element_map
        .insert_toward(id, Id(0), Direction::Top, &mut rec)
        .expect("Insert should succeeded");
    assert_eq!(rec.events, vec![(0, DISPLAY_SIZE)]);

    let id = Id(1);
    let mut rec = Recorder::new();
    element_map
        .insert_toward(id, Id(0), Direction::Top, &mut rec)
        .expect("Insert should succeeded");
    rec.expect(1, rect(0, 0, 1980, 540));
    rec.expect(0, rect(0, 540, 1980, 540));

    let mut rec = Recorder::new();
    element_map
        .drag_and_drop(Id(1), Id(0), Direction::Left, &mut rec)
        .expect("Should succeeded");
    rec.expect(0, rect(990, 0, 990, 1080));
    rec.expect(1, rect(0, 0, 990, 1080));
    assert_eq!(rec.events.len(), 2);
}

#[test]
fn insert_test() {
    let mut element_map = TopElementMap::new(DISPLAY_SIZE);
    let id = Id(0);
    let mut rec = Recorder::new();
    element_map
        .insert_toward(id, Id(0), Direction::Top, &mut rec)
        .expect("Insert should succeeded");
    assert_eq!(rec.events, vec![(0, DISPLAY_SIZE)]);

    let id = Id(1);
    let mut rec = Recorder::new();
    element_map
        .insert_toward(id, Id(0), Direction::Top, &mut rec)
        .expect("Insert should succeeded");
    for (eid, esp) in &rec.events {
        match eid {
            1 => assert_eq!(*esp, rect(0, 0, 1980, 540)),
            0 => assert_eq!(*esp, rect(0, 540, 1980, 540)),
            _ => unreachable!(),
        }
    }

    let id = Id(2);
    let mut rec = Recorder::new();
    element_map
        .insert_toward(id, Id(0), Direction::Top, &mut rec)
        .expect("Insert should succeeded");
    for (eid, esp) in &rec.events {
        match eid {
            1 => assert_eq!(*esp, rect(0, 0, 1980, 540)),
            0 => assert_eq!(*esp, rect(0, 810, 1980, 270)),
            2 => assert_eq!(*esp, rect(0, 540, 1980, 270)),
            _ => unreachable!(),
        }
    }

    let id = Id(3);
    let mut rec = Recorder::new();
    element_map
        .insert_toward(id, Id(0), Direction::Left, &mut rec)
        .expect("Insert should succeeded");
    for (eid, esp) in &rec.events {
        match eid {
            0 => assert_eq!(*esp, rect(990, 810, 990, 270)),
            1 => assert_eq!(*esp, rect(0, 0, 1980, 540)),
            2 => assert_eq!(*esp, rect(0, 540, 1980, 270)),
            3 => assert_eq!(*esp, rect(0, 810, 990, 270)),
            _ => unreachable!(),
        }
    }
}

#[test]
fn insert_new_and_delete() {
    let mut element_map = TopElementMap::new(DISPLAY_SIZE);
    let id = Id(0);
    let mut rec = Recorder::new();
    element_map
        .insert(id, Id(0), InsertWay::Vertical, &mut rec)
        .expect("Insert should succeeded");
    assert_eq!(rec.events, vec![(0, DISPLAY_SIZE)]);

    let id = Id(1);
    let mut rec = Recorder::new();
    element_map
        .insert(id, Id(0), InsertWay::Vertical, &mut rec)
        .expect("Insert should succeeded");
    for (eid, esp) in &rec.events {
        match eid {
            0 => assert_eq!(*esp, rect(0, 0, 1980, 540)),
            1 => assert_eq!(*esp, rect(0, 540, 1980, 540)),
            _ => unreachable!(),
        }
    }

    let id = Id(2);
    let mut rec = Recorder::new();
    element_map
        .insert(id, Id(0), InsertWay::Vertical, &mut rec)
        .expect("Insert should succeeded");
    for (eid, esp) in &rec.events {
        match eid {
            0 => assert_eq!(*esp, rect(0, 0, 1980, 270)),
            1 => assert_eq!(*esp, rect(0, 720, 1980, 270)),
            2 => assert_eq!(*esp, rect(0, 270, 1980, 270)),
            _ => unreachable!(),
        }
    }

    let id = Id(3);
    let mut rec = Recorder::new();
    element_map
        .insert(id, Id(0), InsertWay::Horizontal, &mut rec)
        .expect("Insert should succeeded");
    for (eid, esp) in &rec.events {
        match eid {
            0 => assert_eq!(*esp, rect(0, 0, 990, 270)),
            1 => assert_eq!(*esp, rect(0, 720, 1980, 540)),
            2 => assert_eq!(*esp, rect(0, 360, 1980, 270)),
            3 => assert_eq!(*esp, rect(990, 0, 990, 270)),
            _ => unreachable!(),
        }
    }

    let mut rec = Recorder::new();
    element_map.delete(Id(2), &mut rec).expect("Should work");
    for (eid, esp) in &rec.events {
        match eid {
            0 => assert_eq!(*esp, rect(0, 0, 990, 540)),
            1 => assert_eq!(*esp, rect(0, 540, 1980, 540)),
            3 => assert_eq!(*esp, rect(990, 0, 990, 540)),
            _ => unreachable!(),
        }
    }

    let mut rec = Recorder::new();
    element_map.delete(Id(0), &mut rec).expect("Should work");
    for (eid, esp) in &rec.events {
        match eid {
            1 => assert_eq!(*esp, rect(0, 540, 1980, 540)),
            3 => assert_eq!(*esp, rect(0, 0, 1980, 540)),
            _ => unreachable!(),
        }
    }

    let mut rec = Recorder::new();
    element_map.delete(Id(1), &mut rec).expect("Should work");
    for (eid, esp) in &rec.events {
        match eid {
            3 => assert_eq!(*esp, rect(0, 0, 1980, 1080)),
            _ => unreachable!(),
        }
    }

    let mut rec = Recorder::new();
    element_map.delete(Id(3), &mut rec).expect("Should work");
    assert!(rec.events.is_empty());
}

#[test]
fn remap_test() {
    let remap_size_pos = rect(0, 0, 2880, 1800);

    let mut element_map = TopElementMap::new(DISPLAY_SIZE);
    let id = Id(0);
    let _ = element_map.insert(id, Id(0), InsertWay::Vertical, &mut ());
    let mut rec = Recorder::new();
    element_map.remap(remap_size_pos, &mut rec);
    assert_eq!(rec.events, vec![(0, remap_size_pos)]);

    let mut element_map = TopElementMap::new(DISPLAY_SIZE);
    let id_old = Id(0);
    let _ = element_map.insert(id_old, Id(0), InsertWay::Vertical, &mut ());
    let id = Id(1);
    let _ = element_map.insert(id, id_old, InsertWay::Vertical, &mut ());
    let mut rec = Recorder::new();
    element_map.remap(remap_size_pos, &mut rec);
    for (eid, esp) in &rec.events {
        match eid {
            0 => assert_eq!(*esp, rect(0, 0, 2880, 900)),
            1 => assert_eq!(*esp, rect(0, 900, 2880, 900)),
            _ => unreachable!(),
        }
    }

    let mut element_map = TopElementMap::new(DISPLAY_SIZE);
    let id_old = Id(0);
    let _ = element_map.insert(id_old, Id(0), InsertWay::Vertical, &mut ());
    let id = Id(1);
    let _ = element_map.insert(id, id_old, InsertWay::Horizontal, &mut ());
    let mut rec = Recorder::new();
    element_map.remap(remap_size_pos, &mut rec);
    for (eid, esp) in &rec.events {
        match eid {
            0 => assert_eq!(*esp, rect(0, 0, 1440, 1800)),
            1 => assert_eq!(*esp, rect(1440, 0, 1440, 1800)),
            _ => unreachable!(),
        }
    }
}

#[test]
fn swap_test() {
    let mut element_map = TopElementMap::new(DISPLAY_SIZE);
    let id = Id(0);
    let _ = element_map.insert(id, Id(0), InsertWay::Vertical, &mut ());
    let id = Id(1);
    let _ = element_map.insert(id, Id(0), InsertWay::Vertical, &mut ());
    let mut rec = Recorder::new();
    element_map.swap(Id(0), Id(1), &mut rec).expect("Should ok");
    for (eid, esp) in &rec.events {
        match eid {
            0 => assert_eq!(*esp, rect(0, 540, 1980, 540)),
            1 => assert_eq!(*esp, rect(0, 0, 1980, 540)),
            _ => unreachable!(),
        }
    }

    let mut element_map = TopElementMap::new(DISPLAY_SIZE);
    let id = Id(0);
    let _ = element_map.insert(id, Id(0), InsertWay::Horizontal, &mut ());
    let id = Id(1);
    let _ = element_map.insert(id, Id(0), InsertWay::Horizontal, &mut ());
    let mut rec = Recorder::new();
    element_map.swap(Id(0), Id(1), &mut rec).expect("Should ok");
    for (eid, esp) in &rec.events {
        match eid {
            0 => assert_eq!(*esp, rect(990, 0, 990, 1080)),
            1 => assert_eq!(*esp, rect(0, 0, 990, 1080)),
            _ => unreachable!(),
        }
    }
}
