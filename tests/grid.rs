use std::collections::HashSet;

use gol::gol::{GridError, World, CHUNK_SIZE, ROOT};
use gol::math::Vec4;

fn rect(x1: i64, y1: i64, x2: i64, y2: i64) -> Vec4<i64> {
    Vec4 { x1, y1, x2, y2 }
}

fn at(buf: &[bool], win: Vec4<i64>, x: i64, y: i64) -> bool {
    let w = win.x2 - win.x1;
    buf[((x - win.x1) + (y - win.y1) * w) as usize]
}

#[test]
fn chunk_width_is_eight() {
    assert_eq!(CHUNK_SIZE, 8);
}

#[test]
fn new_world_has_one_chunk_of_bounds() {
    let w = World::new();
    assert_eq!(w.size(), rect(0, 0, 8, 8));
    assert_eq!(w.get_chunk(0, 0), Some(ROOT));
    assert_eq!(w.get_chunk(1, 0), None);
    assert_eq!(w.get_chunk(-1, -1), None);
}

#[test]
fn window_length_is_its_area() {
    let mut w = World::new();
    w.set_cell(20, -5, true).unwrap();
    for win in [
        rect(0, 0, 0, 0),
        rect(0, 0, 5, 0),
        rect(-3, -3, 4, 9),
        rect(-100, -100, -90, -70),
        rect(3, 2, 40, 3),
        rect(-16, -16, 32, 32),
    ] {
        let buf = w.get_world(win);
        assert_eq!(buf.len() as i64, (win.x2 - win.x1) * (win.y2 - win.y1));
    }
}

#[test]
fn fresh_world_reads_dead_everywhere() {
    let w = World::new();
    let buf = w.get_world(rect(-20, -20, 20, 20));
    assert_eq!(buf.len(), 1600);
    assert!(buf.iter().all(|c| !c));
}

#[test]
fn untouched_cells_stay_dead() {
    let mut w = World::new();
    w.set_cell(3, 3, true).unwrap();
    w.set_cell(-9, 17, true).unwrap();
    w.resize(1, -2).unwrap();
    w.set_cell(3, 3, false).unwrap();
    let win = rect(-24, -24, 40, 40);
    let buf = w.get_world(win);
    for y in win.y1..win.y2 {
        for x in win.x1..win.x2 {
            let expected = x == -9 && y == 17;
            assert_eq!(at(&buf, win, x, y), expected, "cell ({x}, {y})");
        }
    }
}

#[test]
fn write_then_read_back() {
    let mut w = World::new();
    w.set_cell(5, 6, true).unwrap();
    let win = rect(4, 4, 9, 9);
    let buf = w.get_world(win);
    assert!(at(&buf, win, 5, 6));
    assert_eq!(buf.iter().filter(|c| **c).count(), 1);
    w.set_cell(5, 6, false).unwrap();
    let buf = w.get_world(win);
    assert!(!at(&buf, win, 5, 6));
    assert!(buf.iter().all(|c| !c));
}

#[test]
fn write_then_read_back_at_negative_coordinates() {
    let mut w = World::new();
    w.set_cell(-1, -1, true).unwrap();
    assert_eq!(w.size(), rect(-8, -8, 8, 8));
    let win = rect(-2, -2, 2, 2);
    let buf = w.get_world(win);
    assert!(at(&buf, win, -1, -1));
    assert_eq!(buf.iter().filter(|c| **c).count(), 1);
    w.set_cell(-1, -1, false).unwrap();
    assert!(w.get_world(win).iter().all(|c| !c));
}

#[test]
fn root_is_located_for_the_whole_lifetime() {
    let mut w = World::new();
    assert_eq!(w.get_chunk(0, 0), Some(ROOT));
    w.resize(-3, 2).unwrap();
    assert_eq!(w.get_chunk(0, 0), Some(ROOT));
    w.set_cell(-40, 50, true).unwrap();
    assert_eq!(w.get_chunk(0, 0), Some(ROOT));
    w.resize(2, -1).unwrap();
    assert_eq!(w.get_chunk(0, 0), Some(ROOT));
}

#[test]
fn every_materialised_chunk_is_located_once() {
    let mut w = World::new();
    w.resize(2, 1).unwrap();
    w.resize(-1, -2).unwrap();
    assert_eq!(w.size(), rect(-8, -16, 24, 16));
    let mut seen = HashSet::new();
    for cy in -3..5 {
        for cx in -3..5 {
            let inside = (-1..3).contains(&cx) && (-2..2).contains(&cy);
            match w.get_chunk(cx, cy) {
                Some(slot) => {
                    assert!(inside, "chunk ({cx}, {cy})");
                    assert!(seen.insert(slot));
                }
                None => assert!(!inside, "chunk ({cx}, {cy})"),
            }
        }
    }
    assert_eq!(seen.len(), 16);
}

#[test]
fn bounds_only_grow() {
    let mut w = World::new();
    w.resize(2, 0).unwrap();
    assert_eq!(w.size(), rect(0, 0, 24, 8));
    w.resize(0, -1).unwrap();
    assert_eq!(w.size(), rect(0, -8, 24, 8));
    w.resize(-1, 3).unwrap();
    assert_eq!(w.size(), rect(-8, -8, 24, 32));
    w.resize(0, 0).unwrap();
    assert_eq!(w.size(), rect(-8, -8, 24, 32));
    w.set_cell(0, 0, true).unwrap();
    assert_eq!(w.size(), rect(-8, -8, 24, 32));
}

#[test]
fn resize_keeps_cells() {
    let mut w = World::new();
    w.set_cell(7, 7, true).unwrap();
    w.set_cell(0, 0, true).unwrap();
    w.resize(-2, -2).unwrap();
    w.resize(3, 1).unwrap();
    let win = rect(0, 0, 8, 8);
    let buf = w.get_world(win);
    assert!(at(&buf, win, 7, 7));
    assert!(at(&buf, win, 0, 0));
    assert_eq!(buf.iter().filter(|c| **c).count(), 2);
}

#[test]
fn write_grows_by_the_fewest_chunks() {
    let mut w = World::new();
    w.set_cell(-1, 20, true).unwrap();
    assert_eq!(w.size(), rect(-8, 0, 8, 24));
    w.set_cell(-8, 24, true).unwrap();
    assert_eq!(w.size(), rect(-8, 0, 8, 32));
    w.set_cell(-9, -17, true).unwrap();
    assert_eq!(w.size(), rect(-16, -24, 8, 32));
}

#[test]
fn write_on_the_lower_edge_does_not_grow() {
    let mut w = World::new();
    w.set_cell(0, 0, true).unwrap();
    assert_eq!(w.size(), rect(0, 0, 8, 8));
}

#[test]
fn scenario_write_east_of_the_root() {
    let mut w = World::new();
    assert_eq!(w.size(), rect(0, 0, 8, 8));
    w.set_cell(10, 2, true).unwrap();
    let b = w.size();
    assert!(b.x1 <= 0 && b.y1 <= 0 && b.x2 >= 16 && b.y2 >= 8);
    assert_eq!(b, rect(0, 0, 16, 8));
    assert!(w.get_chunk(1, 0).is_some());
    assert_ne!(w.get_chunk(1, 0), w.get_chunk(0, 0));
    let win = rect(8, 0, 16, 8);
    let buf = w.get_world(win);
    assert_eq!(buf.len(), 64);
    for (i, c) in buf.iter().enumerate() {
        assert_eq!(*c, i == 2 + 2 * 8, "entry {i}");
    }
}

#[test]
fn scenario_window_outside_bounds() {
    let w = World::new();
    let buf = w.get_world(rect(100, 100, 108, 108));
    assert_eq!(buf.len(), 64);
    assert!(buf.iter().all(|c| !c));
    assert_eq!(w.size(), rect(0, 0, 8, 8));
    assert_eq!(w.get_chunk(12, 12), None);
}

#[test]
fn write_out_of_range_is_refused() {
    let mut w = World::new();
    assert_eq!(w.set_cell(i64::MAX, 0, true), Err(GridError::CoordinateOutOfRange));
    assert_eq!(w.set_cell(3, i64::MAX - 3, true), Err(GridError::CoordinateOutOfRange));
    assert_eq!(w.size(), rect(0, 0, 8, 8));
    assert!(w.get_world(rect(0, 0, 8, 8)).iter().all(|c| !c));
}

#[test]
fn resize_out_of_range_is_refused() {
    let mut w = World::new();
    assert_eq!(w.resize(i64::MAX, 0), Err(GridError::CoordinateOutOfRange));
    assert_eq!(w.resize(0, i64::MIN), Err(GridError::CoordinateOutOfRange));
    assert_eq!(w.resize(i64::MAX / 8, 0), Err(GridError::CoordinateOutOfRange));
    assert_eq!(w.size(), rect(0, 0, 8, 8));
}

#[test]
fn window_across_many_chunks_matches_writes() {
    let mut w = World::new();
    let mut alive = HashSet::new();
    let points = [(0, 0), (13, -4), (-20, 9), (31, 31), (-1, 8), (8, -1), (-17, -17), (4, 25)];
    for (x, y) in points {
        w.set_cell(x, y, true).unwrap();
        alive.insert((x, y));
    }
    w.set_cell(13, -4, false).unwrap();
    alive.remove(&(13, -4));
    for win in [rect(-30, -30, 40, 40), rect(-5, -5, 11, 13), rect(7, -3, 9, 30), rect(-20, 9, -19, 10)] {
        let buf = w.get_world(win);
        for y in win.y1..win.y2 {
            for x in win.x1..win.x2 {
                assert_eq!(at(&buf, win, x, y), alive.contains(&(x, y)), "cell ({x}, {y})");
            }
        }
    }
}

#[test]
fn life_step_leaves_the_grid_alone() {
    let mut w = World::new();
    w.set_cell(2, 3, true).unwrap();
    w.life_step();
    assert_eq!(w.size(), rect(0, 0, 8, 8));
    let win = rect(0, 0, 8, 8);
    let buf = w.get_world(win);
    assert!(at(&buf, win, 2, 3));
    assert_eq!(buf.iter().filter(|c| **c).count(), 1);
}

#[test]
fn growth_keeps_existing_slots() {
    let mut w = World::new();
    w.resize(1, 1).unwrap();
    let before: Vec<_> = [(0, 0), (1, 0), (0, 1), (1, 1)].iter().map(|(x, y)| w.get_chunk(*x, *y)).collect();
    assert!(before.iter().all(|s| s.is_some()));
    w.resize(-2, -1).unwrap();
    w.set_cell(40, -30, true).unwrap();
    let after: Vec<_> = [(0, 0), (1, 0), (0, 1), (1, 1)].iter().map(|(x, y)| w.get_chunk(*x, *y)).collect();
    assert_eq!(before, after);
}
