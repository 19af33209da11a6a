use gol::gol::CellChunk;
use gol::math::{dir2index, index2dir, Vec2, Vec4};

fn rect(x1: i64, y1: i64, x2: i64, y2: i64) -> Vec4<i64> {
    Vec4 { x1, y1, x2, y2 }
}

#[test]
fn intersect_overlapping() {
    assert_eq!(rect(0, 0, 10, 10).intersect(&rect(5, -5, 15, 7)), Some(rect(5, 0, 10, 7)));
    assert_eq!(rect(0, 0, 10, 10).intersect(&rect(2, 3, 4, 5)), Some(rect(2, 3, 4, 5)));
}

#[test]
fn intersect_touching_or_apart_is_none() {
    assert_eq!(rect(0, 0, 10, 10).intersect(&rect(10, 0, 20, 10)), None);
    assert_eq!(rect(0, 0, 10, 10).intersect(&rect(0, 10, 10, 20)), None);
    assert_eq!(rect(0, 0, 10, 10).intersect(&rect(20, 20, 30, 30)), None);
    assert_eq!(rect(0, 0, 10, 10).intersect(&rect(3, 3, 3, 8)), None);
}

#[test]
fn local_to_moves_the_origin() {
    assert_eq!(rect(10, 20, 13, 27).local_to(&rect(8, 16, 16, 24)), rect(2, 4, 5, 11));
    assert_eq!(rect(-3, -3, 0, 1).local_to(&rect(-8, -8, 0, 0)), rect(5, 5, 8, 9));
}

#[test]
fn size_is_width_and_height() {
    let s = rect(-2, 5, 7, 9).size();
    assert_eq!((s.x, s.y), (9, 4));
}

#[test]
fn new_rect_and_pair() {
    assert_eq!(Vec4::new(), rect(0, 0, 0, 0));
    let p = Vec2::new(3u16, 4u16);
    assert_eq!((p.x, p.y), (3, 4));
}

#[test]
fn unit_directions_have_slots() {
    let dirs = [(1, 0), (1, 1), (0, 1), (-1, 1), (-1, 0), (-1, -1), (0, -1), (1, -1)];
    for (i, (x, y)) in dirs.iter().enumerate() {
        assert_eq!(dir2index(*x, *y), Some(i));
        assert_eq!(index2dir(i as i32), Some((*x as i16, *y as i16)));
    }
}

#[test]
fn other_vectors_have_no_slot() {
    assert_eq!(dir2index(0, 0), None);
    assert_eq!(dir2index(2, 0), None);
    assert_eq!(dir2index(-1, 5), None);
    assert_eq!(index2dir(8), None);
    assert_eq!(index2dir(-1), None);
}

#[test]
fn fresh_chunk_is_blank_and_unlinked() {
    let c = CellChunk::new();
    for (x, y) in [(1, 0), (1, 1), (0, 1), (-1, 1), (-1, 0), (-1, -1), (0, -1), (1, -1)] {
        assert_eq!(c.chunk_to(x, y), None);
    }
    assert_eq!(c.chunk_to(0, 0), None);
    for y in 0..8 {
        for x in 0..8 {
            assert!(!c.get_cell(x, y));
        }
    }
}
