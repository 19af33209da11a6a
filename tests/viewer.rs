use gol::math::{Vec2, Vec4};
use gol::viewer::{Action, App, Key, Mouse};

fn rect(x1: i64, y1: i64, x2: i64, y2: i64) -> Vec4<i64> {
    Vec4 { x1, y1, x2, y2 }
}

#[test]
fn new_viewer_shows_the_origin() {
    let app = App::new(80, 24);
    assert!(app.running());
    assert_eq!(app.window(), rect(0, 0, 80, 24));
    assert_eq!(app.initial_size(), Vec2 { x: 80, y: 24 });
    assert_eq!(app.mouse(), Vec2 { x: 0, y: 0 });
    assert_eq!(app.world().size(), rect(0, 0, 8, 8));
}

#[test]
fn move_window_shifts_all_edges() {
    let mut app = App::new(10, 5);
    app.move_window(-3, 7);
    assert_eq!(app.window(), rect(-3, 7, 7, 12));
}

#[test]
fn arrow_keys_move_by_two() {
    let mut app = App::new(10, 5);
    assert_eq!(app.handle_key(Key::Left), Action::Redraw);
    assert_eq!(app.window(), rect(-2, 0, 8, 5));
    assert_eq!(app.handle_key(Key::Down), Action::Redraw);
    assert_eq!(app.window(), rect(-2, 2, 8, 7));
    assert_eq!(app.handle_key(Key::Right), Action::Redraw);
    assert_eq!(app.handle_key(Key::Up), Action::Redraw);
    assert_eq!(app.window(), rect(0, 0, 10, 5));
}

#[test]
fn arrow_key_at_the_edge_of_the_plane_does_nothing() {
    let mut app = App::new(10, 5);
    app.move_window(i64::MAX - 11, 0);
    assert_eq!(app.handle_key(Key::Right), Action::Nothing);
    assert_eq!(app.window(), rect(i64::MAX - 11, 0, i64::MAX - 1, 5));
}

#[test]
fn other_keys() {
    let mut app = App::new(10, 5);
    assert_eq!(app.handle_key(Key::Enter), Action::Redraw);
    assert_eq!(app.handle_key(Key::Other), Action::Nothing);
    assert_eq!(app.window(), rect(0, 0, 10, 5));
    assert!(app.running());
    assert_eq!(app.handle_key(Key::Esc), Action::Exit);
    assert!(!app.running());
}

#[test]
fn right_drag_moves_the_window_against_the_pointer() {
    let mut app = App::new(10, 5);
    assert_eq!(app.handle_mouse(Mouse::Moved, 10, 5), Action::Nothing);
    assert_eq!(app.mouse(), Vec2 { x: 10, y: 5 });
    assert_eq!(app.handle_mouse(Mouse::DragRight, 7, 3), Action::Redraw);
    assert_eq!(app.window(), rect(3, 2, 13, 7));
    assert_eq!(app.mouse(), Vec2 { x: 7, y: 3 });
    assert_eq!(app.handle_mouse(Mouse::Drag, 1, 1), Action::Nothing);
    assert_eq!(app.window(), rect(3, 2, 13, 7));
    assert_eq!(app.mouse(), Vec2 { x: 1, y: 1 });
    assert_eq!(app.handle_mouse(Mouse::Other, 9, 9), Action::Nothing);
    assert_eq!(app.mouse(), Vec2 { x: 1, y: 1 });
}

#[test]
fn resize_keeps_the_corner() {
    let mut app = App::new(10, 5);
    app.move_window(4, -4);
    app.handle_resize(20, 30);
    assert_eq!(app.window(), rect(4, -4, 24, 26));
}

#[test]
fn frame_covers_the_window() {
    let mut app = App::new(12, 7);
    let f = app.frame();
    assert_eq!(f.len(), 84);
    assert!(f.iter().all(|c| !c));
    app.exit();
    assert!(!app.running());
}
