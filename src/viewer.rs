//! The state of an interactive viewer of a grid: the window of the plane that
//! it shows, the last pointer position, and how input events change them.
use vstd::prelude::*;

use crate::gol::{World, CHUNK_SIZE};
use crate::math::{fits_i64, Vec2, Vec4};

verus! {

/// The distance, in cells, that one arrow key moves the window.
pub const KEY_STEP: i64 = 2;

/// A key that the viewer responds to.
#[derive(Clone, Copy, Debug, PartialEq, Eq, Structural)]
pub enum Key {
    Enter,
    Esc,
    Left,
    Right,
    Up,
    Down,
    Other,
}

/// A pointer event.
#[derive(Clone, Copy, Debug, PartialEq, Eq, Structural)]
pub enum Mouse {
    /// The pointer moved with no button held.
    Moved,
    /// The pointer moved with the right button held.
    DragRight,
    /// The pointer moved with another button held.
    Drag,
    /// Any other pointer event.
    Other,
}

/// What the surroundings of the viewer must do after an event.
#[derive(Clone, Copy, Debug, PartialEq, Eq, Structural)]
pub enum Action {
    /// Draw the window again.
    Redraw,
    /// Restore the terminal and stop.
    Exit,
    /// Nothing.
    Nothing,
}

/// The viewer: the grid, the window onto it, the size the screen had at the
/// start, and the last pointer position.
pub struct App {
    run: bool,
    win_info_init: Vec2<u16>,
    win_info: Vec4<i64>,
    world: World,
    mouse_pos: Vec2<u16>,
}

/// `r` is `w` moved by `x` columns and `y` rows.
pub open spec fn moved(w: Vec4<i64>, r: Vec4<i64>, x: int, y: int) -> bool {
    &&& r.x1 == w.x1 + x
    &&& r.x2 == w.x2 + x
    &&& r.y1 == w.y1 + y
    &&& r.y2 == w.y2 + y
}

/// `w` can be moved by `x` columns and `y` rows without leaving `i64`.
pub open spec fn can_move(w: Vec4<i64>, x: int, y: int) -> bool {
    fits_i64(w.x1 + x) && fits_i64(w.x2 + x) && fits_i64(w.y1 + y) && fits_i64(w.y2 + y)
}

impl App {
    pub closed spec fn wf(&self) -> bool {
        &&& self.world.wf()
        &&& self.win_info.wf()
        &&& self.win_info.width() <= u16::MAX
        &&& self.win_info.height() <= u16::MAX
    }

    /// The window of the plane that the viewer shows.
    pub closed spec fn win_rect(&self) -> Vec4<i64> {
        self.win_info
    }

    /// The grid that the viewer shows.
    pub closed spec fn grid(&self) -> World {
        self.world
    }

    /// The viewer has not been finished.
    pub closed spec fn is_running(&self) -> bool {
        self.run
    }

    /// The last recorded pointer position.
    pub closed spec fn pointer(&self) -> Vec2<u16> {
        self.mouse_pos
    }

    /// The screen size at the start.
    pub closed spec fn init_size(&self) -> Vec2<u16> {
        self.win_info_init
    }

    /// A viewer of a fresh grid on a screen of `w` columns and `h` rows,
    /// whose window starts at the origin.
    pub fn new(w: u16, h: u16) -> (r: App)
        ensures
            r.wf(),
            r.is_running(),
            r.win_rect() == (Vec4::<i64> { x1: 0, y1: 0, x2: w as i64, y2: h as i64 }),
            r.init_size() == (Vec2::<u16> { x: w, y: h }),
            r.pointer() == (Vec2::<u16> { x: 0, y: 0 }),
            r.grid().bounds() == (Vec4::<i64> { x1: 0, y1: 0, x2: CHUNK_SIZE, y2: CHUNK_SIZE }),
            forall|x: int, y: int| !#[trigger] r.grid().cell(x, y),
    {
        App {
            run: true,
            win_info_init: Vec2 { x: w, y: h },
            win_info: Vec4 { x1: 0, y1: 0, x2: w as i64, y2: h as i64 },
            world: World::new(),
            mouse_pos: Vec2::new(0, 0),
        }
    }

    /// Moves the window by `x` columns and `y` rows.
    pub fn move_window(&mut self, x: i64, y: i64)
        requires
            old(self).wf(),
            can_move(old(self).win_rect(), x as int, y as int),
        ensures
            final(self).wf(),
            moved(old(self).win_rect(), final(self).win_rect(), x as int, y as int),
            final(self).grid() == old(self).grid(),
            final(self).is_running() == old(self).is_running(),
            final(self).pointer() == old(self).pointer(),
            final(self).init_size() == old(self).init_size(),
    {
        self.win_info.x1 = self.win_info.x1 + x;
        self.win_info.x2 = self.win_info.x2 + x;
        self.win_info.y1 = self.win_info.y1 + y;
        self.win_info.y2 = self.win_info.y2 + y;
    }

    /// Moves the window by `x` columns and `y` rows where that keeps it inside
    /// `i64`, and tells whether it did.
    fn try_move(&mut self, x: i64, y: i64) -> (r: bool)
        requires
            old(self).wf(),
        ensures
            final(self).wf(),
            r == can_move(old(self).win_rect(), x as int, y as int),
            r ==> moved(old(self).win_rect(), final(self).win_rect(), x as int, y as int),
            !r ==> final(self).win_rect() == old(self).win_rect(),
            final(self).grid() == old(self).grid(),
            final(self).is_running() == old(self).is_running(),
            final(self).pointer() == old(self).pointer(),
            final(self).init_size() == old(self).init_size(),
    {
        let w = self.win_info;
        if w.x1.checked_add(x).is_none() || w.x2.checked_add(x).is_none() || w.y1.checked_add(
            y,
        ).is_none() || w.y2.checked_add(y).is_none() {
            return false;
        }
        self.move_window(x, y);
        true
    }

    /// Gives the window `w` columns and `h` rows, keeping its top-left corner.
    pub fn handle_resize(&mut self, w: u16, h: u16)
        requires
            old(self).wf(),
            fits_i64(old(self).win_rect().x1 + w),
            fits_i64(old(self).win_rect().y1 + h),
        ensures
            final(self).wf(),
            final(self).win_rect() == (Vec4::<i64> {
                x1: old(self).win_rect().x1,
                y1: old(self).win_rect().y1,
                x2: (old(self).win_rect().x1 + w) as i64,
                y2: (old(self).win_rect().y1 + h) as i64,
            }),
            final(self).grid() == old(self).grid(),
            final(self).is_running() == old(self).is_running(),
            final(self).pointer() == old(self).pointer(),
            final(self).init_size() == old(self).init_size(),
    {
        self.win_info.x2 = self.win_info.x1 + w as i64;
        self.win_info.y2 = self.win_info.y1 + h as i64;
    }

    /// Marks the viewer as finished.
    pub fn exit(&mut self)
        requires
            old(self).wf(),
        ensures
            final(self).wf(),
            !final(self).is_running(),
            final(self).win_rect() == old(self).win_rect(),
            final(self).grid() == old(self).grid(),
            final(self).pointer() == old(self).pointer(),
            final(self).init_size() == old(self).init_size(),
    {
        self.run = false;
    }

    /// Enter redraws; Esc finishes the viewer; an arrow key moves the window
    /// by `KEY_STEP` cells that way (left and up towards smaller coordinates)
    /// and redraws, unless the window would leave `i64`; any other key does
    /// nothing.
    pub fn handle_key(&mut self, k: Key) -> (r: Action)
        requires
            old(self).wf(),
        ensures
            final(self).wf(),
            final(self).grid() == old(self).grid(),
            final(self).pointer() == old(self).pointer(),
            final(self).init_size() == old(self).init_size(),
            final(self).is_running() == (old(self).is_running() && k != Key::Esc),
            k == Key::Enter ==> r == Action::Redraw && final(self).win_rect() == old(self).win_rect(),
            k == Key::Esc ==> r == Action::Exit && final(self).win_rect() == old(self).win_rect(),
            k == Key::Other ==> r == Action::Nothing && final(self).win_rect() == old(self).win_rect(),
            ({
                let (x, y) = key_shift(k);
                (k == Key::Left || k == Key::Right || k == Key::Up || k == Key::Down) ==> if can_move(
                    old(self).win_rect(),
                    x,
                    y,
                ) {
                    r == Action::Redraw && moved(old(self).win_rect(), final(self).win_rect(), x, y)
                } else {
                    r == Action::Nothing && final(self).win_rect() == old(self).win_rect()
                }
            }),
    {
        match k {
            Key::Enter => Action::Redraw,
            Key::Esc => {
                self.exit();
                Action::Exit
            },
            Key::Left => self.shift_action(-KEY_STEP, 0),
            Key::Right => self.shift_action(KEY_STEP, 0),
            Key::Up => self.shift_action(0, -KEY_STEP),
            Key::Down => self.shift_action(0, KEY_STEP),
            Key::Other => Action::Nothing,
        }
    }

    fn shift_action(&mut self, x: i64, y: i64) -> (r: Action)
        requires
            old(self).wf(),
        ensures
            final(self).wf(),
            final(self).grid() == old(self).grid(),
            final(self).is_running() == old(self).is_running(),
            final(self).pointer() == old(self).pointer(),
            final(self).init_size() == old(self).init_size(),
            if can_move(old(self).win_rect(), x as int, y as int) {
                r == Action::Redraw && moved(
                    old(self).win_rect(),
                    final(self).win_rect(),
                    x as int,
                    y as int,
                )
            } else {
                r == Action::Nothing && final(self).win_rect() == old(self).win_rect()
            },
    {
        if self.try_move(x, y) {
            Action::Redraw
        } else {
            Action::Nothing
        }
    }

    /// A pointer event at `column`, `row`. Dragging with the right button moves
    /// the window by the pointer's travel since the last event, reversed, so
    /// that the plane follows the pointer, and redraws, unless the window would
    /// leave `i64`. A move or a drag records the pointer's position.
    pub fn handle_mouse(&mut self, kind: Mouse, column: u16, row: u16) -> (r: Action)
        requires
            old(self).wf(),
        ensures
            final(self).wf(),
            final(self).grid() == old(self).grid(),
            final(self).is_running() == old(self).is_running(),
            final(self).init_size() == old(self).init_size(),
            kind == Mouse::Other ==> r == Action::Nothing && final(self).pointer() == old(self).pointer() && final(self).win_rect() == old(self).win_rect(),
            kind != Mouse::Other ==> final(self).pointer() == (Vec2::<u16> { x: column, y: row }),
            (kind == Mouse::Moved || kind == Mouse::Drag) ==> r == Action::Nothing && final(self).win_rect() == old(self).win_rect(),
            ({
                let x = old(self).pointer().x - column;
                let y = old(self).pointer().y - row;
                kind == Mouse::DragRight ==> if can_move(old(self).win_rect(), x, y) {
                    r == Action::Redraw && moved(old(self).win_rect(), final(self).win_rect(), x, y)
                } else {
                    r == Action::Nothing && final(self).win_rect() == old(self).win_rect()
                }
            }),
    {
        match kind {
            Mouse::Moved => {
                self.mouse_pos = Vec2::new(column, row);
                Action::Nothing
            },
            Mouse::DragRight => {
                let x = self.mouse_pos.x as i64 - column as i64;
                let y = self.mouse_pos.y as i64 - row as i64;
                let r = self.shift_action(x, y);
                self.mouse_pos = Vec2::new(column, row);
                r
            },
            Mouse::Drag => {
                self.mouse_pos = Vec2::new(column, row);
                Action::Nothing
            },
            Mouse::Other => Action::Nothing,
        }
    }

    /// The cells of the window, row by row, as `World::get_world` reads them.
    pub fn frame(&self) -> (r: Vec<bool>)
        requires
            self.wf(),
        ensures
            self.grid().reads_window(self.win_rect(), r@),
    {
        let w = self.win_info;
        assert(w.width() * w.height() <= usize::MAX) by (nonlinear_arith)
            requires
                0 <= w.width() <= u16::MAX,
                0 <= w.height() <= u16::MAX,
        ;
        self.world.get_world(w)
    }

    /// The window of the plane that the viewer shows.
    pub fn window(&self) -> (r: Vec4<i64>)
        ensures
            r == self.win_rect(),
    {
        self.win_info
    }

    /// The grid that the viewer shows.
    pub fn world(&self) -> (r: &World)
        ensures
            *r == self.grid(),
    {
        &self.world
    }

    /// The viewer has not been finished.
    pub fn running(&self) -> (r: bool)
        ensures
            r == self.is_running(),
    {
        self.run
    }

    /// The last recorded pointer position.
    pub fn mouse(&self) -> (r: Vec2<u16>)
        ensures
            r == self.pointer(),
    {
        self.mouse_pos
    }

    /// The screen size at the start.
    pub fn initial_size(&self) -> (r: Vec2<u16>)
        ensures
            r == self.init_size(),
    {
        self.win_info_init
    }
}

/// The travel of the window for an arrow key; `(0, 0)` for any other key.
pub open spec fn key_shift(k: Key) -> (int, int) {
    match k {
        Key::Left => (-KEY_STEP as int, 0),
        Key::Right => (KEY_STEP as int, 0),
        Key::Up => (0, -KEY_STEP as int),
        Key::Down => (0, KEY_STEP as int),
        _ => (0, 0),
    }
}

} // verus!
