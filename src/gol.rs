//! The chunked grid: tiles of cells linked into a mesh, grown on demand.
use vstd::prelude::*;

use vstd::arithmetic::div_mod::lemma_div_is_ordered;

use crate::math::{
    dir2index, dir_index, dir_x, dir_y, is_unit_dir, lemma_dir_cancel, lemma_dir_round_trip,
    lemma_index_dir, opposite, floor_div, fits_i64, Vec4,
};

verus! {

/// The width and height of a chunk, in cells.
pub const CHUNK_SIZE: i64 = 8;

/// The number of cells in a chunk.
pub open spec fn chunk_cells() -> int {
    CHUNK_SIZE * CHUNK_SIZE
}

/// The cells of one chunk, row by row.
pub struct Cells(Vec<bool>);

impl Cells {
    pub closed spec fn wf(&self) -> bool {
        self.0@.len() == chunk_cells()
    }

    /// The state of the cell in column `x` and row `y`.
    pub closed spec fn at(&self, x: int, y: int) -> bool {
        self.0@[x + y * CHUNK_SIZE]
    }

    /// No cell is alive.
    pub closed spec fn is_blank(&self) -> bool {
        forall|i: int| 0 <= i < chunk_cells() ==> !#[trigger] self.0@[i]
    }

    fn get(&self, x: i64, y: i64) -> (r: bool)
        requires
            self.wf(),
            0 <= x < CHUNK_SIZE,
            0 <= y < CHUNK_SIZE,
        ensures
            r == self.at(x as int, y as int),
    {
        self.0[(x + y * CHUNK_SIZE) as usize]
    }

    fn set(&mut self, x: i64, y: i64, val: bool)
        requires
            old(self).wf(),
            0 <= x < CHUNK_SIZE,
            0 <= y < CHUNK_SIZE,
        ensures
            final(self).wf(),
            final(self).0@ == old(self).0@.update(x + y * CHUNK_SIZE, val),
    {
        self.0.set((x + y * CHUNK_SIZE) as usize, val);
    }

    fn new() -> (r: Cells)
        ensures
            r.wf(),
            r.is_blank(),
    {
        Cells(vec![false; (CHUNK_SIZE * CHUNK_SIZE) as usize])
    }
}

/// A square tile of `CHUNK_SIZE` by `CHUNK_SIZE` cells and, for each of the
/// eight unit directions, the slot of the neighbouring chunk in the mesh that
/// holds it, if that neighbour is linked.
pub struct CellChunk {
    border: Vec<Option<usize>>,
    cells: Cells,
}

impl CellChunk {
    pub closed spec fn wf(&self) -> bool {
        self.border@.len() == 8 && self.cells.wf()
    }

    /// The neighbour linked in direction slot `d`.
    pub closed spec fn link(&self, d: int) -> Option<usize> {
        self.border@[d]
    }

    /// No cell of the tile is alive.
    pub closed spec fn is_blank(&self) -> bool {
        self.cells.is_blank()
    }

    /// The state of the cell in column `x` and row `y` of the tile.
    pub closed spec fn cell(&self, x: int, y: int) -> bool {
        self.cells.at(x, y)
    }

    /// A chunk with every cell dead and no neighbour linked.
    pub fn new() -> (r: CellChunk)
        ensures
            r.wf(),
            r.is_blank(),
            forall|x: int, y: int|
                0 <= x < CHUNK_SIZE && 0 <= y < CHUNK_SIZE ==> !#[trigger] r.cell(x, y),
            forall|d: int| 0 <= d < 8 ==> #[trigger] r.link(d) == None::<usize>,
    {
        CellChunk { border: CellChunk::empty_chunks(), cells: Cells::new() }
    }

    fn empty_chunks() -> (r: Vec<Option<usize>>)
        ensures
            r@.len() == 8,
            forall|d: int| 0 <= d < 8 ==> #[trigger] r@[d] == None::<usize>,
    {
        let mut r: Vec<Option<usize>> = Vec::new();
        let mut i: usize = 0;
        while i < 8
            invariant
                i <= 8,
                r@.len() == i,
                forall|d: int| 0 <= d < i ==> #[trigger] r@[d] == None::<usize>,
            decreases 8 - i,
        {
            r.push(None);
            i = i + 1;
        }
        r
    }

    /// The neighbour linked in unit direction `(x, y)`; `None` when `(x, y)`
    /// is not a unit direction or no neighbour is linked there.
    pub fn chunk_to(&self, x: i64, y: i64) -> (r: Option<usize>)
        requires
            self.wf(),
        ensures
            r == (if is_unit_dir(x as int, y as int) {
                self.link(dir_index(x as int, y as int))
            } else {
                None
            }),
    {
        match dir2index(x, y) {
            Some(d) => self.border[d],
            None => None,
        }
    }

    /// The state of the cell in column `x` and row `y` of the tile.
    pub fn get_cell(&self, x: i64, y: i64) -> (r: bool)
        requires
            self.wf(),
            0 <= x < CHUNK_SIZE,
            0 <= y < CHUNK_SIZE,
        ensures
            r == self.cell(x as int, y as int),
    {
        self.cells.get(x, y)
    }
}

/// The chunk position one step from `c` in direction slot `d`.
pub open spec fn step(c: (int, int), d: int) -> (int, int) {
    (c.0 + dir_x(d), c.1 + dir_y(d))
}

/// `b` lies between `a` and `c`, inclusive, in either order.
pub open spec fn between(a: int, b: int, c: int) -> bool {
    (a <= b <= c) || (c <= b <= a)
}

/// What a link to position `c` must hold, given the slot of each materialised
/// position.
pub open spec fn link_of(slots: Map<(int, int), usize>, c: (int, int)) -> Option<usize> {
    if slots.contains_key(c) {
        Some(slots[c])
    } else {
        None
    }
}

/// The arena `chunks`, the position `coords[i]` of each of its chunks and the
/// slot of each position form a mesh: positions and slots correspond one to one,
/// and each link of each chunk names exactly the chunk one step away, or nothing
/// when no chunk stands there.
pub open spec fn mesh(
    chunks: Seq<CellChunk>,
    coords: Seq<(int, int)>,
    slots: Map<(int, int), usize>,
) -> bool {
    &&& chunks.len() == coords.len()
    &&& forall|i: int| 0 <= i < chunks.len() ==> (#[trigger] chunks[i]).wf()
    &&& forall|i: int|
        0 <= i < coords.len() ==> slots.contains_key(#[trigger] coords[i]) && slots[coords[i]]
            == i
    &&& forall|c: (int, int)| #[trigger]
        slots.contains_key(c) ==> slots[c] < coords.len() && coords[slots[c] as int] == c
    &&& forall|i: int, d: int|
        0 <= i < chunks.len() && 0 <= d < 8 ==> #[trigger] chunks[i].link(d) == link_of(
            slots,
            step(coords[i], d),
        )
}

/// The chunk position `c` lies inside the chunk-aligned rectangle `b`.
pub open spec fn in_chunks(b: Vec4<i64>, c: (int, int)) -> bool {
    b.x1 <= c.0 * CHUNK_SIZE < b.x2 && b.y1 <= c.1 * CHUNK_SIZE < b.y2
}

/// Every edge of `b` lies on a chunk boundary.
pub open spec fn aligned(b: Vec4<i64>) -> bool {
    &&& b.x1 % CHUNK_SIZE == 0
    &&& b.y1 % CHUNK_SIZE == 0
    &&& b.x2 % CHUNK_SIZE == 0
    &&& b.y2 % CHUNK_SIZE == 0
}

/// `b` with its side in direction `(ox, oy)` moved outwards by one chunk.
pub open spec fn extend_side(b: Vec4<i64>, ox: int, oy: int) -> Vec4<i64> {
    Vec4 {
        x1: if ox < 0 { (b.x1 - CHUNK_SIZE) as i64 } else { b.x1 },
        y1: if oy < 0 { (b.y1 - CHUNK_SIZE) as i64 } else { b.y1 },
        x2: if ox > 0 { (b.x2 + CHUNK_SIZE) as i64 } else { b.x2 },
        y2: if oy > 0 { (b.y2 + CHUNK_SIZE) as i64 } else { b.y2 },
    }
}

/// The first `j` positions of the row or column of chunk positions that lies
/// one step in direction `(ox, oy)` beyond the boundary chunks starting at
/// `(bx, by)`.
pub open spec fn on_edge(c: (int, int), bx: int, by: int, ox: int, oy: int, j: int) -> bool {
    if ox != 0 {
        c.0 == bx + ox && by <= c.1 < by + j
    } else {
        c.1 == by + oy && bx <= c.0 < bx + j
    }
}

/// The number of chunk positions in the chunk-aligned rectangle `b`.
pub open spec fn chunk_area(b: Vec4<i64>) -> int {
    ((b.x2 - b.x1) / CHUNK_SIZE as int) * ((b.y2 - b.y1) / CHUNK_SIZE as int)
}

/// The edges `(x1, y1, x2, y2)` of `b` grown by `|dx|` chunk widths on the side
/// that the sign of `dx` points to, and by `|dy|` likewise.
pub open spec fn resized(b: Vec4<i64>, dx: int, dy: int) -> (int, int, int, int) {
    (
        b.x1 + (if dx < 0 { dx } else { 0 }) * CHUNK_SIZE,
        b.y1 + (if dy < 0 { dy } else { 0 }) * CHUNK_SIZE,
        b.x2 + (if dx > 0 { dx } else { 0 }) * CHUNK_SIZE,
        b.y2 + (if dy > 0 { dy } else { 0 }) * CHUNK_SIZE,
    )
}

/// The edges of the least chunk-aligned rectangle that holds `b` and the cell
/// `(x, y)`.
pub open spec fn covering(b: Vec4<i64>, x: int, y: int) -> (int, int, int, int) {
    let left = (x / CHUNK_SIZE as int) * CHUNK_SIZE;
    let top = (y / CHUNK_SIZE as int) * CHUNK_SIZE;
    (
        if left < b.x1 { left } else { b.x1 as int },
        if top < b.y1 { top } else { b.y1 as int },
        if left + CHUNK_SIZE > b.x2 { left + CHUNK_SIZE } else { b.x2 as int },
        if top + CHUNK_SIZE > b.y2 { top + CHUNK_SIZE } else { b.y2 as int },
    )
}

/// All four edges are representable as `i64`.
pub open spec fn edges_fit(e: (int, int, int, int)) -> bool {
    fits_i64(e.0) && fits_i64(e.1) && fits_i64(e.2) && fits_i64(e.3)
}

/// The rectangle with edges `e`.
pub open spec fn edges_rect(e: (int, int, int, int)) -> Vec4<i64> {
    Vec4 { x1: e.0 as i64, y1: e.1 as i64, x2: e.2 as i64, y2: e.3 as i64 }
}

/// The position in a row-major buffer of width `w` of column `dx`, row `dy`.
pub open spec fn win_index(w: int, dx: int, dy: int) -> int {
    dx + dy * w
}

/// Distinct cells of a window have distinct positions in its buffer, and each
/// lies within it.
pub proof fn lemma_win_index(w: int, h: int, dx: int, dy: int, ex: int, ey: int)
    requires
        0 <= dx < w,
        0 <= dy < h,
        0 <= ex < w,
        0 <= ey < h,
    ensures
        0 <= win_index(w, dx, dy) < w * h,
        win_index(w, dx, dy) == win_index(w, ex, ey) ==> dx == ex && dy == ey,
{
    assert(0 <= dx + dy * w < w * h) by (nonlinear_arith)
        requires
            0 <= dx < w,
            0 <= dy < h,
    ;
    if dy < ey {
        assert(dx + dy * w < ex + ey * w) by (nonlinear_arith)
            requires
                0 <= dx < w,
                0 <= ex,
                dy < ey,
        ;
    } else if ey < dy {
        assert(ex + ey * w < dx + dy * w) by (nonlinear_arith)
            requires
                0 <= ex < w,
                0 <= dx,
                ey < dy,
        ;
    }
}

/// The chunk coordinate of the cell coordinate `v`.
pub open spec fn chunk_of(v: int) -> int {
    v / CHUNK_SIZE as int
}

/// The cell `(x, y)` of `contact` lies in a chunk that comes before the chunk
/// `(cx, cy)` in row-major order.
pub open spec fn copied(contact: Vec4<i64>, x: int, y: int, cy: int, cx: int) -> bool {
    contact.contains(x, y) && (chunk_of(y) < cy || (chunk_of(y) == cy && chunk_of(x) < cx))
}

/// A cell lies in an aligned rectangle exactly when the chunk that holds it does.
pub proof fn lemma_cell_in_chunk(b: Vec4<i64>, x: int, y: int)
    requires
        aligned(b),
    ensures
        b.contains(x, y) <==> in_chunks(b, (x / CHUNK_SIZE as int, y / CHUNK_SIZE as int)),
        0 <= (x % CHUNK_SIZE as int) < CHUNK_SIZE,
        0 <= (y % CHUNK_SIZE as int) < CHUNK_SIZE,
{
}

/// The slot of the root chunk, whose cell `(0, 0)` is the cell `(0, 0)` of the
/// plane.
pub const ROOT: usize = 0;

/// Why a grid operation could not be carried out.
#[derive(Clone, Copy, Debug, PartialEq, Eq, Structural)]
pub enum GridError {
    /// The bounds that the operation needs do not fit in `i64`.
    CoordinateOutOfRange,
}

/// An unbounded plane of boolean cells. The materialised part is the
/// chunk-aligned rectangle `size`, covered by one chunk per chunk position;
/// every cell outside it is dead.
pub struct World {
    size: Vec4<i64>,
    chunks: Vec<CellChunk>,
    coords: Ghost<Seq<(int, int)>>,
    slots: Ghost<Map<(int, int), usize>>,
}

impl World {
    pub closed spec fn wf(&self) -> bool {
        &&& mesh(self.chunks@, self.coords@, self.slots@)
        &&& self.size.wf()
        &&& aligned(self.size)
        &&& self.size.x1 <= 0 && CHUNK_SIZE <= self.size.x2
        &&& self.size.y1 <= 0 && CHUNK_SIZE <= self.size.y2
        &&& forall|c: (int, int)| #[trigger]
            self.slots@.contains_key(c) <==> #[trigger] in_chunks(self.size, c)
        &&& self.slots@[(0, 0)] == ROOT
        &&& self.chunks@.len() == chunk_area(self.size)
    }

    /// The materialised rectangle, in cells.
    pub closed spec fn bounds(&self) -> Vec4<i64> {
        self.size
    }

    /// The state of the cell `(x, y)` of the plane.
    pub closed spec fn cell(&self, x: int, y: int) -> bool {
        if self.size.contains(x, y) {
            self.chunks@[self.slots@[(x / CHUNK_SIZE as int, y / CHUNK_SIZE as int)] as int].cell(
                x % CHUNK_SIZE as int,
                y % CHUNK_SIZE as int,
            )
        } else {
            false
        }
    }

    /// The slot of the chunk at chunk position `c`, if it is materialised.
    pub closed spec fn slot_at(&self, c: (int, int)) -> Option<usize> {
        link_of(self.slots@, c)
    }

    /// The number of chunks in the arena.
    pub closed spec fn chunk_count(&self) -> nat {
        self.chunks@.len()
    }

    /// The link in direction slot `d` of the chunk in slot `i`.
    pub closed spec fn link(&self, i: int, d: int) -> Option<usize> {
        self.chunks@[i].link(d)
    }

    /// `buf` is what a read of the window `win` gives: one entry per cell of
    /// the window, row by row, each holding the state of that cell.
    pub open spec fn reads_window(&self, win: Vec4<i64>, buf: Seq<bool>) -> bool {
        &&& buf.len() == win.width() * win.height()
        &&& forall|dx: int, dy: int|
            0 <= dx < win.width() && 0 <= dy < win.height() ==> #[trigger] buf[win_index(
                win.width(),
                dx,
                dy,
            )] == self.cell(win.x1 + dx, win.y1 + dy)
    }

    /// `next` has the cells of `self`, but for the cell `(x, y)`, which holds
    /// `state`.
    pub open spec fn with_cell(&self, next: &World, x: int, y: int, state: bool) -> bool {
        forall|px: int, py: int| #[trigger]
            next.cell(px, py) == if px == x && py == y {
                state
            } else {
                self.cell(px, py)
            }
    }

    /// Every cell of `next` has the state it has in `self`.
    pub open spec fn same_cells(&self, next: &World) -> bool {
        forall|px: int, py: int| #[trigger] next.cell(px, py) == self.cell(px, py)
    }

    /// A grid of one chunk, the root, with every cell dead.
    pub fn new() -> (r: World)
        ensures
            r.wf(),
            r.bounds() == (Vec4::<i64> { x1: 0, y1: 0, x2: CHUNK_SIZE, y2: CHUNK_SIZE }),
            forall|x: int, y: int| !#[trigger] r.cell(x, y),
            r.chunk_count() == 1,
            forall|c: (int, int)| #[trigger]
                r.slot_at(c) == if c == (0int, 0int) {
                    Some(ROOT)
                } else {
                    None
                },
            forall|d: int| 0 <= d < 8 ==> #[trigger] r.link(ROOT as int, d) == None::<usize>,
    {
        let mut chunks: Vec<CellChunk> = Vec::new();
        chunks.push(CellChunk::new());
        let ghost coords = seq![(0int, 0int)];
        let ghost slots = map![(0int, 0int) => ROOT];
        let w = World {
            size: Vec4 { x1: 0, y1: 0, x2: CHUNK_SIZE, y2: CHUNK_SIZE },
            chunks,
            coords: Ghost(coords),
            slots: Ghost(slots),
        };
        proof {
            assert((w.size.x2 - w.size.x1) / CHUNK_SIZE as int == 1);
            assert((w.size.y2 - w.size.y1) / CHUNK_SIZE as int == 1);
            assert(chunk_area(w.size) == 1);
            assert forall|i: int, d: int|
                0 <= i < w.chunks@.len() && 0 <= d < 8 implies #[trigger] w.chunks@[i].link(d)
                == link_of(w.slots@, step(w.coords@[i], d)) by {
                lemma_dir_cancel(d, opposite(d));
            }
            assert forall|c: (int, int)| #[trigger]
                w.slots@.contains_key(c) <==> #[trigger] in_chunks(w.size, c) by {}
            assert forall|x: int, y: int| !#[trigger] w.cell(x, y) by {
                if w.size.contains(x, y) {
                    assert(w.chunks@[0].cells.0@[(x % CHUNK_SIZE as int) + (y % CHUNK_SIZE as int) * CHUNK_SIZE]
                        == false);
                }
            }
        }
        w
    }

    /// The slot of the chunk at chunk position `(x, y)`, found by following links
    /// from the root: diagonal steps first, then straight ones. `None` when no
    /// chunk is materialised there; nothing is created.
    pub fn get_chunk(&self, x: i64, y: i64) -> (r: Option<usize>)
        requires
            self.wf(),
        ensures
            r == self.slot_at((x as int, y as int)),
            r is Some <==> in_chunks(self.bounds(), (x as int, y as int)),
            x == 0 && y == 0 ==> r == Some(ROOT),
    {
        let mut px: i64 = 0;
        let mut py: i64 = 0;
        let mut cur: usize = ROOT;
        assert(in_chunks(self.size, (0, 0)));
        while px != x || py != y
            invariant
                self.wf(),
                between(0, px as int, x as int),
                between(0, py as int, y as int),
                self.slots@.contains_key((px as int, py as int)),
                cur == self.slots@[(px as int, py as int)],
            decreases (if x >= px { x - px } else { px - x }) + (if y >= py { y - py } else { py - y }),
        {
            let sx: i64 = if px < x { 1 } else if px > x { -1 } else { 0 };
            let sy: i64 = if py < y { 1 } else if py > y { -1 } else { 0 };
            proof {
                lemma_index_dir(sx as int, sy as int);
                assert(self.coords@[cur as int] == (px as int, py as int));
            }
            match self.chunks[cur].chunk_to(sx, sy) {
                Some(next) => {
                    cur = next;
                    px = px + sx;
                    py = py + sy;
                },
                None => {
                    proof {
                        assert(!in_chunks(self.size, (px + sx, py + sy)));
                        assert(!in_chunks(self.size, (x as int, y as int)));
                    }
                    return None;
                },
            }
        }
        Some(cur)
    }

    /// Puts a blank chunk at the unmaterialised position `c`, whose links are
    /// `nbrs`, and links each of those neighbours back to it.
    fn add_chunk(&mut self, Ghost(c): Ghost<(int, int)>, nbrs: Vec<Option<usize>>) -> (r: usize)
        requires
            mesh(old(self).chunks@, old(self).coords@, old(self).slots@),
            !old(self).slots@.contains_key(c),
            nbrs@.len() == 8,
            forall|d: int| 0 <= d < 8 ==> #[trigger] nbrs@[d] == link_of(old(self).slots@, step(c, d)),
        ensures
            mesh(final(self).chunks@, final(self).coords@, final(self).slots@),
            r == old(self).chunks@.len(),
            final(self).chunks@.len() == r + 1,
            final(self).coords@ == old(self).coords@.push(c),
            final(self).slots@ == old(self).slots@.insert(c, r),
            final(self).size == old(self).size,
            forall|i: int| 0 <= i < r ==> (#[trigger] final(self).chunks@[i]).cells == old(self).chunks@[i].cells,
            final(self).chunks@[r as int].is_blank(),
    {
        let n = self.chunks.len();
        let ghost nb = nbrs@;
        self.chunks.push(CellChunk { border: nbrs, cells: Cells::new() });
        let ghost old_slots = self.slots@;
        self.coords = Ghost(self.coords@.push(c));
        self.slots = Ghost(self.slots@.insert(c, n));
        let mut d: usize = 0;
        while d < 8
            invariant
                0 <= d <= 8,
                n == old(self).chunks@.len(),
                self.chunks@.len() == n + 1,
                self.coords@ == old(self).coords@.push(c),
                self.slots@ == old_slots.insert(c, n),
                old_slots == old(self).slots@,
                mesh(old(self).chunks@, old(self).coords@, old_slots),
                !old_slots.contains_key(c),
                self.size == old(self).size,
                self.chunks@[n as int].border@ == nb,
                self.chunks@[n as int].cells.wf(),
                self.chunks@[n as int].is_blank(),
                nb.len() == 8,
                forall|dd: int| 0 <= dd < 8 ==> #[trigger] nb[dd] == link_of(old_slots, step(c, dd)),
                forall|i: int| 0 <= i < n ==> (#[trigger] self.chunks@[i]).cells == old(self).chunks@[i].cells,
                forall|i: int| 0 <= i < n ==> (#[trigger] self.chunks@[i]).wf(),
                forall|i: int, e: int|
                    0 <= i < n && 0 <= e < 8 ==> #[trigger] self.chunks@[i].link(e) == (if step(
                        self.coords@[i],
                        e,
                    ) == c && opposite(e) >= d {
                        None
                    } else {
                        link_of(self.slots@, step(self.coords@[i], e))
                    }),
            decreases 8 - d,
        {
            let ghost before = self.chunks@;
            match self.chunks[n].border[d] {
                Some(j) => {
                    let back: usize = (d + 4) % 8;
                    proof {
                        lemma_dir_cancel(d as int, back as int);
                        assert(self.coords@[j as int] == step(c, d as int));
                    }
                    self.chunks[j].border[back] = Some(n);
                    proof {
                        assert forall|i: int, e: int|
                            0 <= i < n && 0 <= e < 8 implies #[trigger] self.chunks@[i].link(e) == (
                            if step(self.coords@[i], e) == c && opposite(e) >= d + 1 {
                                None
                            } else {
                                link_of(self.slots@, step(self.coords@[i], e))
                            }) by {
                            lemma_dir_round_trip(e);
                            lemma_dir_round_trip(d as int);
                            if i == j && e == back {
                                assert(step(self.coords@[i], e) == c);
                            } else {
                                assert(self.chunks@[i].link(e) == before[i].link(e));
                                if step(self.coords@[i], e) == c && opposite(e) == d {
                                    assert(self.coords@[i] == step(c, d as int));
                                    assert(i == j);
                                }
                            }
                        }
                    }
                },
                None => {
                    proof {
                        assert forall|i: int, e: int|
                            0 <= i < n && 0 <= e < 8 implies #[trigger] self.chunks@[i].link(e) == (
                            if step(self.coords@[i], e) == c && opposite(e) >= d + 1 {
                                None
                            } else {
                                link_of(self.slots@, step(self.coords@[i], e))
                            }) by {
                            lemma_dir_round_trip(e);
                            if step(self.coords@[i], e) == c && opposite(e) == d {
                                assert(self.coords@[i] == step(c, d as int));
                                assert(old_slots.contains_key(self.coords@[i]));
                            }
                        }
                    }
                },
            }
            d = d + 1;
        }
        n
    }

    /// Adds one column (for `ox != 0`) or one row (for `oy != 0`) of blank
    /// chunks beyond the side of the bounds that `(ox, oy)` points to, walking
    /// along the boundary and linking each new chunk to every materialised
    /// neighbour.
    fn grow(&mut self, ox: i64, oy: i64)
        requires
            old(self).wf(),
            (ox == 0) != (oy == 0),
            -1 <= ox <= 1,
            -1 <= oy <= 1,
            ox > 0 ==> old(self).size.x2 + CHUNK_SIZE <= i64::MAX,
            ox < 0 ==> old(self).size.x1 - CHUNK_SIZE >= i64::MIN,
            oy > 0 ==> old(self).size.y2 + CHUNK_SIZE <= i64::MAX,
            oy < 0 ==> old(self).size.y1 - CHUNK_SIZE >= i64::MIN,
        ensures
            final(self).wf(),
            final(self).size == extend_side(old(self).size, ox as int, oy as int),
            forall|x: int, y: int| #[trigger] final(self).cell(x, y) == old(self).cell(x, y),
            forall|c: (int, int)| #[trigger]
                old(self).slot_at(c) is Some ==> final(self).slot_at(c) == old(self).slot_at(c),
    {
        let cx1 = floor_div(self.size.x1, CHUNK_SIZE);
        let cy1 = floor_div(self.size.y1, CHUNK_SIZE);
        let cx2 = floor_div(self.size.x2, CHUNK_SIZE);
        let cy2 = floor_div(self.size.y2, CHUNK_SIZE);
        let bx: i64 = if ox == 1 { cx2 - 1 } else { cx1 };
        let by: i64 = if oy == 1 { cy2 - 1 } else { cy1 };
        let wx: i64 = if ox == 0 { 1 } else { 0 };
        let wy: i64 = if ox == 0 { 0 } else { 1 };
        let k: i64 = if ox == 0 { cx2 - cx1 } else { cy2 - cy1 };
        let ghost n0 = self.chunks@.len();
        let first = self.get_chunk(bx, by);
        let mut border: usize = first.unwrap();
        let mut border_last: usize = border;
        let mut new_last: usize = border;
        let mut ex: i64 = bx;
        let mut ey: i64 = by;
        let mut j: i64 = 0;
        while j < k
            invariant
                old(self).wf(),
                mesh(self.chunks@, self.coords@, self.slots@),
                self.size == old(self).size,
                cx1 * CHUNK_SIZE == self.size.x1,
                cx2 * CHUNK_SIZE == self.size.x2,
                cy1 * CHUNK_SIZE == self.size.y1,
                cy2 * CHUNK_SIZE == self.size.y2,
                bx == (if ox == 1 { cx2 - 1 } else { cx1 as int }),
                by == (if oy == 1 { cy2 - 1 } else { cy1 as int }),
                wx == (if ox == 0 { 1int } else { 0 }),
                wy == (if ox == 0 { 0int } else { 1 }),
                k == (if ox == 0 { cx2 - cx1 } else { cy2 - cy1 }),
                (ox == 0) != (oy == 0),
                -1 <= ox <= 1,
                -1 <= oy <= 1,
                0 <= j <= k,
                ex == bx + j * wx,
                ey == by + j * wy,
                n0 == old(self).chunks@.len(),
                self.chunks@.len() == n0 + j,
                forall|c: (int, int)| #[trigger]
                    self.slots@.contains_key(c) <==> (in_chunks(self.size, c) || on_edge(
                        c,
                        bx as int,
                        by as int,
                        ox as int,
                        oy as int,
                        j as int,
                    )),
                forall|c: (int, int)| #[trigger]
                    old(self).slots@.contains_key(c) ==> self.slots@[c] == old(self).slots@[c],
                forall|i: int| 0 <= i < n0 ==> #[trigger] self.coords@[i] == old(self).coords@[i],
                forall|i: int|
                    0 <= i < n0 ==> (#[trigger] self.chunks@[i]).cells == old(self).chunks@[i].cells,
                forall|i: int| n0 <= i < n0 + j ==> (#[trigger] self.chunks@[i]).is_blank(),
                j < k ==> border == self.slots@[(ex as int, ey as int)],
                j > 0 ==> border_last == self.slots@[(ex - wx, ey - wy)],
                j > 0 ==> new_last == self.slots@[(ex - wx + ox, ey - wy + oy)],
            decreases k - j,
        {
            let ghost c = (ex + ox, ey + oy);
            assert(in_chunks(self.size, (ex as int, ey as int)));
            assert(self.slots@.contains_key((ex as int, ey as int)));
            assert(!in_chunks(self.size, c));
            assert(!self.slots@.contains_key(c));
            if j > 0 {
                assert(in_chunks(self.size, (ex - wx, ey - wy)));
                assert(self.slots@.contains_key((ex - wx, ey - wy)));
                assert(on_edge((ex - wx + ox, ey - wy + oy), bx as int, by as int, ox as int, oy as int, j as int));
                assert(self.slots@.contains_key((ex - wx + ox, ey - wy + oy)));
            }
            let mut nbrs = CellChunk::empty_chunks();
            nbrs.set(dir_slot(-ox, -oy), Some(border));
            if j > 0 {
                nbrs.set(dir_slot(-wx, -wy), Some(new_last));
                nbrs.set(dir_slot(-ox - wx, -oy - wy), Some(border_last));
            }
            let mut next: usize = border;
            if j + 1 < k {
                proof {
                    lemma_index_dir(wx as int, wy as int);
                    assert(in_chunks(self.size, (ex + wx, ey + wy)));
                    assert(self.slots@.contains_key((ex + wx, ey + wy)));
                    assert(self.coords@[border as int] == (ex as int, ey as int));
                }
                next = self.chunks[border].chunk_to(wx, wy).unwrap();
                assert(next == self.slots@[(ex + wx, ey + wy)]);
                nbrs.set(dir_slot(-ox + wx, -oy + wy), Some(next));
            }
            proof {
                assert forall|d: int| 0 <= d < 8 implies #[trigger] nbrs@[d] == link_of(
                    self.slots@,
                    step(c, d),
                ) by {
                    lemma_dir_round_trip(d);
                    let q = step(c, d);
                    if self.slots@.contains_key(q) {
                        assert(in_chunks(self.size, q) || on_edge(q, bx as int, by as int, ox as int, oy as int, j as int));
                    }
                    if ox == 1 {
                    } else if ox == -1 {
                    } else if oy == 1 {
                    } else {
                    }
                }
            }
            let ghost slots_before = self.slots@;
            let created = self.add_chunk(Ghost(c), nbrs);
            proof {
                assert forall|c2: (int, int)| #[trigger]
                    old(self).slots@.contains_key(c2) implies self.slots@[c2] == old(self).slots@[c2] by {
                    assert(in_chunks(old(self).size, c2));
                    assert(slots_before.contains_key(c2));
                }
            }
            border_last = border;
            new_last = created;
            border = next;
            ex = ex + wx;
            ey = ey + wy;
            j = j + 1;
        }
        if ox == 1 {
            self.size.x2 = self.size.x2 + CHUNK_SIZE;
        } else if ox == -1 {
            self.size.x1 = self.size.x1 - CHUNK_SIZE;
        } else if oy == 1 {
            self.size.y2 = self.size.y2 + CHUNK_SIZE;
        } else {
            self.size.y1 = self.size.y1 - CHUNK_SIZE;
        }
        proof {
            assert forall|c: (int, int)| #[trigger]
                self.slots@.contains_key(c) <==> #[trigger] in_chunks(self.size, c) by {
                if self.slots@.contains_key(c) {
                    assert(in_chunks(old(self).size, c) || on_edge(
                        c,
                        bx as int,
                        by as int,
                        ox as int,
                        oy as int,
                        k as int,
                    ));
                }
                if in_chunks(self.size, c) && !in_chunks(old(self).size, c) {
                    assert(on_edge(c, bx as int, by as int, ox as int, oy as int, k as int));
                }
            }
            assert(in_chunks(old(self).size, (0, 0)));
            assert(old(self).slots@.contains_key((0, 0)));
            let cols = cx2 - cx1;
            let rows = cy2 - cy1;
            let (a1, a2, b1, b2) = (cx1 as int, cx2 as int, cy1 as int, cy2 as int);
            assert(chunk_area(old(self).size) == cols * rows) by {
                assert((a2 * 8 - a1 * 8) / 8 == a2 - a1) by (nonlinear_arith);
                assert((b2 * 8 - b1 * 8) / 8 == b2 - b1) by (nonlinear_arith);
            }
            if ox != 0 {
                assert(chunk_area(self.size) == (cols + 1) * rows) by {
                    assert((a2 * 8 + 8 - a1 * 8) / 8 == a2 - a1 + 1) by (nonlinear_arith);
                    assert((a2 * 8 - a1 * 8 + 8) / 8 == a2 - a1 + 1) by (nonlinear_arith);
                    assert((b2 * 8 - b1 * 8) / 8 == b2 - b1) by (nonlinear_arith);
                }
                assert((cols + 1) * rows == cols * rows + rows) by (nonlinear_arith);
            } else {
                assert(chunk_area(self.size) == cols * (rows + 1)) by {
                    assert((a2 * 8 - a1 * 8) / 8 == a2 - a1) by (nonlinear_arith);
                    assert((b2 * 8 + 8 - b1 * 8) / 8 == b2 - b1 + 1) by (nonlinear_arith);
                    assert((b2 * 8 - b1 * 8 + 8) / 8 == b2 - b1 + 1) by (nonlinear_arith);
                }
                assert(cols * (rows + 1) == cols * rows + cols) by (nonlinear_arith);
            }
            assert forall|x: int, y: int| #[trigger] self.cell(x, y) == old(self).cell(x, y) by {
                lemma_cell_in_chunk(old(self).size, x, y);
                lemma_cell_in_chunk(self.size, x, y);
                let p = (x / CHUNK_SIZE as int, y / CHUNK_SIZE as int);
                if old(self).size.contains(x, y) {
                    assert(old(self).slots@.contains_key(p));
                    assert(self.slots@[p] == old(self).slots@[p]);
                    assert(self.slots@[p] < n0);
                } else if self.size.contains(x, y) {
                    assert(self.slots@.contains_key(p));
                    let i = self.slots@[p] as int;
                    if i < n0 {
                        assert(self.coords@[i] == p);
                        assert(old(self).slots@.contains_key(old(self).coords@[i]));
                        assert(false);
                    }
                    assert(self.chunks@[i].is_blank());
                    assert(!self.chunks@[i].cells.0@[(x % CHUNK_SIZE as int) + (y % CHUNK_SIZE as int) * CHUNK_SIZE]);
                }
            }
        }
    }

    /// Grows the mesh by `|x|` whole chunk widths on the side that the sign of
    /// `x` points to, one column at a time, then by `|y|` on the side of `y`,
    /// one row at a time. Fails, changing nothing, when the grown bounds would
    /// not fit in `i64`. No cell changes state.
    pub fn resize(&mut self, x: i64, y: i64) -> (r: Result<(), GridError>)
        requires
            old(self).wf(),
        ensures
            final(self).wf(),
            r is Ok <==> edges_fit(resized(old(self).bounds(), x as int, y as int)),
            r is Ok ==> final(self).bounds() == edges_rect(
                resized(old(self).bounds(), x as int, y as int),
            ),
            r is Err ==> r == Err::<(), GridError>(GridError::CoordinateOutOfRange) && *final(self)
                == *old(self),
            final(self).bounds().encloses(old(self).bounds()),
            old(self).same_cells(final(self)),
            forall|c: (int, int)| #[trigger]
                old(self).slot_at(c) is Some ==> final(self).slot_at(c) == old(self).slot_at(c),
    {
        let n: i128 = CHUNK_SIZE as i128;
        let x1: i128 = self.size.x1 as i128 + (if x < 0 { x as i128 } else { 0 }) * n;
        let y1: i128 = self.size.y1 as i128 + (if y < 0 { y as i128 } else { 0 }) * n;
        let x2: i128 = self.size.x2 as i128 + (if x > 0 { x as i128 } else { 0 }) * n;
        let y2: i128 = self.size.y2 as i128 + (if y > 0 { y as i128 } else { 0 }) * n;
        if x1 < i64::MIN as i128 || y1 < i64::MIN as i128 || x2 > i64::MAX as i128 || y2
            > i64::MAX as i128 {
            return Err(GridError::CoordinateOutOfRange);
        }
        let sx: i64 = if x < 0 { -1 } else { 1 };
        let ax: i64 = if x < 0 { -x } else { x };
        let mut i: i64 = 0;
        while i < ax
            invariant
                self.wf(),
                0 <= i <= ax,
                ax == (if x < 0 { -x } else { x as int }),
                sx == (if x < 0 { -1int } else { 1 }),
                x1 == self.size.x1 + (if x < 0 { x + i } else { 0 }) * CHUNK_SIZE,
                x2 == self.size.x2 + (if x > 0 { x - i } else { 0 }) * CHUNK_SIZE,
                self.size.y1 == old(self).size.y1,
                self.size.y2 == old(self).size.y2,
                x1 >= i64::MIN,
                x2 <= i64::MAX,
                forall|c: (int, int)| #[trigger]
                    old(self).slot_at(c) is Some ==> self.slot_at(c) == old(self).slot_at(c),
                forall|px: int, py: int| #[trigger] self.cell(px, py) == old(self).cell(px, py),
            decreases ax - i,
        {
            self.grow(sx, 0);
            i = i + 1;
        }
        let sy: i64 = if y < 0 { -1 } else { 1 };
        let ay: i64 = if y < 0 { -y } else { y };
        let mut i: i64 = 0;
        while i < ay
            invariant
                self.wf(),
                0 <= i <= ay,
                ay == (if y < 0 { -y } else { y as int }),
                sy == (if y < 0 { -1int } else { 1 }),
                y1 == self.size.y1 + (if y < 0 { y + i } else { 0 }) * CHUNK_SIZE,
                y2 == self.size.y2 + (if y > 0 { y - i } else { 0 }) * CHUNK_SIZE,
                self.size.x1 == x1,
                self.size.x2 == x2,
                y1 >= i64::MIN,
                y2 <= i64::MAX,
                forall|c: (int, int)| #[trigger]
                    old(self).slot_at(c) is Some ==> self.slot_at(c) == old(self).slot_at(c),
                forall|px: int, py: int| #[trigger] self.cell(px, py) == old(self).cell(px, py),
            decreases ay - i,
        {
            self.grow(0, sy);
            i = i + 1;
        }
        Ok(())
    }

    /// Sets the cell `(x, y)` to `state`, first growing the mesh by the fewest
    /// whole chunk widths that bring the cell inside the bounds. Fails, changing
    /// nothing, when those bounds would not fit in `i64`.
    #[verifier::rlimit(20)]
    pub fn set_cell(&mut self, x: i64, y: i64, state: bool) -> (r: Result<(), GridError>)
        requires
            old(self).wf(),
        ensures
            final(self).wf(),
            r is Ok <==> edges_fit(covering(old(self).bounds(), x as int, y as int)),
            r is Ok ==> final(self).bounds() == edges_rect(
                covering(old(self).bounds(), x as int, y as int),
            ),
            r is Ok ==> old(self).with_cell(final(self), x as int, y as int, state),
            r is Err ==> r == Err::<(), GridError>(GridError::CoordinateOutOfRange) && *final(self)
                == *old(self),
            final(self).bounds().encloses(old(self).bounds()),
            forall|c: (int, int)| #[trigger]
                old(self).slot_at(c) is Some ==> final(self).slot_at(c) == old(self).slot_at(c),
    {
        let mut ex: i64 = 0;
        let mut ey: i64 = 0;
        if x >= self.size.x2 {
            ex = floor_div(x - self.size.x2, CHUNK_SIZE) + 1;
        } else if x < self.size.x1 {
            ex = floor_div(x - self.size.x1, CHUNK_SIZE);
        }
        if y >= self.size.y2 {
            ey = floor_div(y - self.size.y2, CHUNK_SIZE) + 1;
        } else if y < self.size.y1 {
            ey = floor_div(y - self.size.y1, CHUNK_SIZE);
        }
        proof {
            assert(resized(self.size, ex as int, ey as int) == covering(
                self.size,
                x as int,
                y as int,
            ));
        }
        match self.resize(ex, ey) {
            Err(e) => {
                return Err(e);
            },
            Ok(()) => {},
        }
        let ghost mid = self.chunks@;
        let ghost midw = *self;
        assert(forall|px: int, py: int| #[trigger] self.cell(px, py) == old(self).cell(px, py));
        let cx = floor_div(x, CHUNK_SIZE);
        let cy = floor_div(y, CHUNK_SIZE);
        proof {
            lemma_cell_in_chunk(self.size, x as int, y as int);
        }
        let slot = self.get_chunk(cx, cy).unwrap();
        let lx = x - cx * CHUNK_SIZE;
        let ly = y - cy * CHUNK_SIZE;
        self.chunks[slot].cells.set(lx, ly, state);
        proof {
            assert(self.chunks@.len() == mid.len());
            assert(self.size == midw.size);
            assert(mesh(mid, self.coords@, self.slots@));
            assert forall|i: int| 0 <= i < self.chunks@.len() implies (#[trigger] self.chunks@[i]).border
                == mid[i].border && self.chunks@[i].wf() && (i != slot ==> self.chunks@[i] == mid[i]) by {
                assert(mid[i].wf());
            }
            assert forall|i: int, d: int|
                0 <= i < self.chunks@.len() && 0 <= d < 8 implies #[trigger] self.chunks@[i].link(d)
                == link_of(self.slots@, step(self.coords@[i], d)) by {
                assert(mid[i].link(d) == link_of(self.slots@, step(self.coords@[i], d)));
                assert(self.chunks@[i].border == mid[i].border);
            }
            assert(mesh(self.chunks@, self.coords@, self.slots@));
            assert forall|px: int, py: int| #[trigger]
                self.cell(px, py) == if px == x && py == y {
                    state
                } else {
                    old(self).cell(px, py)
                } by {
                lemma_cell_in_chunk(self.size, px, py);
                assert(midw.cell(px, py) == old(self).cell(px, py));
                if self.size.contains(px, py) {
                    let p = (px / CHUNK_SIZE as int, py / CHUNK_SIZE as int);
                    assert(self.slots@.contains_key(p));
                    let k = (px % CHUNK_SIZE as int) + (py % CHUNK_SIZE as int) * CHUNK_SIZE;
                    if self.slots@[p] == slot {
                        assert(self.coords@[slot as int] == p);
                        assert(p == (cx as int, cy as int));
                        if px == x && py == y {
                            assert(k == lx + ly * CHUNK_SIZE);
                        } else {
                            assert(k != lx + ly * CHUNK_SIZE);
                        }
                    } else {
                        assert(self.chunks@[self.slots@[p] as int] == mid[self.slots@[p] as int]);
                    }
                }
            }
        }
        Ok(())
    }

    /// Copies each cell of `needed`, a part of the window `win` that lies in
    /// the chunk in slot `slot`, whose cells are `chunk_rect`, to its entry of
    /// `data`, the row-major buffer of the window.
    fn copy_chunk(
        &self,
        data: &mut Vec<bool>,
        win: Vec4<i64>,
        w: i128,
        slot: usize,
        chunk_rect: Vec4<i64>,
        needed: Vec4<i64>,
    )
        requires
            self.wf(),
            win.wf(),
            w == win.width(),
            old(data)@.len() == w * win.height(),
            w * win.height() <= usize::MAX,
            needed.wf(),
            win.encloses(needed),
            self.size.encloses(needed),
            chunk_rect.encloses(needed),
            chunk_rect.x1 % CHUNK_SIZE == 0,
            chunk_rect.y1 % CHUNK_SIZE == 0,
            chunk_rect.x2 == chunk_rect.x1 + CHUNK_SIZE,
            chunk_rect.y2 == chunk_rect.y1 + CHUNK_SIZE,
            self.slot_at((chunk_of(chunk_rect.x1 as int), chunk_of(chunk_rect.y1 as int))) == Some(
                slot,
            ),
        ensures
            final(data)@.len() == old(data)@.len(),
            forall|dx: int, dy: int|
                0 <= dx < w && 0 <= dy < win.height() ==> #[trigger] final(data)@[win_index(
                    w as int,
                    dx,
                    dy,
                )] == if needed.contains(win.x1 + dx, win.y1 + dy) {
                    self.cell(win.x1 + dx, win.y1 + dy)
                } else {
                    old(data)@[win_index(w as int, dx, dy)]
                },
    {
        let ghost h = win.height();
        let local = needed.local_to(&chunk_rect);
        let mut ly = local.y1;
        while ly < local.y2
            invariant
                self.wf(),
                win.wf(),
                w == win.width(),
                h == win.height(),
                w * h <= usize::MAX,
                needed.wf(),
                win.encloses(needed),
                self.size.encloses(needed),
                chunk_rect.encloses(needed),
                chunk_rect.x1 % CHUNK_SIZE == 0,
                chunk_rect.y1 % CHUNK_SIZE == 0,
                chunk_rect.x2 == chunk_rect.x1 + CHUNK_SIZE,
                chunk_rect.y2 == chunk_rect.y1 + CHUNK_SIZE,
                self.slot_at((chunk_of(chunk_rect.x1 as int), chunk_of(chunk_rect.y1 as int)))
                    == Some(slot),
                local.x1 == needed.x1 - chunk_rect.x1,
                local.y1 == needed.y1 - chunk_rect.y1,
                local.x2 == needed.x2 - chunk_rect.x1,
                local.y2 == needed.y2 - chunk_rect.y1,
                local.y1 <= ly <= local.y2,
                data@.len() == w * h,
                forall|dx: int, dy: int|
                    0 <= dx < w && 0 <= dy < h ==> #[trigger] data@[win_index(w as int, dx, dy)]
                        == if needed.contains(win.x1 + dx, win.y1 + dy) && win.y1 + dy
                        < chunk_rect.y1 + ly {
                        self.cell(win.x1 + dx, win.y1 + dy)
                    } else {
                        old(data)@[win_index(w as int, dx, dy)]
                    },
            decreases local.y2 - ly,
        {
            let mut lx = local.x1;
            while lx < local.x2
                invariant
                    self.wf(),
                    win.wf(),
                    w == win.width(),
                    h == win.height(),
                    w * h <= usize::MAX,
                    needed.wf(),
                    win.encloses(needed),
                    self.size.encloses(needed),
                    chunk_rect.encloses(needed),
                    chunk_rect.x1 % CHUNK_SIZE == 0,
                    chunk_rect.y1 % CHUNK_SIZE == 0,
                    chunk_rect.x2 == chunk_rect.x1 + CHUNK_SIZE,
                    chunk_rect.y2 == chunk_rect.y1 + CHUNK_SIZE,
                    self.slot_at((chunk_of(chunk_rect.x1 as int), chunk_of(chunk_rect.y1 as int)))
                        == Some(slot),
                    local.x1 == needed.x1 - chunk_rect.x1,
                    local.y1 == needed.y1 - chunk_rect.y1,
                    local.x2 == needed.x2 - chunk_rect.x1,
                    local.y2 == needed.y2 - chunk_rect.y1,
                    local.y1 <= ly < local.y2,
                    local.x1 <= lx <= local.x2,
                    data@.len() == w * h,
                    forall|dx: int, dy: int|
                        0 <= dx < w && 0 <= dy < h ==> #[trigger] data@[win_index(w as int, dx, dy)]
                            == if needed.contains(win.x1 + dx, win.y1 + dy) && (win.y1 + dy
                            < chunk_rect.y1 + ly || (win.y1 + dy == chunk_rect.y1 + ly && win.x1
                            + dx < chunk_rect.x1 + lx)) {
                            self.cell(win.x1 + dx, win.y1 + dy)
                        } else {
                            old(data)@[win_index(w as int, dx, dy)]
                        },
                decreases local.x2 - lx,
            {
                let ghost px = chunk_rect.x1 + lx;
                let ghost py = chunk_rect.y1 + ly;
                let ghost before = data@;
                proof {
                    assert(self.coords@[slot as int] == (
                        chunk_of(chunk_rect.x1 as int),
                        chunk_of(chunk_rect.y1 as int),
                    ));
                    lemma_win_index(w as int, h as int, px - win.x1, py - win.y1, px - win.x1, py - win.y1);
                }
                let v = self.chunks[slot].get_cell(lx, ly);
                let i = (chunk_rect.x1 as i128 + lx as i128 - win.x1 as i128) + (chunk_rect.y1 as i128
                    + ly as i128 - win.y1 as i128) * w;
                data.set(i as usize, v);
                proof {
                    assert(self.cell(px, py) == v);
                    assert forall|dx: int, dy: int|
                        0 <= dx < w && 0 <= dy < h implies #[trigger] data@[win_index(w as int, dx, dy)]
                            == if needed.contains(win.x1 + dx, win.y1 + dy) && (win.y1 + dy
                            < chunk_rect.y1 + ly || (win.y1 + dy == chunk_rect.y1 + ly && win.x1
                            + dx < chunk_rect.x1 + lx + 1)) {
                            self.cell(win.x1 + dx, win.y1 + dy)
                        } else {
                            old(data)@[win_index(w as int, dx, dy)]
                        } by {
                        lemma_win_index(w as int, h as int, dx, dy, px - win.x1, py - win.y1);
                    }
                }
                lx = lx + 1;
            }
            ly = ly + 1;
        }
    }

    /// The cells of the window `win`, row by row: entry `dx + dy * width`
    /// holds the cell `(win.x1 + dx, win.y1 + dy)`. Cells outside the bounds
    /// read dead, and nothing is materialised. Only the chunks that the window
    /// meets are visited.
    pub fn get_world(&self, win: Vec4<i64>) -> (r: Vec<bool>)
        requires
            self.wf(),
            win.wf(),
            win.width() * win.height() <= usize::MAX,
        ensures
            self.reads_window(win, r@),
    {
        let w: i128 = win.x2 as i128 - win.x1 as i128;
        let h: i128 = win.y2 as i128 - win.y1 as i128;
        assert(0 <= w * h <= usize::MAX);
        let mut data = vec![false; (w * h) as usize];
        let contact = match win.intersect(&self.size) {
            Some(c) => c,
            None => {
                proof {
                    assert forall|dx: int, dy: int|
                        0 <= dx < win.width() && 0 <= dy < win.height() implies #[trigger] data@[win_index(
                            win.width(),
                            dx,
                            dy,
                        )] == self.cell(win.x1 + dx, win.y1 + dy) by {
                        lemma_win_index(w as int, h as int, dx, dy, dx, dy);
                    }
                }
                return data;
            },
        };
        let cxs = floor_div(contact.x1, CHUNK_SIZE);
        let cxe = floor_div(contact.x2 - 1, CHUNK_SIZE);
        let cys = floor_div(contact.y1, CHUNK_SIZE);
        let cye = floor_div(contact.y2 - 1, CHUNK_SIZE);
        proof {
            assert forall|dx: int, dy: int|
                0 <= dx < w && 0 <= dy < h implies #[trigger] data@[win_index(w as int, dx, dy)]
                == if copied(contact, win.x1 + dx, win.y1 + dy, cys as int, cxs as int) {
                self.cell(win.x1 + dx, win.y1 + dy)
            } else {
                false
            } by {
                lemma_win_index(w as int, h as int, dx, dy, dx, dy);
                if contact.contains(win.x1 + dx, win.y1 + dy) {
                    lemma_div_is_ordered(contact.y1 as int, win.y1 + dy, CHUNK_SIZE as int);
                    lemma_div_is_ordered(contact.x1 as int, win.x1 + dx, CHUNK_SIZE as int);
                }
            }
        }
        let mut cy = cys;
        while cy <= cye
            invariant
                self.wf(),
                win.wf(),
                w == win.width(),
                h == win.height(),
                w * h <= usize::MAX,
                contact == win.meet(self.size),
                win.overlaps(self.size),
                cxs == contact.x1 as int / CHUNK_SIZE as int,
                cxe == (contact.x2 - 1) as int / CHUNK_SIZE as int,
                cys == contact.y1 as int / CHUNK_SIZE as int,
                cye == (contact.y2 - 1) as int / CHUNK_SIZE as int,
                cys <= cy <= cye + 1,
                data@.len() == w * h,
                forall|dx: int, dy: int|
                    0 <= dx < w && 0 <= dy < h ==> #[trigger] data@[win_index(w as int, dx, dy)]
                        == if copied(contact, win.x1 + dx, win.y1 + dy, cy as int, cxs as int) {
                        self.cell(win.x1 + dx, win.y1 + dy)
                    } else {
                        false
                    },
            decreases cye + 1 - cy,
        {
            let mut cx = cxs;
            while cx <= cxe
                invariant
                    self.wf(),
                    win.wf(),
                    w == win.width(),
                    h == win.height(),
                    w * h <= usize::MAX,
                    contact == win.meet(self.size),
                    win.overlaps(self.size),
                    cxs == contact.x1 as int / CHUNK_SIZE as int,
                    cxe == (contact.x2 - 1) as int / CHUNK_SIZE as int,
                    cys == contact.y1 as int / CHUNK_SIZE as int,
                    cye == (contact.y2 - 1) as int / CHUNK_SIZE as int,
                    cys <= cy <= cye,
                    cxs <= cx <= cxe + 1,
                    data@.len() == w * h,
                    forall|dx: int, dy: int|
                        0 <= dx < w && 0 <= dy < h ==> #[trigger] data@[win_index(w as int, dx, dy)]
                            == if copied(contact, win.x1 + dx, win.y1 + dy, cy as int, cx as int) {
                            self.cell(win.x1 + dx, win.y1 + dy)
                        } else {
                            false
                        },
                decreases cxe + 1 - cx,
            {
                let chunk_rect = Vec4 {
                    x1: cx * CHUNK_SIZE,
                    y1: cy * CHUNK_SIZE,
                    x2: cx * CHUNK_SIZE + CHUNK_SIZE,
                    y2: cy * CHUNK_SIZE + CHUNK_SIZE,
                };
                match contact.intersect(&chunk_rect) {
                    Some(needed) => {
                        let slot = self.get_chunk(cx, cy).unwrap();
                        self.copy_chunk(&mut data, win, w, slot, chunk_rect, needed);
                    },
                    None => {},
                }
                cx = cx + 1;
            }
            cy = cy + 1;
        }
        data
    }

    /// The materialised rectangle, in cells.
    pub fn size(&self) -> (r: Vec4<i64>)
        ensures
            r == self.bounds(),
    {
        self.size
    }

    /// The step of the automaton. No update rule is defined yet, so the grid is
    /// left as it is.
    pub fn life_step(&mut self)
        ensures
            *final(self) == *old(self),
    {
    }
}

/// In every grid, chunks at neighbouring chunk positions are linked to each
/// other both ways: the link of the one towards the other names the other,
/// and the reverse link names the one.
pub proof fn lemma_links_symmetric(w: &World, c: (int, int), d: int)
    requires
        w.wf(),
        0 <= d < 8,
        w.slot_at(c) is Some,
        w.slot_at(step(c, d)) is Some,
    ensures
        w.link(w.slot_at(c)->0 as int, d) == w.slot_at(step(c, d)),
        w.link(w.slot_at(step(c, d))->0 as int, opposite(d)) == w.slot_at(c),
{
    lemma_dir_round_trip(d);
    let i = w.slots@[c] as int;
    let j = w.slots@[step(c, d)] as int;
    assert(w.coords@[i] == c);
    assert(w.coords@[j] == step(c, d));
    assert(step(step(c, d), opposite(d)) == c);
}

/// The shape of every grid: its bounds are ordered and chunk-aligned and hold
/// the root chunk; a chunk is materialised exactly at each chunk position inside
/// them, each in a slot of its own, so that there are as many chunks as
/// positions; each link of a chunk names the chunk one step away in that
/// direction, or nothing where none stands; every cell outside the bounds is
/// dead.
pub proof fn lemma_grid_shape(w: &World)
    requires
        w.wf(),
    ensures
        w.bounds().wf(),
        aligned(w.bounds()),
        in_chunks(w.bounds(), (0, 0)),
        w.slot_at((0, 0)) == Some(ROOT),
        w.chunk_count() == chunk_area(w.bounds()),
        forall|c: (int, int)| #[trigger] w.slot_at(c) is Some <==> in_chunks(w.bounds(), c),
        forall|c: (int, int)| #[trigger]
            w.slot_at(c) is Some ==> (w.slot_at(c)->0 as int) < w.chunk_count(),
        forall|c: (int, int), e: (int, int)|
            #[trigger] w.slot_at(c) is Some && w.slot_at(c) == #[trigger] w.slot_at(e) ==> c == e,
        forall|c: (int, int), d: int|
            w.slot_at(c) is Some && 0 <= d < 8 ==> #[trigger] w.link(w.slot_at(c)->0 as int, d)
                == w.slot_at(step(c, d)),
        forall|x: int, y: int| !w.bounds().contains(x, y) ==> !#[trigger] w.cell(x, y),
{
    assert(in_chunks(w.size, (0, 0)));
    assert forall|c: (int, int), e: (int, int)|
        #[trigger] w.slot_at(c) is Some && w.slot_at(c) == #[trigger] w.slot_at(e) implies c == e by {
        assert(w.coords@[w.slots@[c] as int] == c);
        assert(w.coords@[w.slots@[e] as int] == e);
    }
    assert forall|c: (int, int), d: int|
        w.slot_at(c) is Some && 0 <= d < 8 implies #[trigger] w.link(w.slot_at(c)->0 as int, d)
            == w.slot_at(step(c, d)) by {
        assert(w.coords@[w.slots@[c] as int] == c);
    }
}

/// In every grid the root chunk stands at chunk position `(0, 0)`, so that
/// locating that position finds the root.
pub proof fn lemma_root_fixed(w: &World)
    requires
        w.wf(),
    ensures
        w.slot_at((0, 0)) == Some(ROOT),
{
    assert(in_chunks(w.size, (0, 0)));
}

/// One call on a grid that took `a` to `b`: `Some((x, y, state))` for a
/// `set_cell(x, y, state)` that succeeded, `None` for a `resize` or for a call
/// that failed.
pub open spec fn call_step(a: World, b: World, call: Option<(int, int, bool)>) -> bool {
    match call {
        Some(t) => a.with_cell(&b, t.0, t.1, t.2),
        None => a.same_cells(&b),
    }
}

/// `ws` are the grids that the calls `calls` pass through, in order.
pub open spec fn is_run(ws: Seq<World>, calls: Seq<Option<(int, int, bool)>>) -> bool {
    &&& ws.len() == calls.len() + 1
    &&& forall|i: int| 0 <= i < calls.len() ==> call_step(ws[i], ws[i + 1], #[trigger] calls[i])
}

/// The call writes the cell `(x, y)`.
pub open spec fn writes_at(call: Option<(int, int, bool)>, x: int, y: int) -> bool {
    match call {
        Some(t) => t.0 == x && t.1 == y,
        None => false,
    }
}

/// Along a run, a cell that no call between `from` and `to` writes keeps its
/// state.
pub proof fn lemma_run_keeps_cell(
    ws: Seq<World>,
    calls: Seq<Option<(int, int, bool)>>,
    from: int,
    to: int,
    x: int,
    y: int,
)
    requires
        is_run(ws, calls),
        0 <= from <= to <= calls.len(),
        forall|i: int| from <= i < to ==> !writes_at(#[trigger] calls[i], x, y),
    ensures
        ws[to].cell(x, y) == ws[from].cell(x, y),
    decreases to - from,
{
    if from < to {
        lemma_run_keeps_cell(ws, calls, from, to - 1, x, y);
        assert(call_step(ws[to - 1], ws[to], calls[to - 1]));
        assert(!writes_at(calls[to - 1], x, y));
    }
}

/// A cell that no call of a run from a grid with every cell dead has written
/// reads dead in every window of the last grid that covers it.
pub proof fn lemma_run_untouched_reads_dead(
    ws: Seq<World>,
    calls: Seq<Option<(int, int, bool)>>,
    win: Vec4<i64>,
    buf: Seq<bool>,
    x: int,
    y: int,
)
    requires
        is_run(ws, calls),
        forall|px: int, py: int| !#[trigger] ws[0].cell(px, py),
        forall|i: int| 0 <= i < calls.len() ==> !writes_at(#[trigger] calls[i], x, y),
        ws.last().reads_window(win, buf),
        win.contains(x, y),
    ensures
        !buf[win_index(win.width(), x - win.x1, y - win.y1)],
{
    lemma_run_keeps_cell(ws, calls, 0, calls.len() as int, x, y);
    assert(!ws[0].cell(x, y));
}

/// Writing and reading back: after a run in which the last call that writes
/// the cell `(x, y)` is `set_cell(x, y, state)`, every window of the last grid
/// that covers the cell reads `state` at its offset. Writing `true` sets the
/// cell and writing `false` clears it.
pub proof fn lemma_run_last_write_reads(
    ws: Seq<World>,
    calls: Seq<Option<(int, int, bool)>>,
    k: int,
    x: int,
    y: int,
    state: bool,
    win: Vec4<i64>,
    buf: Seq<bool>,
)
    requires
        is_run(ws, calls),
        0 <= k < calls.len(),
        calls[k] == Some((x, y, state)),
        forall|i: int| k < i < calls.len() ==> !writes_at(#[trigger] calls[i], x, y),
        ws.last().reads_window(win, buf),
        win.contains(x, y),
    ensures
        buf[win_index(win.width(), x - win.x1, y - win.y1)] == state,
{
    assert(call_step(ws[k], ws[k + 1], calls[k]));
    assert(ws[k + 1].cell(x, y) == state);
    lemma_run_keeps_cell(ws, calls, k + 1, calls.len() as int, x, y);
}

/// The slot of the unit direction `(x, y)`.
fn dir_slot(x: i64, y: i64) -> (r: usize)
    requires
        is_unit_dir(x as int, y as int),
    ensures
        r == dir_index(x as int, y as int),
        r < 8,
{
    proof {
        lemma_index_dir(x as int, y as int);
    }
    dir2index(x, y).unwrap()
}

} // verus!
