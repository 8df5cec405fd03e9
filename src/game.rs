use crate::behavior::{
    behavior_outcome, lemma_visit_summary, same_kinds, same_matter, settled, stamped, visit_summary,
};
use crate::elements::{Behavior, Cell, GridCell, Rgb};
use crate::random::coin_flip;
use crate::scan::{
    all_inactive, can_progress, lemma_moves_start, lemma_moves_visit, lemma_row_push, lemma_row_start,
    lemma_scan_end, lemma_scan_row, lemma_scan_skip, lemma_scan_start, lemma_scan_visit, lemma_tick_explained,
    lemma_tick_push, lemma_tick_start, lemma_visit_ran, lemma_visit_skipped, moves_build_map, row_trace, scan_state,
    scan_x, tick_explained, tick_trace, trace_end, visit_rel, visited,
};
use crate::spawn::fresh_cell_of;
use vstd::multiset::Multiset;
use vstd::prelude::*;

verus! {

/// Velocity is kept in tenths of a cell per tick.
pub const VELOCITY_SCALE: u32 = 10;

/// Velocity gained by each tick of uninterrupted fall.
pub const GRAVITY_ACCEL: u32 = 2;

/// Velocity is never raised above this.
pub const MAX_VELOCITY: u32 = 50;

/// `a / b` rounded up.
pub open spec fn ceil_div(a: int, b: int) -> int {
    a / b + if a % b == 0 { 0int } else { 1int }
}

/// The abstract state of a simulation.
pub struct GameView {
    pub width: usize,
    pub height: usize,
    pub chunk_size: usize,
    /// Row-major cells, row 0 at the bottom.
    pub cells: Seq<GridCell>,
    /// One flag per chunk, row-major.
    pub active: Seq<bool>,
    pub frame: u64,
    pub rainbow_counter: usize,
}

/// `s` with the entries at `i` and `j` exchanged.
pub open spec fn swapped<A>(s: Seq<A>, i: int, j: int) -> Seq<A> {
    s.update(i, s[j]).update(j, s[i])
}

impl GameView {
    pub open spec fn chunks_x(self) -> int {
        ceil_div(self.width as int, self.chunk_size as int)
    }

    pub open spec fn chunks_y(self) -> int {
        ceil_div(self.height as int, self.chunk_size as int)
    }

    pub open spec fn wf(self) -> bool {
        &&& self.chunk_size > 0
        &&& self.cells.len() == self.width * self.height
        &&& self.width * self.height * 4 <= usize::MAX
        &&& self.active.len() == self.chunks_x() * self.chunks_y()
    }

    pub open spec fn in_grid(self, x: int, y: int) -> bool {
        0 <= x < self.width && 0 <= y < self.height
    }

    pub open spec fn index_of(self, x: int, y: int) -> int {
        y * self.width + x
    }

    pub open spec fn cell(self, x: int, y: int) -> GridCell {
        self.cells[self.index_of(x, y)]
    }

    pub open spec fn kind_at(self, x: int, y: int) -> Cell {
        self.cell(x, y).cell_type
    }

    /// The position is in the grid and holds nothing.
    pub open spec fn is_empty_at(self, x: int, y: int) -> bool {
        self.in_grid(x, y) && self.kind_at(x, y) == Cell::Empty
    }

    pub open spec fn chunk_index_of(self, cx: int, cy: int) -> int {
        cy * self.chunks_x() + cx
    }

    /// The chunk that holds cell `(x, y)`.
    pub open spec fn chunk_of(self, x: int, y: int) -> int {
        self.chunk_index_of(x / self.chunk_size as int, y / self.chunk_size as int)
    }

    pub open spec fn chunk_active(self, cx: int, cy: int) -> bool {
        0 <= cx < self.chunks_x() && 0 <= cy < self.chunks_y() && self.active[self.chunk_index_of(cx, cy)]
    }

    /// The kinds of the cells, in grid order.
    pub open spec fn kinds(self) -> Seq<Cell> {
        self.cells.map_values(|c: GridCell| c.cell_type)
    }

    /// How many cells of each kind the grid holds.
    pub open spec fn kind_counts(self) -> Multiset<Cell> {
        self.kinds().to_multiset()
    }

    /// The cell that fills empty space.
    pub open spec fn empty_cell() -> GridCell {
        GridCell { cell_type: Cell::Empty, color: (0, 0, 0), velocity: 0, last_processed_frame: 0 }
    }

    pub open spec fn has_size(self, width: usize, height: usize, chunk_size: usize) -> bool {
        self.width == width && self.height == height && self.chunk_size == chunk_size
    }

    /// Every cell is empty, every chunk inactive, no tick has run and the
    /// rainbow cycle stands at its start.
    pub open spec fn is_fresh(self) -> bool {
        &&& forall|i: int| 0 <= i < self.cells.len() ==> #[trigger] self.cells[i] == Self::empty_cell()
        &&& forall|i: int| 0 <= i < self.active.len() ==> !#[trigger] self.active[i]
        &&& self.frame == 0
        &&& self.rainbow_counter == 0
    }

    /// Chunk `c` is one of the (up to) nine chunks around the one that holds
    /// cell `(x, y)`.
    pub open spec fn near_chunk(self, c: int, x: int, y: int) -> bool {
        let cs = self.chunk_size as int;
        exists|a: int, b: int|
            #![trigger self.chunk_index_of(a, b)]
            0 <= a < self.chunks_x() && 0 <= b < self.chunks_y() && x / cs - 1 <= a <= x / cs + 1 && y / cs - 1 <= b
                <= y / cs + 1 && c == self.chunk_index_of(a, b)
    }

    /// The frame counter after one more tick.
    pub open spec fn next_frame(self) -> u64 {
        if self.frame == u64::MAX {
            0
        } else {
            (self.frame + 1) as u64
        }
    }

    /// How many cells of each kind and color the grid holds.
    pub open spec fn matter(self) -> Multiset<(Cell, Rgb)> {
        self.cells.map_values(|c: GridCell| (c.cell_type, c.color)).to_multiset()
    }

    /// Everything but the cells is the same in `self` and `o`.
    pub open spec fn same_but_cells(self, o: GameView) -> bool {
        &&& self.width == o.width
        &&& self.height == o.height
        &&& self.chunk_size == o.chunk_size
        &&& self.active == o.active
        &&& self.frame == o.frame
        &&& self.rainbow_counter == o.rainbow_counter
    }
}

/// A simulation: the grid, the chunk activity map, the frame counter and the
/// position of the rainbow cycle.
pub struct SandGame {
    width: usize,
    height: usize,
    chunk_size: usize,
    grid: Vec<GridCell>,
    active_chunks: Vec<bool>,
    frame: u64,
    rainbow_counter: usize,
}

impl View for SandGame {
    type V = GameView;

    closed spec fn view(&self) -> GameView {
        GameView {
            width: self.width,
            height: self.height,
            chunk_size: self.chunk_size,
            cells: self.grid@,
            active: self.active_chunks@,
            frame: self.frame,
            rainbow_counter: self.rainbow_counter,
        }
    }
}

pub proof fn lemma_index_in_grid(w: int, h: int, x: int, y: int)
    requires
        0 <= x < w,
        0 <= y < h,
    ensures
        0 <= y * w + x < w * h,
{
    assert(y * w <= (h - 1) * w) by (nonlinear_arith)
        requires
            0 <= y < h,
            0 <= w,
    ;
    assert((h - 1) * w + w == w * h) by (nonlinear_arith);
    assert(0 <= y * w) by (nonlinear_arith)
        requires
            0 <= y,
            0 <= w,
    ;
}

pub proof fn lemma_ceil_div(a: int, b: int)
    requires
        0 <= a,
        0 < b,
    ensures
        0 <= ceil_div(a, b) <= a,
        forall|x: int| 0 <= x < a ==> #[trigger] (x / b) < ceil_div(a, b),
{
    assert forall|x: int| 0 <= x < a implies #[trigger] (x / b) < ceil_div(a, b) by {
        assert(x / b <= a / b) by (nonlinear_arith)
            requires
                0 <= x < a,
                0 < b,
        ;
        if x / b == a / b {
            assert(a % b != 0) by (nonlinear_arith)
                requires
                    0 <= x < a,
                    0 < b,
                    x / b == a / b,
            ;
        }
    }
    assert(a / b <= a) by (nonlinear_arith)
        requires
            0 <= a,
            0 < b,
    ;
    assert(a / b >= 0) by (nonlinear_arith)
        requires
            0 <= a,
            0 < b,
    ;
    if a % b != 0 {
        assert(a / b < a) by (nonlinear_arith)
            requires
                0 <= a,
                0 < b,
                a % b != 0,
        ;
    }
}

impl GameView {
    /// Facts about positions and chunks of a well-formed state.
    pub proof fn lemma_bounds(self)
        requires
            self.wf(),
        ensures
            0 <= self.chunks_x() <= self.width,
            0 <= self.chunks_y() <= self.height,
            self.chunks_x() * self.chunks_y() <= self.width * self.height,
            forall|x: int, y: int| #[trigger] self.in_grid(x, y) ==> 0 <= self.index_of(x, y) < self.cells.len(),
            forall|x: int, y: int| #[trigger] self.in_grid(x, y) ==> 0 <= self.chunk_of(x, y) < self.active.len(),
            forall|x: int, y: int|
                #[trigger] self.in_grid(x, y) ==> 0 <= x / (self.chunk_size as int) < self.chunks_x() && 0 <= y
                    / (self.chunk_size as int) < self.chunks_y(),
    {
        let cs = self.chunk_size as int;
        lemma_ceil_div(self.width as int, cs);
        lemma_ceil_div(self.height as int, cs);
        let cx = self.chunks_x();
        let cy = self.chunks_y();
        assert(cx * cy <= self.width * self.height) by (nonlinear_arith)
            requires
                0 <= cx <= self.width,
                0 <= cy <= self.height,
        ;
        assert forall|x: int, y: int| #[trigger] self.in_grid(x, y) implies 0 <= self.index_of(x, y) < self.cells.len() by {
            lemma_index_in_grid(self.width as int, self.height as int, x, y);
        }
        assert forall|x: int, y: int| #[trigger] self.in_grid(x, y) implies 0 <= self.chunk_of(x, y) < self.active.len()
            && 0 <= x / cs < cx && 0 <= y / cs < cy by {
            let a = x / cs;
            let b = y / cs;
            assert(0 <= a && 0 <= b) by (nonlinear_arith)
                requires
                    0 <= x,
                    0 <= y,
                    0 < cs,
                    a == x / cs,
                    b == y / cs,
            ;
            assert(a < cx && b < cy);
            lemma_index_in_grid(cx, cy, a, b);
        }
    }
}

impl SandGame {
    pub open spec fn wf(&self) -> bool {
        self@.wf()
    }

    /// A simulation of `width` by `height` empty cells in chunks of
    /// `chunk_size` by `chunk_size`, with every chunk inactive.
    pub fn new(width: usize, height: usize, chunk_size: usize) -> (r: SandGame)
        requires
            chunk_size > 0,
            width * height * 4 <= usize::MAX,
        ensures
            r.wf(),
            r@.has_size(width, height, chunk_size),
            r@.is_fresh(),
    {
        proof {
            lemma_ceil_div(width as int, chunk_size as int);
            lemma_ceil_div(height as int, chunk_size as int);
        }
        let chunk_count_x = width / chunk_size + if width % chunk_size == 0 { 0 } else { 1 };
        let chunk_count_y = height / chunk_size + if height % chunk_size == 0 { 0 } else { 1 };
        proof {
            assert(chunk_count_x * chunk_count_y <= width * height) by (nonlinear_arith)
                requires
                    0 <= chunk_count_x <= width,
                    0 <= chunk_count_y <= height,
            ;
        }
        let n = width * height;
        let empty = GridCell::from_palette(Cell::Empty, 0);
        let mut grid: Vec<GridCell> = Vec::new();
        let mut i: usize = 0;
        while i < n
            invariant
                i <= n,
                grid@.len() == i,
                forall|j: int| 0 <= j < i ==> #[trigger] grid@[j] == empty,
            decreases n - i,
        {
            grid.push(empty);
            i = i + 1;
        }
        let m = chunk_count_x * chunk_count_y;
        let mut active_chunks: Vec<bool> = Vec::new();
        let mut k: usize = 0;
        while k < m
            invariant
                k <= m,
                active_chunks@.len() == k,
                forall|j: int| 0 <= j < k ==> !#[trigger] active_chunks@[j],
            decreases m - k,
        {
            active_chunks.push(false);
            k = k + 1;
        }
        SandGame { width, height, chunk_size, grid, active_chunks, frame: 0, rainbow_counter: 0 }
    }

    /// `new`, or `None` where `new` cannot build the simulation: a chunk size
    /// of zero, or a color buffer whose length `width * height * 4` does not
    /// fit in `usize`. Nothing is allocated when it fails.
    pub fn try_new(width: usize, height: usize, chunk_size: usize) -> (r: Option<SandGame>)
        ensures
            r.is_some() <==> chunk_size > 0 && width * height * 4 <= usize::MAX,
            r matches Some(g) ==> g.wf() && g@.has_size(width, height, chunk_size) && g@.is_fresh(),
    {
        if chunk_size == 0 {
            return None;
        }
        match width.checked_mul(height) {
            None => {
                proof {
                    assert(width * height * 4 > usize::MAX) by (nonlinear_arith)
                        requires
                            width * height > usize::MAX,
                    ;
                }
                None
            },
            Some(n) => match n.checked_mul(4) {
                None => None,
                Some(_) => Some(SandGame::new(width, height, chunk_size)),
            },
        }
    }

    pub fn get_width(&self) -> (r: usize)
        ensures
            r == self@.width,
    {
        self.width
    }

    pub fn get_height(&self) -> (r: usize)
        ensures
            r == self@.height,
    {
        self.height
    }

    pub fn get_chunk_size(&self) -> (r: usize)
        ensures
            r == self@.chunk_size,
    {
        self.chunk_size
    }

    /// The frame counter: the number of ticks run so far, modulo 2^64.
    pub fn get_frame(&self) -> (r: u64)
        ensures
            r == self@.frame,
    {
        self.frame
    }

    /// The grid position of `(x, y)`, or `None` outside the grid.
    pub fn index(&self, x: usize, y: usize) -> (r: Option<usize>)
        requires
            self.wf(),
        ensures
            self@.in_grid(x as int, y as int) ==> r == Some(self@.index_of(x as int, y as int) as usize),
            !self@.in_grid(x as int, y as int) ==> r.is_none(),
            r matches Some(i) ==> i < self@.cells.len() && i == self@.index_of(x as int, y as int),
    {
        if x < self.width && y < self.height {
            proof {
                self@.lemma_bounds();
                assert(self@.in_grid(x as int, y as int));
            }
            Some(y * self.width + x)
        } else {
            None
        }
    }

    /// The cell at `(x, y)`, or `None` outside the grid.
    pub fn cell_at(&self, x: usize, y: usize) -> (r: Option<GridCell>)
        requires
            self.wf(),
        ensures
            self@.in_grid(x as int, y as int) ==> r == Some(self@.cell(x as int, y as int)),
            !self@.in_grid(x as int, y as int) ==> r.is_none(),
    {
        match self.index(x, y) {
            Some(i) => Some(self.grid[i]),
            None => None,
        }
    }

    /// The cell at grid position `i`.
    pub(crate) fn cell_at_index(&self, i: usize) -> (r: GridCell)
        requires
            i < self@.cells.len(),
        ensures
            r == self@.cells[i as int],
    {
        self.grid[i]
    }

    /// Number of chunk columns.
    pub fn chunk_count_x(&self) -> (r: usize)
        requires
            self.wf(),
        ensures
            r == self@.chunks_x(),
    {
        proof {
            lemma_ceil_div(self.width as int, self.chunk_size as int);
        }
        self.width / self.chunk_size + if self.width % self.chunk_size == 0 { 0 } else { 1 }
    }

    /// Number of chunk rows.
    pub fn chunk_count_y(&self) -> (r: usize)
        requires
            self.wf(),
        ensures
            r == self@.chunks_y(),
    {
        proof {
            lemma_ceil_div(self.height as int, self.chunk_size as int);
        }
        self.height / self.chunk_size + if self.height % self.chunk_size == 0 { 0 } else { 1 }
    }

    fn chunk_index(&self, chunk_x: usize, chunk_y: usize) -> (r: usize)
        requires
            self.wf(),
            chunk_x < self@.chunks_x(),
            chunk_y < self@.chunks_y(),
        ensures
            r == self@.chunk_index_of(chunk_x as int, chunk_y as int),
            r < self@.active.len(),
    {
        let cx = self.chunk_count_x();
        proof {
            self@.lemma_bounds();
            lemma_index_in_grid(cx as int, self@.chunks_y(), chunk_x as int, chunk_y as int);
        }
        chunk_y * cx + chunk_x
    }

    /// Whether chunk `(chunk_x, chunk_y)` is active; `false` outside the
    /// chunk range.
    pub fn is_chunk_active(&self, chunk_x: usize, chunk_y: usize) -> (r: bool)
        requires
            self.wf(),
        ensures
            r == self@.chunk_active(chunk_x as int, chunk_y as int),
    {
        if chunk_x < self.chunk_count_x() && chunk_y < self.chunk_count_y() {
            let i = self.chunk_index(chunk_x, chunk_y);
            self.active_chunks[i]
        } else {
            false
        }
    }

    /// Marks active, in the current map, the chunk that holds `(x, y)`.
    fn activate_chunk(&mut self, x: usize, y: usize)
        requires
            old(self).wf(),
            old(self)@.in_grid(x as int, y as int),
        ensures
            final(self).wf(),
            final(self)@ == (GameView {
                active: old(self)@.active.update(old(self)@.chunk_of(x as int, y as int), true),
                ..old(self)@
            }),
    {
        proof {
            self@.lemma_bounds();
            assert(self@.in_grid(x as int, y as int));
        }
        let i = self.chunk_index(x / self.chunk_size, y / self.chunk_size);
        self.active_chunks.set(i, true);
    }

    /// Writes a fresh cell of `kind` at `(x, y)` and marks its chunk active.
    pub(crate) fn place_fresh(&mut self, x: usize, y: usize, kind: Cell)
        requires
            old(self).wf(),
            old(self)@.in_grid(x as int, y as int),
        ensures
            final(self).wf(),
            final(self)@.has_size(old(self)@.width, old(self)@.height, old(self)@.chunk_size),
            final(self)@.frame == old(self)@.frame,
            kind != Cell::RainbowSand ==> final(self)@.rainbow_counter == old(self)@.rainbow_counter,
            fresh_cell_of(final(self)@.cell(x as int, y as int), kind),
            final(self)@.cells == old(self)@.cells.update(
                old(self)@.index_of(x as int, y as int),
                final(self)@.cell(x as int, y as int),
            ),
            final(self)@.active == old(self)@.active.update(old(self)@.chunk_of(x as int, y as int), true),
    {
        proof {
            self@.lemma_bounds();
            assert(self@.in_grid(x as int, y as int));
        }
        let fresh = GridCell::new(kind, &mut self.rainbow_counter);
        let i = y * self.width + x;
        self.grid.set(i, fresh);
        self.activate_chunk(x, y);
    }

    /// Moves the cell at grid position `from` into `(to_x, to_y)` when that
    /// position is in the grid and empty, by exchanging the two cells whole.
    pub(crate) fn try_move(&mut self, from: usize, to_x: usize, to_y: usize) -> (r: bool)
        requires
            old(self).wf(),
            from < old(self)@.cells.len(),
        ensures
            final(self).wf(),
            final(self)@.same_but_cells(old(self)@),
            r == old(self)@.is_empty_at(to_x as int, to_y as int),
            r ==> final(self)@.cells == swapped(
                old(self)@.cells,
                from as int,
                old(self)@.index_of(to_x as int, to_y as int),
            ),
            !r ==> final(self)@.cells == old(self)@.cells,
            final(self)@.kind_counts() == old(self)@.kind_counts(),
            final(self)@.matter() == old(self)@.matter(),
    {
        match self.index(to_x, to_y) {
            Some(to) => {
                if self.grid[to].cell_type == Cell::Empty {
                    let a = self.grid[from];
                    let b = self.grid[to];
                    self.grid.set(from, b);
                    self.grid.set(to, a);
                    proof {
                        lemma_swap_kind_counts(old(self)@.cells, from as int, to as int);
                        lemma_swap_matter(old(self)@.cells, from as int, to as int);
                    }
                    true
                } else {
                    false
                }
            },
            None => false,
        }
    }

    /// The RGBA color buffer: four bytes per cell in grid order, row 0
    /// first, alpha always 255.
    pub fn get_color_buffer(&self) -> (r: Vec<u8>)
        requires
            self.wf(),
        ensures
            r@.len() == self@.width * self@.height * 4,
            forall|i: int| 0 <= i < self@.cells.len() ==> #[trigger] pixel_shows(self@, r@, i),
    {
        let n = self.grid.len();
        let mut buffer: Vec<u8> = Vec::new();
        let mut i: usize = 0;
        while i < n
            invariant
                self.wf(),
                n == self@.cells.len(),
                i <= n,
                buffer@.len() == 4 * i,
                forall|j: int| 0 <= j < i ==> #[trigger] pixel_shows(self@, buffer@, j),
            decreases n - i,
        {
            let c = self.grid[i].color;
            let ghost before = buffer@;
            buffer.push(c.0);
            buffer.push(c.1);
            buffer.push(c.2);
            buffer.push(255);
            assert forall|j: int| 0 <= j < i + 1 implies #[trigger] pixel_shows(self@, buffer@, j) by {
                if j < i {
                    assert(pixel_shows(self@, before, j));
                }
            }
            i = i + 1;
        }
        buffer
    }

    /// The row-major indices of the active chunks, in increasing order.
    pub fn get_active_chunk_indices(&self) -> (r: Vec<u32>)
        requires
            self.wf(),
        ensures
            r@ == true_indices(self@.active, self@.active.len() as int).map_values(|i: int| i as u32),
    {
        let n = self.active_chunks.len();
        let mut r: Vec<u32> = Vec::new();
        let mut i: usize = 0;
        while i < n
            invariant
                n == self@.active.len(),
                i <= n,
                r@ == true_indices(self@.active, i as int).map_values(|k: int| k as u32),
            decreases n - i,
        {
            if self.active_chunks[i] {
                r.push(i as u32);
            }
            proof {
                let t = true_indices(self@.active, i as int);
                if self@.active[i as int] {
                    assert(t.push(i as int).map_values(|k: int| k as u32) =~= t.map_values(|k: int| k as u32).push(
                        i as u32,
                    ));
                }
            }
            i = i + 1;
        }
        r
    }

    /// Runs one tick: every cell of an active chunk that this tick has not
    /// visited yet is stamped and moved by its kind's rule, rows from the
    /// bottom up, each row in a random direction. Chunks around each move are
    /// marked in a fresh map, which then replaces the current one.
    pub fn step(&mut self)
        requires
            old(self).wf(),
        ensures
            step_outcome(old(self)@, final(self)@),
    {
        let ghost g0 = self@;
        let n = self.active_chunks.len();
        let mut next: Vec<bool> = Vec::new();
        let mut k: usize = 0;
        while k < n
            invariant
                k <= n,
                n == self.active_chunks@.len(),
                next@.len() == k,
                forall|c: int| 0 <= c < k ==> !#[trigger] next@[c],
            decreases n - k,
        {
            next.push(false);
            k = k + 1;
        }
        self.frame = if self.frame == u64::MAX { 0 } else { self.frame + 1 };
        let frame = self.frame;
        let ghost mut moved_any = false;
        let ghost mut moves: Set<(int, int)> = Set::empty();
        let ghost start = self@;
        let ghost mut rows: Seq<Seq<GameView>> = Seq::empty();
        let ghost mut flags: Seq<Seq<bool>> = Seq::empty();
        let ghost mut dirs: Seq<bool> = Seq::empty();
        proof {
            lemma_tick_start(start);
            lemma_scan_start(g0, self@, next@);
            lemma_moves_start(g0, self@, next@);
        }
        let mut y: usize = 0;
        while y < self.height
            invariant
                self.wf(),
                y <= g0.height,
                frame == g0.next_frame(),
                scan_state(g0, self@, next@, moved_any, y as int, 0, true),
                moves_build_map(g0, self@, next@, moves),
                start == (GameView { frame: g0.next_frame(), ..g0 }),
                rows.len() == y,
                flags.len() == y,
                dirs.len() == y,
                tick_trace(start, rows, flags, dirs),
                self@ == trace_end(start, rows),
                forall|yy: int, k: int|
                    0 <= yy < y && 0 <= k < g0.width ==> (#[trigger] flags[yy][k] <==> moves.contains(
                        (scan_x(g0.width as int, k, dirs[yy]), yy),
                    )),
                forall|p: (int, int)| #[trigger] moves.contains(p) ==> p.1 < y,
            decreases g0.height - y,
        {
            let ascending = coin_flip();
            let ghost mut cur: Seq<GameView> = seq![self@];
            let ghost mut cur_flags: Seq<bool> = Seq::empty();
            proof {
                lemma_row_start(self@, y as int, ascending, g0.width as int);
            }
            let mut j: usize = 0;
            while j < self.width
                invariant
                    self.wf(),
                    y < g0.height,
                    j <= g0.width,
                    frame == g0.next_frame(),
                    scan_state(g0, self@, next@, moved_any, y as int, j as int, ascending),
                    moves_build_map(g0, self@, next@, moves),
                    start == (GameView { frame: g0.next_frame(), ..g0 }),
                    rows.len() == y,
                    flags.len() == y,
                    dirs.len() == y,
                    tick_trace(start, rows, flags, dirs),
                    cur.len() == j + 1,
                    cur_flags.len() == j,
                    cur[0] == trace_end(start, rows),
                    cur.last() == self@,
                    row_trace(cur, cur_flags, y as int, ascending, g0.width as int),
                    forall|yy: int, k: int|
                        0 <= yy < y && 0 <= k < g0.width ==> (#[trigger] flags[yy][k] <==> moves.contains(
                            (scan_x(g0.width as int, k, dirs[yy]), yy),
                        )),
                    forall|k: int|
                        0 <= k < j ==> (#[trigger] cur_flags[k] <==> moves.contains(
                            (scan_x(g0.width as int, k, ascending), y as int),
                        )),
                    forall|p: (int, int)|
                        #[trigger] moves.contains(p) ==> visited(g0.width as int, p.0, p.1, y as int, j as int, ascending),
                decreases g0.width - j,
            {
                let x = if ascending { j } else { self.width - 1 - j };
                let ghost gb = self@;
                let ghost nb = next@;
                let mut ran = false;
                let ghost mut reported = false;
                if self.is_chunk_active(x / self.chunk_size, y / self.chunk_size) {
                    let i = match self.index(x, y) {
                        Some(i) => i,
                        None => 0,
                    };
                    if self.grid[i].last_processed_frame != frame {
                        ran = true;
                        let r = self.update_cell(x, y);
                        if r {
                            let ghost before = next@;
                            self.mark_neighbors_active(x, y, &mut next);
                            proof {
                                assert(g0.in_grid(x as int, y as int));
                                assert forall|c: int| 0 <= c < next@.len() && #[trigger] next@[c] implies near_active(
                                    g0,
                                    c,
                                ) by {
                                    if !before[c] {
                                        let g1 = self@;
                                        let cs = g0.chunk_size as int;
                                        let (xi, yi) = (x as int, y as int);
                                        assert(g1.near_chunk(c, xi, yi));
                                        let (a, b) = choose|a: int, b: int|
                                            #![trigger g1.chunk_index_of(a, b)]
                                            0 <= a < g1.chunks_x() && 0 <= b < g1.chunks_y() && xi / cs - 1 <= a <= xi
                                                / cs + 1 && yi / cs - 1 <= b <= yi / cs + 1 && c == g1.chunk_index_of(a, b);
                                        assert(g0.chunk_index_of(a, b) == c);
                                        assert(g0.near_chunk(c, xi, yi));
                                        assert(gb.chunk_active(xi / cs, yi / cs));
                                        assert(near_active(g0, c));
                                    }
                                }
                            }
                        }
                        proof {
                            assert(g0.in_grid(x as int, y as int));
                            lemma_moves_visit(
                                g0,
                                gb,
                                self@,
                                nb,
                                next@,
                                moves,
                                moved_any,
                                y as int,
                                j as int,
                                ascending,
                                x as int,
                                r,
                            );
                            lemma_scan_visit(g0, gb, self@, nb, next@, moved_any, y as int, j as int, ascending, x as int, r);
                            lemma_visit_ran(gb, self@, x as int, y as int, r);
                            moved_any = moved_any || r;
                            reported = r;
                            if r {
                                moves = moves.insert((x as int, y as int));
                            }
                        }
                    }
                }
                proof {
                    if !ran {
                        lemma_scan_skip(g0, self@, next@, moved_any, y as int, j as int, ascending, x as int);
                    }
                    if !ran {
                        lemma_visit_skipped(gb, x as int, y as int);
                    }
                    assert(visit_rel(gb, self@, x as int, y as int, reported));
                    let old_flags = cur_flags;
                    lemma_row_push(cur, cur_flags, y as int, ascending, g0.width as int, self@, reported);
                    cur = cur.push(self@);
                    cur_flags = cur_flags.push(reported);
                    assert forall|k: int| 0 <= k < j + 1 implies (#[trigger] cur_flags[k] <==> moves.contains(
                        (scan_x(g0.width as int, k, ascending), y as int),
                    )) by {
                        if k < j {
                            assert(cur_flags[k] == old_flags[k]);
                        }
                    }
                    assert forall|p: (int, int)| #[trigger] moves.contains(p) implies visited(
                        g0.width as int,
                        p.0,
                        p.1,
                        y as int,
                        j + 1,
                        ascending,
                    ) by {}
                }
                j = j + 1;
            }
            proof {
                lemma_scan_row(g0, self@, next@, moved_any, y as int, ascending);
                let old_flags = flags;
                let old_dirs = dirs;
                lemma_tick_push(start, rows, flags, dirs, cur, cur_flags, ascending);
                rows = rows.push(cur);
                flags = flags.push(cur_flags);
                dirs = dirs.push(ascending);
                let w = g0.width as int;
                assert forall|yy: int, k: int| 0 <= yy < y + 1 && 0 <= k < g0.width implies (#[trigger] flags[yy][k]
                    <==> moves.contains((scan_x(w, k, dirs[yy]), yy))) by {
                    if yy < y {
                        assert(flags[yy] == old_flags[yy] && dirs[yy] == old_dirs[yy]);
                    }
                }
                assert forall|p: (int, int)| #[trigger] moves.contains(p) implies p.1 < y + 1 by {
                    assert(visited(w, p.0, p.1, y as int, w, ascending));
                }
            }
            y = y + 1;
        }
        proof {
            lemma_scan_end(g0, self@, next@, moved_any);
        }
        let ghost g_end = self@;
        self.active_chunks = next;
        proof {
            reveal(step_outcome);
            assert(moves_build_map(g0, self@, self@.active, moves)) by {
                assert forall|a: int, b: int| #[trigger] g0.in_grid(a, b) implies self@.cell(a, b) == g_end.cell(a, b) by {}
            }
            lemma_tick_explained(g0, self@, rows, flags, dirs, moves);
        }
    }

    /// Stamps the cell at `(x, y)` with the current frame and applies its
    /// kind's movement rule. Returns whether it moved.
    fn update_cell(&mut self, x: usize, y: usize) -> (r: bool)
        requires
            old(self).wf(),
            old(self)@.in_grid(x as int, y as int),
        ensures
            final(self).wf(),
            behavior_outcome(stamped(old(self)@, x as int, y as int, old(self)@.frame), final(self)@, x as int, y as int, r),
            visit_summary(old(self)@, final(self)@, x as int, y as int, r),
    {
        let ghost g0 = self@;
        let i = match self.index(x, y) {
            Some(i) => i,
            None => return false,
        };
        let c = self.grid[i];
        self.grid.set(i, GridCell { last_processed_frame: self.frame, ..c });
        proof {
            assert(self@.cells.map_values(|c: GridCell| c.cell_type) =~= g0.cells.map_values(|c: GridCell| c.cell_type));
            assert(self@.cells.map_values(|c: GridCell| (c.cell_type, c.color)) =~= g0.cells.map_values(
                |c: GridCell| (c.cell_type, c.color),
            ));
            g0.lemma_bounds();
            assert(g0.in_grid(x as int, y as int));
            assert(self@ == stamped(g0, x as int, y as int, g0.frame));
        }
        let r = match c.cell_type.behavior() {
            Behavior::Inert => false,
            Behavior::MovableSolid => self.movable_solid_behavior(x, y),
            Behavior::Liquid => self.liquid_behavior(x, y),
            Behavior::Gas => self.gas_behavior(x, y),
        };
        proof {
            lemma_visit_summary(g0, self@, x as int, y as int, r);
        }
        r
    }

    /// Marks active, in `next_active_chunks`, the chunks around the one that
    /// holds `(x, y)`.
    fn mark_neighbors_active(&self, x: usize, y: usize, next_active_chunks: &mut Vec<bool>)
        requires
            self.wf(),
            self@.in_grid(x as int, y as int),
            old(next_active_chunks)@.len() == self@.active.len(),
        ensures
            final(next_active_chunks)@.len() == old(next_active_chunks)@.len(),
            forall|c: int|
                0 <= c < final(next_active_chunks)@.len() ==> (#[trigger] final(next_active_chunks)@[c] <==> (old(
                    next_active_chunks,
                )@[c] || self@.near_chunk(c, x as int, y as int))),
    {
        let ghost g = self@;
        let ghost start = next_active_chunks@;
        let count_x = self.chunk_count_x();
        let count_y = self.chunk_count_y();
        let chunk_x = x / self.chunk_size;
        let chunk_y = y / self.chunk_size;
        proof {
            g.lemma_bounds();
            assert(g.in_grid(x as int, y as int));
        }
        let lo_x = if chunk_x > 0 { chunk_x - 1 } else { 0 };
        let lo_y = if chunk_y > 0 { chunk_y - 1 } else { 0 };
        let hi_x = if chunk_x + 1 < count_x { chunk_x + 1 } else { chunk_x };
        let hi_y = if chunk_y + 1 < count_y { chunk_y + 1 } else { chunk_y };
        let mut b = lo_y;
        while b <= hi_y
            invariant
                lo_y <= b <= hi_y + 1,
                lo_x <= hi_x,
                hi_y < count_y,
                hi_x < count_x,
                count_x == g.chunks_x(),
                count_y == g.chunks_y(),
                g == self@,
                g.wf(),
                next_active_chunks@.len() == start.len(),
                start.len() == g.active.len(),
                forall|c: int|
                    0 <= c < start.len() ==> (#[trigger] next_active_chunks@[c] <==> (start[c] || exists|a: int, bb: int|
                        #![trigger g.chunk_index_of(a, bb)]
                        lo_x <= a <= hi_x && lo_y <= bb < b && c == g.chunk_index_of(a, bb))),
            decreases hi_y + 1 - b,
        {
            let ghost row_start = next_active_chunks@;
            let mut a = lo_x;
            while a <= hi_x
                invariant
                    lo_x <= a <= hi_x + 1,
                    lo_y <= b <= hi_y,
                    hi_y < count_y,
                    hi_x < count_x,
                    count_x == g.chunks_x(),
                    count_y == g.chunks_y(),
                    g == self@,
                    g.wf(),
                    next_active_chunks@.len() == start.len(),
                    start.len() == g.active.len(),
                    forall|c: int|
                        0 <= c < start.len() ==> (#[trigger] next_active_chunks@[c] <==> (row_start[c] || exists|aa: int|
                            lo_x <= aa < a && c == #[trigger] g.chunk_index_of(aa, b as int))),
                decreases hi_x + 1 - a,
            {
                let i = self.chunk_index(a, b);
                next_active_chunks.set(i, true);
                a = a + 1;
            }
            assert forall|c: int| 0 <= c < start.len() implies (#[trigger] next_active_chunks@[c] <==> (start[c]
                || exists|aa: int, bb: int|
                #![trigger g.chunk_index_of(aa, bb)]
                lo_x <= aa <= hi_x && lo_y <= bb < b + 1 && c == g.chunk_index_of(aa, bb))) by {
                if exists|aa: int| lo_x <= aa <= hi_x && c == #[trigger] g.chunk_index_of(aa, b as int) {
                    let aa = choose|aa: int| lo_x <= aa <= hi_x && c == #[trigger] g.chunk_index_of(aa, b as int);
                    assert(lo_x <= aa <= hi_x && lo_y <= b < b + 1 && c == g.chunk_index_of(aa, b as int));
                }
                if exists|aa: int, bb: int|
                    #![trigger g.chunk_index_of(aa, bb)]
                    lo_x <= aa <= hi_x && lo_y <= bb < b + 1 && c == g.chunk_index_of(aa, bb) {
                    let (aa, bb) = choose|aa: int, bb: int|
                        #![trigger g.chunk_index_of(aa, bb)]
                        lo_x <= aa <= hi_x && lo_y <= bb < b + 1 && c == g.chunk_index_of(aa, bb);
                    if bb == b {
                        assert(lo_x <= aa <= hi_x && c == g.chunk_index_of(aa, b as int));
                    } else {
                        assert(lo_x <= aa <= hi_x && lo_y <= bb < b && c == g.chunk_index_of(aa, bb));
                    }
                }
            }
            b = b + 1;
        }
        proof {
            let cs = g.chunk_size as int;
            let xi = x as int;
            let yi = y as int;
            assert forall|c: int| 0 <= c < start.len() implies (next_active_chunks@[c] <==> (start[c] || g.near_chunk(
                c,
                x as int,
                y as int,
            ))) by {
                if g.near_chunk(c, x as int, y as int) {
                    let (aa, bb) = choose|aa: int, bb: int|
                        #![trigger g.chunk_index_of(aa, bb)]
                        0 <= aa < g.chunks_x() && 0 <= bb < g.chunks_y() && xi / cs - 1 <= aa <= xi / cs + 1 && yi / cs
                            - 1 <= bb <= yi / cs + 1 && c == g.chunk_index_of(aa, bb);
                    assert(lo_x <= aa <= hi_x && lo_y <= bb < hi_y + 1 && c == g.chunk_index_of(aa, bb));
                }
                if exists|aa: int, bb: int|
                    #![trigger g.chunk_index_of(aa, bb)]
                    lo_x <= aa <= hi_x && lo_y <= bb < hi_y + 1 && c == g.chunk_index_of(aa, bb) {
                    let (aa, bb) = choose|aa: int, bb: int|
                        #![trigger g.chunk_index_of(aa, bb)]
                        lo_x <= aa <= hi_x && lo_y <= bb < hi_y + 1 && c == g.chunk_index_of(aa, bb);
                    assert(0 <= aa < g.chunks_x() && 0 <= bb < g.chunks_y() && xi / cs - 1 <= aa <= xi / cs + 1 && yi
                        / cs - 1 <= bb <= yi / cs + 1 && c == g.chunk_index_of(aa, bb));
                }
            }
        }
    }

    /// Sets the velocity of the cell at grid position `i`.
    pub(crate) fn set_velocity(&mut self, i: usize, v: u32)
        requires
            old(self).wf(),
            i < old(self)@.cells.len(),
        ensures
            final(self).wf(),
            final(self)@.same_but_cells(old(self)@),
            final(self)@.cells == old(self)@.cells.update(i as int, GridCell { velocity: v, ..old(self)@.cells[i as int] }),
            final(self)@.kind_counts() == old(self)@.kind_counts(),
            final(self)@.matter() == old(self)@.matter(),
    {
        let c = self.grid[i];
        self.grid.set(i, GridCell { velocity: v, ..c });
        proof {
            let s = old(self)@.cells;
            let c2 = GridCell { velocity: v, ..s[i as int] };
            assert(s.update(i as int, c2).map_values(|c: GridCell| c.cell_type) =~= s.map_values(|c: GridCell| c.cell_type));
            assert(s.update(i as int, c2).map_values(|c: GridCell| (c.cell_type, c.color)) =~= s.map_values(
                |c: GridCell| (c.cell_type, c.color),
            ));
        }
    }
}

/// Whether a chunk is near a cell depends on the grid's shape alone.
pub proof fn lemma_near_chunk_shape(g1: GameView, g2: GameView, c: int, x: int, y: int)
    requires
        g1.has_size(g2.width, g2.height, g2.chunk_size),
    ensures
        g1.near_chunk(c, x, y) == g2.near_chunk(c, x, y),
{
    let cs = g1.chunk_size as int;
    if g1.near_chunk(c, x, y) {
        let (a, b) = choose|a: int, b: int|
            #![trigger g1.chunk_index_of(a, b)]
            0 <= a < g1.chunks_x() && 0 <= b < g1.chunks_y() && x / cs - 1 <= a <= x / cs + 1 && y / cs - 1 <= b <= y
                / cs + 1 && c == g1.chunk_index_of(a, b);
        assert(g2.chunk_index_of(a, b) == c);
    }
    if g2.near_chunk(c, x, y) {
        let (a, b) = choose|a: int, b: int|
            #![trigger g2.chunk_index_of(a, b)]
            0 <= a < g2.chunks_x() && 0 <= b < g2.chunks_y() && x / cs - 1 <= a <= x / cs + 1 && y / cs - 1 <= b <= y
                / cs + 1 && c == g2.chunk_index_of(a, b);
        assert(g1.chunk_index_of(a, b) == c);
    }
}

/// Pixel `i` of `buf` shows cell `i` of `g`, fully opaque.
pub open spec fn pixel_shows(g: GameView, buf: Seq<u8>, i: int) -> bool {
    let c = g.cells[i].color;
    &&& buf[4 * i] == c.0
    &&& buf[4 * i + 1] == c.1
    &&& buf[4 * i + 2] == c.2
    &&& buf[4 * i + 3] == 255
}

/// The indices `i < n` at which `s` holds `true`, in increasing order.
pub open spec fn true_indices(s: Seq<bool>, n: int) -> Seq<int>
    decreases n,
{
    if n <= 0 {
        Seq::empty()
    } else if s[n - 1] {
        true_indices(s, n - 1).push(n - 1)
    } else {
        true_indices(s, n - 1)
    }
}

/// Chunk `c` is one of the chunks around a cell of an active chunk of `g`.
pub open spec fn near_active(g: GameView, c: int) -> bool {
    exists|x: int, y: int|
        #[trigger] g.near_chunk(c, x, y) && g.in_grid(x, y) && g.chunk_active(
            x / (g.chunk_size as int),
            y / (g.chunk_size as int),
        )
}

/// What a tick from `g0` to `g1` does, whatever the random choices:
/// - the shape stays and the frame counter advances;
/// - cells are only rearranged: the number of cells of each kind, and of
///   each kind and color, is kept;
/// - every non-empty cell that changed carries the new frame stamp;
/// - a chunk is active afterwards only next to a chunk that was active;
/// - where no chunk is active, no cell changes;
/// - from a settled state no cell changes kind or color, and every chunk
///   becomes inactive;
/// - where some cell of an active chunk has a move open to it, the kinds of
///   the grid change;
/// - exactly: `g1` is where a scan of the rows from the bottom up ends,
///   each row in some direction, each visit running the kind's rule of a
///   cell of an active chunk on the stamped state; the new activity map is
///   the one built around the visits that reported a move
///   (`tick_explained`).
#[verifier::opaque]
pub open spec fn step_outcome(g0: GameView, g1: GameView) -> bool {
    &&& g1.wf()
    &&& g1.has_size(g0.width, g0.height, g0.chunk_size)
    &&& g1.rainbow_counter == g0.rainbow_counter
    &&& g1.frame == g0.next_frame()
    &&& g1.kind_counts() == g0.kind_counts()
    &&& g1.matter() == g0.matter()
    &&& forall|i: int|
        0 <= i < g1.cells.len() && (#[trigger] g1.cells[i]).cell_type != Cell::Empty && g1.cells[i] != g0.cells[i]
            ==> g1.cells[i].last_processed_frame == g1.frame
    &&& forall|c: int| 0 <= c < g1.active.len() && #[trigger] g1.active[c] ==> near_active(g0, c)
    &&& all_inactive(g0) ==> g1.cells == g0.cells
    &&& settled(g0) ==> same_matter(g1.cells, g0.cells) && all_inactive(g1)
    &&& can_progress(g0) ==> !same_kinds(g1.cells, g0.cells)
    &&& exists|rows: Seq<Seq<GameView>>, flags: Seq<Seq<bool>>, dirs: Seq<bool>, moves: Set<(int, int)>|
        #[trigger] tick_explained(g0, g1, rows, flags, dirs, moves)
}

/// The parts of `step_outcome`.
pub proof fn lemma_step_outcome(g0: GameView, g1: GameView)
    requires
        step_outcome(g0, g1),
    ensures
        g1.wf(),
        g1.has_size(g0.width, g0.height, g0.chunk_size),
        g1.rainbow_counter == g0.rainbow_counter,
        g1.frame == g0.next_frame(),
        g1.kind_counts() == g0.kind_counts(),
        g1.matter() == g0.matter(),
        forall|c: int| 0 <= c < g1.active.len() && #[trigger] g1.active[c] ==> near_active(g0, c),
        all_inactive(g0) ==> g1.cells == g0.cells,
        settled(g0) ==> same_matter(g1.cells, g0.cells),
        settled(g0) ==> all_inactive(g1),
        can_progress(g0) ==> !same_kinds(g1.cells, g0.cells),
        exists|rows: Seq<Seq<GameView>>, flags: Seq<Seq<bool>>, dirs: Seq<bool>, moves: Set<(int, int)>|
            #[trigger] tick_explained(g0, g1, rows, flags, dirs, moves),
{
    reveal(step_outcome);
}

/// Exchanging two cells keeps the number of cells of each kind.
pub proof fn lemma_swap_kind_counts(s: Seq<GridCell>, i: int, j: int)
    requires
        0 <= i < s.len(),
        0 <= j < s.len(),
    ensures
        swapped(s, i, j).map_values(|c: GridCell| c.cell_type).to_multiset() == s.map_values(
            |c: GridCell| c.cell_type,
        ).to_multiset(),
{
    let k = s.map_values(|c: GridCell| c.cell_type);
    assert(swapped(s, i, j).map_values(|c: GridCell| c.cell_type) =~= swapped(k, i, j));
    lemma_swap_to_multiset(k, i, j);
}

/// Exchanging two cells keeps the number of cells of each kind and color.
pub proof fn lemma_swap_matter(s: Seq<GridCell>, i: int, j: int)
    requires
        0 <= i < s.len(),
        0 <= j < s.len(),
    ensures
        swapped(s, i, j).map_values(|c: GridCell| (c.cell_type, c.color)).to_multiset() == s.map_values(
            |c: GridCell| (c.cell_type, c.color),
        ).to_multiset(),
{
    let k = s.map_values(|c: GridCell| (c.cell_type, c.color));
    assert(swapped(s, i, j).map_values(|c: GridCell| (c.cell_type, c.color)) =~= swapped(k, i, j));
    lemma_swap_to_multiset(k, i, j);
}

pub proof fn lemma_swap_to_multiset<A>(s: Seq<A>, i: int, j: int)
    requires
        0 <= i < s.len(),
        0 <= j < s.len(),
    ensures
        swapped(s, i, j).to_multiset() == s.to_multiset(),
{
    broadcast use vstd::seq_lib::to_multiset_update;
    broadcast use vstd::multiset::group_multiset_axioms;
    let s1 = s.update(i, s[j]);
    assert(s1[j] == s[j]);
    assert(s.to_multiset().count(s[i]) > 0) by {
        broadcast use vstd::seq_lib::to_multiset_contains;
        assert(s.contains(s[i]));
    }
    assert(s.to_multiset().insert(s[j]).remove(s[i]).insert(s[i]).remove(s[j]) =~= s.to_multiset());
}

} // verus!
