use crate::elements::{kind_of_id, palette, Cell, GridCell};
use crate::game::{GameView, SandGame};
use vstd::prelude::*;

verus! {

/// Cell `(a, b)` lies within distance `r` of the point `(x, y)` given with
/// its row counted from the top, that is of row `height - 1 - y`.
pub open spec fn in_disk(g: GameView, x: int, y: int, r: int, a: int, b: int) -> bool {
    let dx = a - x;
    let dy = b - (g.height - 1 - y);
    dx * dx + dy * dy <= r * r
}

/// The kind that spawning with id `id` writes: an id of no kind clears.
pub open spec fn spawn_kind(id: u8) -> Cell {
    match kind_of_id(id) {
        Some(k) => k,
        None => Cell::Empty,
    }
}

/// `c` is a freshly made cell of `kind`.
pub open spec fn fresh_cell_of(c: GridCell, kind: Cell) -> bool {
    &&& c.cell_type == kind
    &&& c.velocity == 0
    &&& c.last_processed_frame == 0
    &&& palette(kind).contains(c.color)
}

/// Some cell of the grid inside the disk lies in chunk `c`.
pub open spec fn disk_touches_chunk(g: GameView, x: int, y: int, r: int, c: int) -> bool {
    exists|a: int, b: int| c == #[trigger] g.chunk_of(a, b) && g.in_grid(a, b) && in_disk(g, x, y, r, a, b)
}

/// What spawning `kind` in the disk of radius `r` around `(x, y)` does to
/// `g0`, giving `g1`.
pub open spec fn spawn_outcome(g0: GameView, g1: GameView, x: int, y: int, r: int, kind: Cell) -> bool {
    &&& g1.wf()
    &&& g1.has_size(g0.width, g0.height, g0.chunk_size)
    &&& g1.frame == g0.frame
    &&& kind != Cell::RainbowSand ==> g1.rainbow_counter == g0.rainbow_counter
    &&& forall|a: int, b: int|
        #[trigger] g0.in_grid(a, b) ==> if in_disk(g0, x, y, r, a, b) {
            fresh_cell_of(g1.cell(a, b), kind)
        } else {
            g1.cell(a, b) == g0.cell(a, b)
        }
    &&& forall|c: int|
        0 <= c < g1.active.len() ==> (#[trigger] g1.active[c] <==> (g0.active[c] || disk_touches_chunk(g0, x, y, r, c)))
}

/// Cell `(a, b)` is in the grid and the disk, and comes before `(gx, gy)`.
pub open spec fn done(g: GameView, x: int, y: int, r: int, a: int, b: int, gx: int, gy: int) -> bool {
    g.in_grid(a, b) && in_disk(g, x, y, r, a, b) && before(a, b, gx, gy)
}

/// What spawning has done to `g0`, giving `g1`, once the cells before
/// `(gx, gy)` are handled.
pub open spec fn spawned_before(g0: GameView, g1: GameView, x: int, y: int, r: int, kind: Cell, gx: int, gy: int) -> bool {
    &&& g1.wf()
    &&& g1.has_size(g0.width, g0.height, g0.chunk_size)
    &&& g1.frame == g0.frame
    &&& kind != Cell::RainbowSand ==> g1.rainbow_counter == g0.rainbow_counter
    &&& forall|a: int, b: int|
        #[trigger] g0.in_grid(a, b) ==> if done(g0, x, y, r, a, b, gx, gy) {
            fresh_cell_of(g1.cell(a, b), kind)
        } else {
            g1.cell(a, b) == g0.cell(a, b)
        }
    &&& forall|c: int|
        0 <= c < g1.active.len() ==> (#[trigger] g1.active[c] <==> (g0.active[c] || exists|a: int, b: int|
            c == #[trigger] g0.chunk_of(a, b) && done(g0, x, y, r, a, b, gx, gy)))
}

/// `(a, b)` comes before `(gx, gy)` in row-major order.
pub open spec fn before(a: int, b: int, gx: int, gy: int) -> bool {
    b < gy || (b == gy && a < gx)
}

pub proof fn lemma_index_injective(w: int, a: int, b: int, c: int, d: int)
    requires
        0 <= a < w,
        0 <= c < w,
        0 <= b,
        0 <= d,
        b * w + a == d * w + c,
    ensures
        a == c,
        b == d,
{
    if b < d {
        assert(b * w + w <= d * w) by (nonlinear_arith)
            requires
                b < d,
                0 <= w,
        ;
    } else if d < b {
        assert(d * w + w <= b * w) by (nonlinear_arith)
            requires
                d < b,
                0 <= w,
        ;
    }
}

proof fn lemma_disk_bounds(dx: int, dy: int, r: int)
    requires
        r >= 0,
        dx * dx + dy * dy <= r * r,
    ensures
        -r <= dx <= r,
        -r <= dy <= r,
{
    assert(dx * dx >= 0 && dy * dy >= 0) by (nonlinear_arith);
    if dx > r || dx < -r {
        assert(dx * dx > r * r) by (nonlinear_arith)
            requires
                dx > r || dx < -r,
                r >= 0,
        ;
    }
    if dy > r || dy < -r {
        assert(dy * dy > r * r) by (nonlinear_arith)
            requires
                dy > r || dy < -r,
                r >= 0,
        ;
    }
}

/// The square of `d`, through its absolute value.
fn square_abs(d: i128, r: u128) -> (s: u128)
    requires
        -r <= d <= r,
        r < 0x1_0000_0000_0000_0000,
    ensures
        s == d * d,
        s <= r * r,
{
    let a: u128 = if d < 0 { (-d) as u128 } else { d as u128 };
    assert(a * a == d * d) by (nonlinear_arith)
        requires
            a == d || a == -d,
    ;
    assert(a * a <= r * r) by (nonlinear_arith)
        requires
            0 <= a <= r,
    ;
    assert(r * r < 0x1_0000_0000_0000_0000_0000_0000_0000_0000) by (nonlinear_arith)
        requires
            0 <= r < 0x1_0000_0000_0000_0000,
    ;
    a * a
}

impl SandGame {
    /// Fills every grid cell within distance `radius` of `(x, y)` with a
    /// fresh cell of the kind with id `cell_type` (an unknown id clears), and
    /// marks each filled cell's chunk active. `y` counts rows from the top;
    /// positions outside the grid are skipped.
    pub fn spawn_in_radius(&mut self, x: usize, y: usize, radius: usize, cell_type: u8)
        requires
            old(self).wf(),
        ensures
            spawn_outcome(old(self)@, final(self)@, x as int, y as int, radius as int, spawn_kind(cell_type)),
    {
        let ghost g0 = self@;
        let ghost (xi, yi, ri) = (x as int, y as int, radius as int);
        let kind = match Cell::from_id(cell_type) {
            Some(k) => k,
            None => Cell::Empty,
        };
        let width = self.get_width();
        let height = self.get_height();
        if width == 0 || height == 0 {
            proof {
                assert forall|c: int| 0 <= c < g0.active.len() implies !disk_touches_chunk(g0, xi, yi, ri, c) by {}
            }
            return;
        }
        let w = width as i128;
        let h = height as i128;
        let r = radius as i128;
        let center_row: i128 = h - 1 - y as i128;
        let row_lo: i128 = if center_row - r > 0 { center_row - r } else { 0 };
        let row_hi: i128 = if center_row + r < h - 1 { center_row + r } else { h - 1 };
        let col_lo: i128 = if x as i128 - r > 0 { x as i128 - r } else { 0 };
        let col_hi: i128 = if x as i128 + r < w - 1 { x as i128 + r } else { w - 1 };
        proof {
            assert forall|a: int, b: int|
                #![trigger g0.in_grid(a, b)]
                g0.in_grid(a, b) && in_disk(g0, xi, yi, ri, a, b) implies row_lo <= b <= row_hi && col_lo <= a
                <= col_hi by {
                lemma_disk_bounds(a - xi, b - (g0.height - 1 - yi), ri);
            }
        }
        if row_lo > row_hi || col_lo > col_hi {
            proof {
                assert forall|c: int| 0 <= c < g0.active.len() implies !disk_touches_chunk(g0, xi, yi, ri, c) by {
                    if disk_touches_chunk(g0, xi, yi, ri, c) {
                        let (a, b) = choose|a: int, b: int|
                            c == #[trigger] g0.chunk_of(a, b) && g0.in_grid(a, b) && in_disk(g0, xi, yi, ri, a, b);
                        assert(g0.in_grid(a, b));
                    }
                }
                assert(self@.active =~= g0.active);
            }
            return;
        }
        let first_row = row_lo as usize;
        let last_row = row_hi as usize;
        let first_col = col_lo as usize;
        let last_col = col_hi as usize;
        let rr: u128 = radius as u128;
        let mut gy: usize = first_row;
        proof {
            assert forall|c: int| 0 <= c < g0.active.len() implies (#[trigger] self@.active[c] <==> (g0.active[c]
                || exists|a: int, b: int|
                c == #[trigger] g0.chunk_of(a, b) && done(g0, xi, yi, ri, a, b, first_col as int, gy as int))) by {
                if exists|a: int, b: int|
                    c == #[trigger] g0.chunk_of(a, b) && done(g0, xi, yi, ri, a, b, first_col as int, gy as int) {
                    let (a, b) = choose|a: int, b: int|
                        c == #[trigger] g0.chunk_of(a, b) && done(g0, xi, yi, ri, a, b, first_col as int, gy as int);
                    assert(g0.in_grid(a, b));
                }
            }
        }
        while gy <= last_row
            invariant
                first_row <= gy <= last_row + 1,
                last_row < height,
                first_col <= last_col < width,
                row_lo == first_row,
                row_hi == last_row,
                col_lo == first_col,
                col_hi == last_col,
                width == g0.width,
                height == g0.height,
                g0.wf(),
                (xi, yi, ri) == (x as int, y as int, radius as int),
                center_row == g0.height - 1 - yi,
                kind == spawn_kind(cell_type),
                rr == radius,
                r == radius,
                col_lo >= x - r && col_hi <= x + r,
                row_lo >= center_row - r && row_hi <= center_row + r,
                forall|a: int, b: int|
                    #![trigger g0.in_grid(a, b)]
                    g0.in_grid(a, b) && in_disk(g0, xi, yi, ri, a, b) ==> row_lo <= b <= row_hi && col_lo <= a <= col_hi,
                spawned_before(g0, self@, xi, yi, ri, kind, first_col as int, gy as int),
            decreases last_row + 1 - gy,
        {
            let mut gx: usize = first_col;
            while gx <= last_col
                invariant
                    first_row <= gy <= last_row,
                    first_col <= gx <= last_col + 1,
                    last_row < height,
                    last_col < width,
                    col_lo == first_col,
                    col_hi == last_col,
                    width == g0.width,
                    height == g0.height,
                    g0.wf(),
                    (xi, yi, ri) == (x as int, y as int, radius as int),
                    center_row == g0.height - 1 - yi,
                    kind == spawn_kind(cell_type),
                    rr == radius,
                    r == radius,
                    col_lo >= x - r && col_hi <= x + r,
                    row_lo >= center_row - r && row_hi <= center_row + r,
                    row_lo <= gy <= row_hi,
                    forall|a: int, b: int|
                        #![trigger g0.in_grid(a, b)]
                        g0.in_grid(a, b) && in_disk(g0, xi, yi, ri, a, b) ==> row_lo <= b <= row_hi && col_lo <= a
                            <= col_hi,
                    spawned_before(g0, self@, xi, yi, ri, kind, gx as int, gy as int),
                decreases last_col + 1 - gx,
            {
                let ghost g1 = self@;
                let dx: i128 = gx as i128 - x as i128;
                let dy: i128 = gy as i128 - center_row;
                let sx = square_abs(dx, rr);
                let sy = square_abs(dy, rr);
                let rsq = square_abs(r, rr);
                let inside = sx <= rsq - sy;
                assert(inside == in_disk(g0, xi, yi, ri, gx as int, gy as int));
                if inside {
                    proof {
                        g0.lemma_bounds();
                        assert(g0.in_grid(gx as int, gy as int));
                    }
                    let ghost i = g0.index_of(gx as int, gy as int);
                    self.place_fresh(gx, gy, kind);
                    proof {
                        let g2 = self@;
                        let c0 = g0.chunk_of(gx as int, gy as int);
                        assert forall|a: int, b: int| #[trigger] g0.in_grid(a, b) implies if done(g0, xi, yi, ri, a, b, gx + 1, gy as int) {
                            fresh_cell_of(g2.cell(a, b), kind)
                        } else {
                            g2.cell(a, b) == g0.cell(a, b)
                        } by {
                            if a != gx || b != gy {
                                if g0.index_of(a, b) == i {
                                    lemma_index_injective(g0.width as int, a, b, gx as int, gy as int);
                                }
                                assert(0 <= g0.index_of(a, b) < g0.cells.len());
                                assert(g2.cell(a, b) == g1.cell(a, b));
                            }
                        }
                        assert forall|c: int| 0 <= c < g2.active.len() implies (#[trigger] g2.active[c] <==> (g0.active[c]
                            || exists|a: int, b: int|
                            c == #[trigger] g0.chunk_of(a, b) && done(g0, xi, yi, ri, a, b, gx + 1, gy as int))) by {
                            if c == c0 {
                                assert(c == g0.chunk_of(gx as int, gy as int) && done(g0, xi, yi, ri, gx as int, gy as int, gx + 1, gy as int));
                            } else {
                                if exists|a: int, b: int|
                                    c == #[trigger] g0.chunk_of(a, b) && done(g0, xi, yi, ri, a, b, gx + 1, gy as int) {
                                    let (a, b) = choose|a: int, b: int|
                                        c == #[trigger] g0.chunk_of(a, b) && done(g0, xi, yi, ri, a, b, gx + 1, gy as int);
                                    assert(c == g0.chunk_of(a, b) && done(g0, xi, yi, ri, a, b, gx as int, gy as int));
                                }
                                if exists|a: int, b: int|
                                    c == #[trigger] g0.chunk_of(a, b) && done(g0, xi, yi, ri, a, b, gx as int, gy as int) {
                                    let (a, b) = choose|a: int, b: int|
                                        c == #[trigger] g0.chunk_of(a, b) && done(g0, xi, yi, ri, a, b, gx as int, gy as int);
                                    assert(c == g0.chunk_of(a, b) && done(g0, xi, yi, ri, a, b, gx + 1, gy as int));
                                }
                            }
                        }
                    }
                } else {
                    proof {
                        let g2 = self@;
                        assert forall|a: int, b: int| #[trigger] g0.in_grid(a, b) implies (done(g0, xi, yi, ri, a, b, gx + 1, gy as int)
                            == done(g0, xi, yi, ri, a, b, gx as int, gy as int)) by {}
                        assert forall|c: int| 0 <= c < g2.active.len() implies (#[trigger] g2.active[c] <==> (g0.active[c]
                            || exists|a: int, b: int|
                            c == #[trigger] g0.chunk_of(a, b) && done(g0, xi, yi, ri, a, b, gx + 1, gy as int))) by {
                            if exists|a: int, b: int|
                                c == #[trigger] g0.chunk_of(a, b) && done(g0, xi, yi, ri, a, b, gx + 1, gy as int) {
                                let (a, b) = choose|a: int, b: int|
                                    c == #[trigger] g0.chunk_of(a, b) && done(g0, xi, yi, ri, a, b, gx + 1, gy as int);
                                assert(g0.in_grid(a, b));
                                assert(c == g0.chunk_of(a, b) && done(g0, xi, yi, ri, a, b, gx as int, gy as int));
                            }
                            if exists|a: int, b: int|
                                c == #[trigger] g0.chunk_of(a, b) && done(g0, xi, yi, ri, a, b, gx as int, gy as int) {
                                let (a, b) = choose|a: int, b: int|
                                    c == #[trigger] g0.chunk_of(a, b) && done(g0, xi, yi, ri, a, b, gx as int, gy as int);
                                assert(c == g0.chunk_of(a, b) && done(g0, xi, yi, ri, a, b, gx + 1, gy as int));
                            }
                        }
                    }
                }
                gx = gx + 1;
            }
            proof {
                let g2 = self@;
                let nx = first_col as int;
                let ny = gy + 1;
                assert forall|a: int, b: int| #[trigger] g0.in_grid(a, b) implies (done(g0, xi, yi, ri, a, b, nx, ny)
                    == done(g0, xi, yi, ri, a, b, last_col + 1, gy as int)) by {}
                assert forall|c: int| 0 <= c < g2.active.len() implies (#[trigger] g2.active[c] <==> (g0.active[c]
                    || exists|a: int, b: int| c == #[trigger] g0.chunk_of(a, b) && done(g0, xi, yi, ri, a, b, nx, ny))) by {
                    if exists|a: int, b: int| c == #[trigger] g0.chunk_of(a, b) && done(g0, xi, yi, ri, a, b, nx, ny) {
                        let (a, b) = choose|a: int, b: int|
                            c == #[trigger] g0.chunk_of(a, b) && done(g0, xi, yi, ri, a, b, nx, ny);
                        assert(g0.in_grid(a, b));
                        assert(c == g0.chunk_of(a, b) && done(g0, xi, yi, ri, a, b, last_col + 1, gy as int));
                    }
                    if exists|a: int, b: int|
                        c == #[trigger] g0.chunk_of(a, b) && done(g0, xi, yi, ri, a, b, last_col + 1, gy as int) {
                        let (a, b) = choose|a: int, b: int|
                            c == #[trigger] g0.chunk_of(a, b) && done(g0, xi, yi, ri, a, b, last_col + 1, gy as int);
                        assert(g0.in_grid(a, b));
                        assert(c == g0.chunk_of(a, b) && done(g0, xi, yi, ri, a, b, nx, ny));
                    }
                }
            }
            gy = gy + 1;
        }
        proof {
            let g2 = self@;
            let ny = last_row + 1;
            assert forall|a: int, b: int| #[trigger] g0.in_grid(a, b) implies (done(g0, xi, yi, ri, a, b, first_col as int, ny)
                == in_disk(g0, xi, yi, ri, a, b)) by {}
            assert forall|c: int| 0 <= c < g2.active.len() implies (#[trigger] g2.active[c] <==> (g0.active[c]
                || disk_touches_chunk(g0, xi, yi, ri, c))) by {
                if disk_touches_chunk(g0, xi, yi, ri, c) {
                    let (a, b) = choose|a: int, b: int|
                        c == #[trigger] g0.chunk_of(a, b) && g0.in_grid(a, b) && in_disk(g0, xi, yi, ri, a, b);
                    assert(g0.in_grid(a, b));
                    assert(c == g0.chunk_of(a, b) && done(g0, xi, yi, ri, a, b, first_col as int, ny));
                }
                if exists|a: int, b: int| c == #[trigger] g0.chunk_of(a, b) && done(g0, xi, yi, ri, a, b, first_col as int, ny) {
                    let (a, b) = choose|a: int, b: int|
                        c == #[trigger] g0.chunk_of(a, b) && done(g0, xi, yi, ri, a, b, first_col as int, ny);
                    assert(g0.in_grid(a, b));
                }
            }
        }
    }
}

} // verus!
