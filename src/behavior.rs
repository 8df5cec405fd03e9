use crate::elements::{behavior_of, Behavior, Cell, GridCell};
use crate::game::{swapped, GameView, SandGame, GRAVITY_ACCEL, MAX_VELOCITY, VELOCITY_SCALE};
use crate::spawn::lemma_index_injective;
use crate::random::coin_flip;
use vstd::prelude::*;

verus! {

/// The first position of `dirs`, from entry `i` on, that is in the grid and
/// empty.
pub open spec fn first_empty_from(g: GameView, dirs: Seq<(usize, usize)>, i: int) -> Option<(usize, usize)>
    decreases dirs.len() - i,
{
    if i < 0 || i >= dirs.len() {
        None
    } else if g.is_empty_at(dirs[i].0 as int, dirs[i].1 as int) {
        Some(dirs[i])
    } else {
        first_empty_from(g, dirs, i + 1)
    }
}

pub open spec fn first_empty(g: GameView, dirs: Seq<(usize, usize)>) -> Option<(usize, usize)> {
    first_empty_from(g, dirs, 0)
}

/// The neighbours of column `x` in row `row`, left one first or right one
/// first; there is no left one in column 0.
pub open spec fn side_dirs(x: usize, row: usize, left_first: bool) -> Seq<(usize, usize)> {
    if x == 0 {
        seq![((x + 1) as usize, row)]
    } else if left_first {
        seq![((x - 1) as usize, row), ((x + 1) as usize, row)]
    } else {
        seq![((x + 1) as usize, row), ((x - 1) as usize, row)]
    }
}

/// What a rising gas tries after straight up: both up-diagonals, then both
/// sides, each pair in the same order.
pub open spec fn gas_dirs(x: usize, y: usize, left_first: bool) -> Seq<(usize, usize)> {
    let up = (y + 1) as usize;
    if x == 0 {
        seq![((x + 1) as usize, up), ((x + 1) as usize, y)]
    } else if left_first {
        seq![((x - 1) as usize, up), ((x + 1) as usize, up), ((x - 1) as usize, y), ((x + 1) as usize, y)]
    } else {
        seq![((x + 1) as usize, up), ((x - 1) as usize, up), ((x + 1) as usize, y), ((x - 1) as usize, y)]
    }
}

/// Where one fall move from `(x, y)` goes: straight down, else the first
/// empty down-diagonal, else (when `allow_horizontal`) the first empty side.
pub open spec fn fall_target(
    g: GameView,
    x: usize,
    y: usize,
    allow_horizontal: bool,
    diagonal_left_first: bool,
    side_left_first: bool,
) -> Option<(usize, usize)> {
    if y == 0 {
        None
    } else if g.is_empty_at(x as int, y - 1) {
        Some((x, (y - 1) as usize))
    } else {
        match first_empty(g, side_dirs(x, (y - 1) as usize, diagonal_left_first)) {
            Some(p) => Some(p),
            None => if allow_horizontal {
                first_empty(g, side_dirs(x, y, side_left_first))
            } else {
                None
            },
        }
    }
}

/// A fall move from `(x, y)` is possible, whatever order the diagonals and
/// sides are tried in.
pub open spec fn can_fall(g: GameView, x: int, y: int, allow_horizontal: bool) -> bool {
    &&& y > 0
    &&& {
        ||| g.is_empty_at(x, y - 1)
        ||| g.is_empty_at(x - 1, y - 1)
        ||| g.is_empty_at(x + 1, y - 1)
        ||| allow_horizontal && (g.is_empty_at(x - 1, y) || g.is_empty_at(x + 1, y))
    }
}

/// Where a gas at `(x, y)` moves: straight up, else the first empty position
/// of `gas_dirs`.
pub open spec fn gas_target(g: GameView, x: usize, y: usize, left_first: bool) -> Option<(usize, usize)> {
    if g.is_empty_at(x as int, y + 1) {
        Some((x, (y + 1) as usize))
    } else {
        first_empty(g, gas_dirs(x, y, left_first))
    }
}

/// A gas at `(x, y)` can move, whatever order it tries the directions in.
pub open spec fn can_rise(g: GameView, x: int, y: int) -> bool {
    ||| g.is_empty_at(x, y + 1)
    ||| g.is_empty_at(x - 1, y + 1)
    ||| g.is_empty_at(x + 1, y + 1)
    ||| g.is_empty_at(x - 1, y)
    ||| g.is_empty_at(x + 1, y)
}

/// The cell at `(x, y)` has a move open to it under its kind's rule.
pub open spec fn can_move(g: GameView, x: int, y: int) -> bool {
    match behavior_of(g.kind_at(x, y)) {
        Behavior::MovableSolid => can_fall(g, x, y, false),
        Behavior::Liquid => can_fall(g, x, y, true),
        Behavior::Gas => can_rise(g, x, y),
        Behavior::Inert => false,
    }
}

/// No cell in an active chunk has a move open to it.
pub open spec fn settled(g: GameView) -> bool {
    forall|x: int, y: int|
        #![trigger g.in_grid(x, y)]
        g.in_grid(x, y) && g.chunk_active(x / (g.chunk_size as int), y / (g.chunk_size as int)) ==> !can_move(g, x, y)
}

/// The two cell sequences hold the same kind at each position.
pub open spec fn same_kinds(a: Seq<GridCell>, b: Seq<GridCell>) -> bool {
    a.len() == b.len() && forall|i: int| 0 <= i < a.len() ==> (#[trigger] a[i]).cell_type == b[i].cell_type
}

/// The two cell sequences hold the same kind and color at each position.
pub open spec fn same_matter(a: Seq<GridCell>, b: Seq<GridCell>) -> bool {
    &&& a.len() == b.len()
    &&& forall|i: int|
        0 <= i < a.len() ==> (#[trigger] a[i]).cell_type == b[i].cell_type && a[i].color == b[i].color
}

/// `g` with the cell at `(x, y)` stamped as visited in tick `frame`.
pub open spec fn stamped(g: GameView, x: int, y: int, frame: u64) -> GameView {
    GameView {
        cells: g.cells.update(g.index_of(x, y), GridCell { last_processed_frame: frame, ..g.cell(x, y) }),
        ..g
    }
}

/// From `g0` to `g1` the movement rule of the kind at `(x, y)` ran, and
/// the cell moved iff `moved`.
pub open spec fn behavior_outcome(g0: GameView, g1: GameView, x: int, y: int, moved: bool) -> bool {
    match behavior_of(g0.kind_at(x, y)) {
        Behavior::MovableSolid => fall_outcome(g0, g1, x, y, false, moved),
        Behavior::Liquid => fall_outcome(g0, g1, x, y, true, moved),
        Behavior::Gas => rise_outcome(g0, g1, x, y, moved),
        Behavior::Inert => !moved && g1 == g0,
    }
}

/// What a visit of the scheduler to `(x, y)` does to `g0`, giving `g1`, in
/// terms that do not depend on the kind: the cell moves iff a move is open
/// to it; where it does not, only its velocity and stamp may change; where
/// it does, it lands stamped on a position that was empty, and nothing else
/// non-empty moves; every non-empty cell that changed carries the stamp.
pub open spec fn visit_summary(g0: GameView, g1: GameView, x: int, y: int, moved: bool) -> bool {
    let s = g0.index_of(x, y);
    &&& g1.same_but_cells(g0)
    &&& g1.kind_counts() == g0.kind_counts()
    &&& g1.matter() == g0.matter()
    &&& g1.cells.len() == g0.cells.len()
    &&& moved == can_move(g0, x, y)
    &&& !moved ==> g1.cells[s].cell_type == g0.cells[s].cell_type && g1.cells[s].color == g0.cells[s].color
    &&& !moved ==> forall|j: int| 0 <= j < g0.cells.len() && j != s ==> #[trigger] g1.cells[j] == g0.cells[j]
    &&& moved ==> exists|f: int|
        0 <= f < g0.cells.len() && f != s && g0.cells[f].cell_type == Cell::Empty && (#[trigger] g1.cells[f]).cell_type
            != Cell::Empty && g1.cells[f].last_processed_frame == g0.frame && moved_alone(g0, g1, s, f)
    &&& forall|j: int|
        0 <= j < g0.cells.len() && (#[trigger] g1.cells[j]).cell_type != Cell::Empty && g1.cells[j] != g0.cells[j]
            ==> g1.cells[j].last_processed_frame == g0.frame
}

/// A visit, stamping then running the kind's rule, meets `visit_summary`.
pub proof fn lemma_visit_summary(g0: GameView, g1: GameView, x: int, y: int, moved: bool)
    requires
        g0.wf(),
        g0.in_grid(x, y),
        g1.wf(),
        behavior_outcome(stamped(g0, x, y, g0.frame), g1, x, y, moved),
        stamped(g0, x, y, g0.frame).kind_counts() == g0.kind_counts(),
        stamped(g0, x, y, g0.frame).matter() == g0.matter(),
    ensures
        visit_summary(g0, g1, x, y, moved),
{
    let gs = stamped(g0, x, y, g0.frame);
    let s = g0.index_of(x, y);
    g0.lemma_bounds();
    assert(0 <= s < g0.cells.len());
    assert(same_kinds(gs.cells, g0.cells));
    lemma_same_kinds_can_move(g0, gs, x, y);
    assert(gs.kind_at(x, y) == g0.kind_at(x, y));
    assert(gs.wf());
    if moved {
        let f = if behavior_of(g0.kind_at(x, y)) == Behavior::Gas {
            let (fx, fy) = choose|fx: int, fy: int| #[trigger] gs.is_empty_at(fx, fy) && y <= fy <= y + 1 && (fx == x - 1
                || fx == x + 1 || (fx == x && fy == y + 1)) && g1.cells == swapped(gs.cells, gs.index_of(x, y), gs.index_of(fx, fy))
                && moved_alone(gs, g1, gs.index_of(x, y), gs.index_of(fx, fy));
            assert(gs.in_grid(fx, fy));
            assert(g0.in_grid(fx, fy));
            let f = g0.index_of(fx, fy);
            if f == s {
                crate::spawn::lemma_index_injective(g0.width as int, fx, fy, x, y);
            }
            assert(g1.cells[f] == gs.cells[s]);
            f
        } else {
            let ah = behavior_of(g0.kind_at(x, y)) == Behavior::Liquid;
            let (fx, fy) = choose|fx: int, fy: int| #[trigger] fell_to(gs, g1, x, y, fx, fy, ah);
            assert(g0.in_grid(fx, fy));
            let f = g0.index_of(fx, fy);
            if f == s {
                crate::spawn::lemma_index_injective(g0.width as int, fx, fy, x, y);
            }
            assert(g1.cells[f] == landed(gs.cells[s]));
            f
        };
        assert(0 <= f < g0.cells.len());
        assert(moved_alone(gs, g1, s, f));
        assert(gs.cells[f] == g0.cells[f]);
        assert(moved_alone(g0, g1, s, f)) by {
            assert forall|j: int|
                0 <= j < g0.cells.len() && j != s && g0.cells[j].cell_type != Cell::Empty implies #[trigger] g1.cells[j]
                == g0.cells[j] by {
                assert(gs.cells[j] == g0.cells[j]);
            }
            assert forall|j: int| 0 <= j < g0.cells.len() && j != s && j != f implies (#[trigger] g1.cells[j]).cell_type
                == g0.cells[j].cell_type by {
                assert(gs.cells[j] == g0.cells[j]);
            }
        }
        assert forall|j: int|
            0 <= j < g0.cells.len() && (#[trigger] g1.cells[j]).cell_type != Cell::Empty && g1.cells[j] != g0.cells[j]
                implies g1.cells[j].last_processed_frame == g0.frame by {
            if j != s && j != f {
                assert(gs.cells[j] == g0.cells[j]);
            }
        }
        assert(g1.cells[f].cell_type != Cell::Empty);
    } else {
        assert forall|j: int| 0 <= j < g0.cells.len() && j != s implies #[trigger] g1.cells[j] == g0.cells[j] by {
            assert(gs.cells[j] == g0.cells[j]);
        }
    }
}

/// Whether a move is open depends on the kinds of the cells alone.
pub proof fn lemma_same_kinds_can_move(g0: GameView, g1: GameView, x: int, y: int)
    requires
        g0.wf(),
        g1.width == g0.width,
        g1.height == g0.height,
        same_kinds(g1.cells, g0.cells),
        g0.in_grid(x, y),
    ensures
        can_move(g1, x, y) == can_move(g0, x, y),
{
    g0.lemma_bounds();
    assert forall|a: int, b: int| #[trigger] g1.is_empty_at(a, b) == g0.is_empty_at(a, b) by {
        if g0.in_grid(a, b) {
            assert(0 <= g0.index_of(a, b) < g0.cells.len());
        }
    }
    assert(g1.kind_at(x, y) == g0.kind_at(x, y));
}

/// Rows a falling cell of velocity `v` tries to cross in one tick.
pub open spec fn fall_rows(v: u32) -> int {
    v / VELOCITY_SCALE + 1
}

/// Velocity after a tick in which a cell of velocity `v` moved.
pub open spec fn next_velocity(v: u32) -> u32 {
    if v + GRAVITY_ACCEL < MAX_VELOCITY {
        (v + GRAVITY_ACCEL) as u32
    } else {
        MAX_VELOCITY
    }
}

/// The `n` cells straight below `(x, y)` are all empty.
pub open spec fn free_fall(g: GameView, x: int, y: int, n: int) -> bool {
    n <= y && forall|k: int| 1 <= k <= n ==> #[trigger] g.is_empty_at(x, y - k)
}

/// `old` with the cell at `(x, y)` given velocity `v`.
pub open spec fn with_velocity(g: GameView, x: int, y: int, v: u32) -> Seq<GridCell> {
    g.cells.update(g.index_of(x, y), GridCell { velocity: v, ..g.cell(x, y) })
}

/// The cell `c` after a tick in which it fell.
pub open spec fn landed(c: GridCell) -> GridCell {
    GridCell { velocity: next_velocity(c.velocity), ..c }
}

/// The down and down-diagonal neighbours of `(x, y)` all hold something or
/// lie outside the grid.
pub open spec fn blocked_below(g: GameView, x: int, y: int) -> bool {
    !g.is_empty_at(x, y - 1) && !g.is_empty_at(x - 1, y - 1) && !g.is_empty_at(x + 1, y - 1)
}

/// From `g0` to `g1` only the cell at grid position `s` moved, to `f`: every
/// other position keeps its kind, every other non-empty cell stays as it
/// was, and where it moved, `f` was empty and `s` is left empty.
pub open spec fn moved_alone(g0: GameView, g1: GameView, s: int, f: int) -> bool {
    &&& forall|j: int| 0 <= j < g0.cells.len() && j != s && j != f ==> (#[trigger] g1.cells[j]).cell_type == g0.cells[j].cell_type
    &&& forall|j: int|
        0 <= j < g0.cells.len() && j != s && g0.cells[j].cell_type != Cell::Empty ==> #[trigger] g1.cells[j] == g0.cells[j]
    &&& s != f ==> g0.cells[f].cell_type == Cell::Empty && g1.cells[s].cell_type == Cell::Empty
}

/// Moving from row `y` down to row `fy`, the column changed by at most one
/// per row, plus one for a last sideways hop where `allow_horizontal`.
pub open spec fn drift_ok(x: int, y: int, fx: int, fy: int, allow_horizontal: bool) -> bool {
    let e: int = if allow_horizontal { 1 } else { 0 };
    x - (y - fy) - e <= fx <= x + (y - fy) + e
}

/// After a fall tick from `(x, y)` in `g0`, giving `g1`, the cell rests at
/// `(fx, fy)` with its velocity raised: at most `fall_rows` of its velocity
/// lower, never higher, lower for a solid, in the same row only for a liquid
/// that could go neither down nor down-diagonally; every other cell stayed.
pub open spec fn fell_to(g0: GameView, g1: GameView, x: int, y: int, fx: int, fy: int, allow_horizontal: bool) -> bool {
    &&& g0.in_grid(fx, fy)
    &&& fy <= y
    &&& y - fy <= fall_rows(g0.cell(x, y).velocity)
    &&& (fx != x || fy != y)
    &&& allow_horizontal || fy < y
    &&& blocked_below(g0, x, y) ==> fy == y
    &&& drift_ok(x, y, fx, fy, allow_horizontal)
    &&& g1.cell(fx, fy) == landed(g0.cell(x, y))
    &&& moved_alone(g0, g1, g0.index_of(x, y), g0.index_of(fx, fy))
}

/// The state after a fall tick of the cell at `(x, y)` in `g0`, in which it
/// moved iff `moved`, as far as it is fixed whatever the random order of the
/// tries.
pub open spec fn fall_outcome(g0: GameView, g1: GameView, x: int, y: int, allow_horizontal: bool, moved: bool) -> bool {
    let v = g0.cell(x, y).velocity;
    &&& g1.same_but_cells(g0)
    &&& g1.kind_counts() == g0.kind_counts()
    &&& !g0.in_grid(x, y) ==> !moved && g1.cells == g0.cells
    &&& g0.in_grid(x, y) ==> moved == can_fall(g0, x, y, allow_horizontal)
    &&& g0.in_grid(x, y) && !moved ==> g1.cells == with_velocity(g0, x, y, 0)
    &&& g1.matter() == g0.matter()
    &&& moved ==> exists|fx: int, fy: int| #[trigger] fell_to(g0, g1, x, y, fx, fy, allow_horizontal)
    &&& g0.in_grid(x, y) && free_fall(g0, x, y, fall_rows(v)) ==> g1.cell(x, y - fall_rows(v)) == landed(g0.cell(x, y))
}

/// The state after a gas tick of the cell at `(x, y)` in `g0`, in which it
/// moved iff `moved`, whatever the random order of the tries.
pub open spec fn rise_outcome(g0: GameView, g1: GameView, x: int, y: int, moved: bool) -> bool {
    &&& g1.same_but_cells(g0)
    &&& g1.kind_counts() == g0.kind_counts()
    &&& moved == (g0.in_grid(x, y) && can_rise(g0, x, y))
    &&& !moved ==> g1.cells == g0.cells
    &&& g1.matter() == g0.matter()
    &&& moved ==> exists|fx: int, fy: int| #[trigger] g0.is_empty_at(fx, fy) && y <= fy <= y + 1 && (fx == x - 1
        || fx == x + 1 || (fx == x && fy == y + 1)) && g1.cells == swapped(g0.cells, g0.index_of(x, y), g0.index_of(fx, fy))
        && moved_alone(g0, g1, g0.index_of(x, y), g0.index_of(fx, fy))
    &&& moved ==> exists|lf: bool| #[trigger] gas_target(g0, x as usize, y as usize, lf) matches Some(p) && g1.cells
        == swapped(g0.cells, g0.index_of(x, y), g0.index_of(p.0 as int, p.1 as int))
    &&& g0.in_grid(x, y) && g0.is_empty_at(x, y + 1) ==> g1.cells == swapped(g0.cells, g0.index_of(x, y), g0.index_of(x, y + 1))
}

/// One more move, from `cu` into the empty position `t`, keeps `moved_alone`
/// with the mover now at `t`.
proof fn lemma_moved_alone_step(g0: GameView, cur: GameView, new: GameView, s: int, cu: int, t: int)
    requires
        moved_alone(g0, cur, s, cu),
        cur.cells.len() == g0.cells.len(),
        new.cells == swapped(cur.cells, cu, t),
        0 <= s < g0.cells.len(),
        0 <= cu < g0.cells.len(),
        0 <= t < g0.cells.len(),
        t != s,
        t != cu,
        cur.cells[t].cell_type == Cell::Empty,
    ensures
        moved_alone(g0, new, s, t),
{
    assert forall|j: int| 0 <= j < g0.cells.len() && j != s && g0.cells[j].cell_type != Cell::Empty implies #[trigger] new.cells[j]
        == g0.cells[j] by {
        assert(cur.cells[j] == g0.cells[j]);
    }
    assert forall|j: int| 0 <= j < g0.cells.len() && j != s && j != t implies (#[trigger] new.cells[j]).cell_type
        == g0.cells[j].cell_type by {
        if j != cu {
            assert(new.cells[j] == cur.cells[j]);
        }
    }
    if g0.cells[t].cell_type != Cell::Empty {
        assert(cur.cells[t] == g0.cells[t]);
    }
}

/// Velocity after a tick: accelerated when the cell moved, else at rest.
fn velocity_after(v: u32, moved: bool) -> (r: u32)
    ensures
        r == if moved { next_velocity(v) } else { 0 },
{
    if !moved {
        0
    } else if v < MAX_VELOCITY - GRAVITY_ACCEL {
        v + GRAVITY_ACCEL
    } else {
        MAX_VELOCITY
    }
}

proof fn lemma_side_dirs(g: GameView, x: usize, row: usize, left_first: bool)
    requires
        x < usize::MAX,
    ensures
        first_empty(g, side_dirs(x, row, left_first)).is_some() <==> (g.is_empty_at(x - 1, row as int)
            || g.is_empty_at(x + 1, row as int)),
        first_empty(g, side_dirs(x, row, left_first)) matches Some(p) ==> p.1 == row && (p.0 == x - 1
            || p.0 == x + 1) && g.is_empty_at(p.0 as int, p.1 as int),
{
    reveal_with_fuel(first_empty_from, 3);
}

proof fn lemma_gas_dirs(g: GameView, x: usize, y: usize, left_first: bool)
    requires
        x < usize::MAX,
        y < usize::MAX,
    ensures
        first_empty(g, gas_dirs(x, y, left_first)).is_some() <==> (g.is_empty_at(x - 1, y + 1)
            || g.is_empty_at(x + 1, y + 1) || g.is_empty_at(x - 1, y as int) || g.is_empty_at(x + 1, y as int)),
        first_empty(g, gas_dirs(x, y, left_first)) matches Some(p) ==> (p.1 == y || p.1 == y + 1) && (p.0
            == x - 1 || p.0 == x + 1) && g.is_empty_at(p.0 as int, p.1 as int),
{
    reveal_with_fuel(first_empty_from, 5);
}

/// What one fall move does, whatever order it tries the neighbours in.
proof fn lemma_fall_target(g: GameView, x: usize, y: usize, allow_horizontal: bool, dl: bool, sl: bool)
    requires
        x < usize::MAX,
    ensures
        fall_target(g, x, y, allow_horizontal, dl, sl).is_some() <==> can_fall(g, x as int, y as int, allow_horizontal),
        fall_target(g, x, y, allow_horizontal, dl, sl) matches Some(p) ==> g.is_empty_at(p.0 as int, p.1 as int)
            && (p.0 == x - 1 || p.0 == x || p.0 == x + 1) && (p.1 == y - 1 || (allow_horizontal && p.1 == y
            && p.0 != x)),
        y > 0 && g.is_empty_at(x as int, y - 1) ==> fall_target(g, x, y, allow_horizontal, dl, sl) == Some(
            (x, (y - 1) as usize),
        ),
{
    if y > 0 {
        lemma_side_dirs(g, x, (y - 1) as usize, dl);
        lemma_side_dirs(g, x, y, sl);
    }
}

impl SandGame {
    /// The two down-diagonal neighbours of `(x, y)`, in the order the coin
    /// gives.
    pub fn gen_diagonal_dirs(x: usize, y: usize, left_first: bool) -> (r: Vec<(usize, usize)>)
        requires
            x < usize::MAX,
            y > 0,
        ensures
            r@ == side_dirs(x, (y - 1) as usize, left_first),
    {
        Self::gen_horizontal_dirs(x, y - 1, left_first)
    }

    /// The two side neighbours of `(x, y)`, in the order the coin gives.
    pub fn gen_horizontal_dirs(x: usize, y: usize, left_first: bool) -> (r: Vec<(usize, usize)>)
        requires
            x < usize::MAX,
        ensures
            r@ == side_dirs(x, y, left_first),
    {
        let r = if x == 0 {
            vec![(x + 1, y)]
        } else if left_first {
            vec![(x - 1, y), (x + 1, y)]
        } else {
            vec![(x + 1, y), (x - 1, y)]
        };
        assert(r@ =~= side_dirs(x, y, left_first));
        r
    }

    /// The directions a gas at `(x, y)` tries after straight up, in the order
    /// the coin gives.
    pub fn gen_gas_dirs(x: usize, y: usize, left_first: bool) -> (r: Vec<(usize, usize)>)
        requires
            x < usize::MAX,
            y < usize::MAX,
        ensures
            r@ == gas_dirs(x, y, left_first),
    {
        let r = if x == 0 {
            vec![(x + 1, y + 1), (x + 1, y)]
        } else if left_first {
            vec![(x - 1, y + 1), (x + 1, y + 1), (x - 1, y), (x + 1, y)]
        } else {
            vec![(x + 1, y + 1), (x - 1, y + 1), (x + 1, y), (x - 1, y)]
        };
        assert(r@ =~= gas_dirs(x, y, left_first));
        r
    }

    /// Moves the cell at grid position `from` into the first position of
    /// `dirs` that is in the grid and empty, and returns that position.
    pub fn try_move_in_directions(&mut self, from: usize, dirs: &Vec<(usize, usize)>) -> (r: Option<(usize, usize)>)
        requires
            old(self).wf(),
            from < old(self)@.cells.len(),
        ensures
            final(self).wf(),
            final(self)@.same_but_cells(old(self)@),
            final(self)@.kind_counts() == old(self)@.kind_counts(),
            final(self)@.matter() == old(self)@.matter(),
            r == first_empty(old(self)@, dirs@),
            r matches Some(p) ==> final(self)@.cells == swapped(
                old(self)@.cells,
                from as int,
                old(self)@.index_of(p.0 as int, p.1 as int),
            ),
            r is None ==> final(self)@.cells == old(self)@.cells,
    {
        let mut i: usize = 0;
        while i < dirs.len()
            invariant
                self.wf(),
                from < self@.cells.len(),
                self@ == old(self)@,
                i <= dirs@.len(),
                first_empty(old(self)@, dirs@) == first_empty_from(old(self)@, dirs@, i as int),
            decreases dirs@.len() - i,
        {
            let (nx, ny) = dirs[i];
            if self.try_move(from, nx, ny) {
                return Some((nx, ny));
            }
            i = i + 1;
        }
        None
    }

    /// One fall move of the cell at `(x, y)`, with the order of the diagonals
    /// and of the sides given. Returns where it went.
    pub fn fall_once(
        &mut self,
        x: usize,
        y: usize,
        allow_horizontal: bool,
        diagonal_left_first: bool,
        side_left_first: bool,
    ) -> (r: Option<(usize, usize)>)
        requires
            old(self).wf(),
            old(self)@.in_grid(x as int, y as int),
        ensures
            final(self).wf(),
            final(self)@.same_but_cells(old(self)@),
            final(self)@.kind_counts() == old(self)@.kind_counts(),
            final(self)@.matter() == old(self)@.matter(),
            r == fall_target(old(self)@, x, y, allow_horizontal, diagonal_left_first, side_left_first),
            r matches Some(p) ==> final(self)@.cells == swapped(
                old(self)@.cells,
                old(self)@.index_of(x as int, y as int),
                old(self)@.index_of(p.0 as int, p.1 as int),
            ),
            r is None ==> final(self)@.cells == old(self)@.cells,
    {
        if y == 0 {
            return None;
        }
        let from = match self.index(x, y) {
            Some(i) => i,
            None => return None,
        };
        if self.try_move(from, x, y - 1) {
            return Some((x, y - 1));
        }
        let diagonals = Self::gen_diagonal_dirs(x, y, diagonal_left_first);
        match self.try_move_in_directions(from, &diagonals) {
            Some(p) => Some(p),
            None => {
                if allow_horizontal {
                    let sides = Self::gen_horizontal_dirs(x, y, side_left_first);
                    self.try_move_in_directions(from, &sides)
                } else {
                    None
                }
            },
        }
    }
}

impl SandGame {
    /// Lets the cell at `(start_x, start_y)` fall for one tick: up to
    /// `fall_rows` of its velocity moves, each straight down or down-diagonal,
    /// with one last sideways hop allowed when `allow_horizontal`. Returns
    /// whether it moved, where it ended and its velocity before the tick.
    #[verifier::rlimit(100)]
    fn perform_fall(&mut self, start_x: usize, start_y: usize, allow_horizontal: bool) -> (r: (bool, usize, usize, u32))
        requires
            old(self).wf(),
            old(self)@.in_grid(start_x as int, start_y as int),
        ensures
            final(self).wf(),
            final(self)@.same_but_cells(old(self)@),
            final(self)@.kind_counts() == old(self)@.kind_counts(),
            final(self)@.matter() == old(self)@.matter(),
            r.3 == old(self)@.cell(start_x as int, start_y as int).velocity,
            r.0 == can_fall(old(self)@, start_x as int, start_y as int, allow_horizontal),
            old(self)@.in_grid(r.1 as int, r.2 as int),
            final(self)@.cell(r.1 as int, r.2 as int) == old(self)@.cell(start_x as int, start_y as int),
            r.2 <= start_y,
            r.0 <==> (r.1 != start_x || r.2 != start_y),
            !allow_horizontal ==> (r.0 <==> r.2 < start_y),
            !r.0 ==> final(self)@.cells == old(self)@.cells,
            free_fall(old(self)@, start_x as int, start_y as int, fall_rows(r.3)) ==> r.1 == start_x && r.2
                == start_y - fall_rows(r.3),
            start_y - r.2 <= fall_rows(r.3),
            drift_ok(start_x as int, start_y as int, r.1 as int, r.2 as int, allow_horizontal),
            blocked_below(old(self)@, start_x as int, start_y as int) ==> r.2 == start_y,
            moved_alone(
                old(self)@,
                final(self)@,
                old(self)@.index_of(start_x as int, start_y as int),
                old(self)@.index_of(r.1 as int, r.2 as int),
            ),
    {
        let start = match self.index(start_x, start_y) {
            Some(i) => i,
            None => return (false, start_x, start_y, 0),
        };
        let velocity = self.cell_at_index(start).velocity;
        let steps: u32 = velocity / VELOCITY_SCALE + 1;
        let ghost g0 = self@;
        let ghost w = g0.width as int;
        let mut cx = start_x;
        let mut cy = start_y;
        let mut moved = false;
        let mut k: u32 = 0;
        let ghost mut hopped = false;
        let ghost si = g0.index_of(start_x as int, start_y as int);
        while k < steps
            invariant_except_break
                k == 0 ==> !moved,
                !hopped,
            invariant
                self.wf(),
                self@.same_but_cells(g0),
                self@.kind_counts() == g0.kind_counts(),
                self@.matter() == g0.matter(),
                g0.wf(),
                w == g0.width,
                k <= steps,
                steps == fall_rows(velocity),
                velocity == g0.cell(start_x as int, start_y as int).velocity,
                g0.in_grid(cx as int, cy as int),
                cy <= start_y,
                self@.cell(cx as int, cy as int) == g0.cell(start_x as int, start_y as int),
                moved <==> (cx != start_x || cy != start_y),
                !allow_horizontal ==> (moved <==> cy < start_y),
                !moved ==> self@.cells == g0.cells,
                k > 0 ==> moved && cy < start_y && can_fall(g0, start_x as int, start_y as int, allow_horizontal),
                forall|i: int| 0 <= i < cy * w ==> self@.cells[i] == g0.cells[i],
                free_fall(g0, start_x as int, start_y as int, steps as int) ==> cx == start_x && cy == start_y - k,
                start_y - cy <= k,
                hopped ==> allow_horizontal,
                drift_ok(start_x as int, start_y as int, cx as int, cy as int, hopped),
                blocked_below(g0, start_x as int, start_y as int) ==> cy == start_y,
                si == g0.index_of(start_x as int, start_y as int),
                g0.in_grid(start_x as int, start_y as int),
                moved_alone(g0, self@, si, g0.index_of(cx as int, cy as int)),
            ensures
                self@.matter() == g0.matter(),
                start_y - cy <= steps,
                drift_ok(start_x as int, start_y as int, cx as int, cy as int, allow_horizontal),
                blocked_below(g0, start_x as int, start_y as int) ==> cy == start_y,
                moved_alone(g0, self@, si, g0.index_of(cx as int, cy as int)),
                self.wf(),
                self@.same_but_cells(g0),
                self@.kind_counts() == g0.kind_counts(),
                g0.in_grid(cx as int, cy as int),
                cy <= start_y,
                self@.cell(cx as int, cy as int) == g0.cell(start_x as int, start_y as int),
                moved <==> (cx != start_x || cy != start_y),
                !allow_horizontal ==> (moved <==> cy < start_y),
                !moved ==> self@.cells == g0.cells,
                moved == can_fall(g0, start_x as int, start_y as int, allow_horizontal),
                free_fall(g0, start_x as int, start_y as int, steps as int) ==> cx == start_x && cy == start_y - steps,
            decreases steps - k,
        {
            if cy == 0 {
                break;
            }
            let ghost g1 = self@;
            proof {
                if !moved {
                    assert(g1 == g0);
                }
            }
            let diagonal_left_first = coin_flip();
            let side_left_first = coin_flip();
            proof {
                lemma_fall_target(g1, cx, cy, allow_horizontal, diagonal_left_first, side_left_first);
                if free_fall(g0, start_x as int, start_y as int, steps as int) {
                    let below = g0.index_of(cx as int, cy - 1);
                    assert(g0.is_empty_at(start_x as int, start_y - (k + 1)));
                    assert(below < cy * w) by (nonlinear_arith)
                        requires
                            below == (cy - 1) * w + cx,
                            cx < w,
                    ;
                    assert(below >= 0) by (nonlinear_arith)
                        requires
                            below == (cy - 1) * w + cx,
                            cy >= 1,
                            w >= 0,
                            cx >= 0,
                    ;
                    assert(g1.is_empty_at(cx as int, cy - 1));
                }
            }
            match self.fall_once(cx, cy, allow_horizontal, diagonal_left_first, side_left_first) {
                Some((nx, ny)) => {
                    proof {
                        g0.lemma_bounds();
                        assert(g0.in_grid(cx as int, cy as int));
                        assert(g0.in_grid(nx as int, ny as int));
                        let from = g1.index_of(cx as int, cy as int);
                        let to = g1.index_of(nx as int, ny as int);
                        assert(ny * w <= cy * w) by (nonlinear_arith)
                            requires
                                ny <= cy,
                                w >= 0,
                        ;
                        assert(from >= cy * w && to >= ny * w);
                        assert(cy * w <= g0.cells.len()) by (nonlinear_arith)
                            requires
                                cy < g0.height,
                                w == g0.width,
                                g0.cells.len() == g0.width * g0.height,
                        ;
                        assert forall|i: int| 0 <= i < ny * w implies self@.cells[i] == g0.cells[i] by {
                            assert(i != from && i != to);
                            assert(i < cy * w);
                        }
                        assert(to != from) by {
                            if to == from {
                                lemma_index_injective(w, nx as int, ny as int, cx as int, cy as int);
                            }
                        }
                        assert(to != si) by {
                            if ny < start_y {
                                assert(to < start_y * w) by (nonlinear_arith)
                                    requires
                                        to == ny * w + nx,
                                        nx < w,
                                        ny < start_y,
                                ;
                            } else {
                                assert(k == 0);
                                assert(cx == start_x && cy == start_y);
                            }
                            if to == si {
                                lemma_index_injective(w, nx as int, ny as int, start_x as int, start_y as int);
                            }
                        }
                        assert(blocked_below(g0, start_x as int, start_y as int) ==> ny == cy) by {
                            if blocked_below(g0, start_x as int, start_y as int) && ny < cy {
                                assert(g1.is_empty_at(nx as int, ny as int));
                            }
                        }
                        assert(g0.in_grid(start_x as int, start_y as int));
                        lemma_moved_alone_step(g0, g1, self@, si, from, to);
                    }
                    moved = true;
                    if ny == cy {
                        cx = nx;
                        proof {
                            hopped = true;
                        }
                        break;
                    }
                    cx = nx;
                    cy = ny;
                },
                None => {
                    break;
                },
            }
            k = k + 1;
        }
        (moved, cx, cy, velocity)
    }

    /// A fall tick of the cell at `(x, y)`, then its new velocity: raised by
    /// `GRAVITY_ACCEL` up to `MAX_VELOCITY` where it moved, zero where not.
    fn fall_and_settle(&mut self, x: usize, y: usize, allow_horizontal: bool) -> (r: bool)
        requires
            old(self).wf(),
        ensures
            final(self).wf(),
            fall_outcome(old(self)@, final(self)@, x as int, y as int, allow_horizontal, r),
    {
        if self.index(x, y).is_none() {
            return false;
        }
        let ghost g0 = self@;
        let (moved, fx, fy, velocity) = self.perform_fall(x, y, allow_horizontal);
        let ghost g1 = self@;
        let final_index = match self.index(fx, fy) {
            Some(i) => i,
            None => return moved,
        };
        self.set_velocity(final_index, velocity_after(velocity, moved));
        proof {
            let v = g0.cell(x as int, y as int).velocity;
            if moved {
                assert(fell_to(g0, self@, x as int, y as int, fx as int, fy as int, allow_horizontal));
            }
            if free_fall(g0, x as int, y as int, fall_rows(v)) {
                assert(can_fall(g0, x as int, y as int, allow_horizontal)) by {
                    assert(g0.is_empty_at(x as int, y - 1));
                }
            }
        }
        moved
    }

    /// One tick of a movable solid at `(x, y)`: it falls up to `fall_rows`
    /// of its velocity, straight down or down-diagonally, never sideways.
    pub fn movable_solid_behavior(&mut self, x: usize, y: usize) -> (r: bool)
        requires
            old(self).wf(),
        ensures
            final(self).wf(),
            fall_outcome(old(self)@, final(self)@, x as int, y as int, false, r),
    {
        self.fall_and_settle(x, y, false)
    }

    /// One tick of a liquid at `(x, y)`: it falls like a solid, and where it
    /// can go neither down nor down-diagonally it may hop one cell sideways.
    pub fn liquid_behavior(&mut self, x: usize, y: usize) -> (r: bool)
        requires
            old(self).wf(),
        ensures
            final(self).wf(),
            fall_outcome(old(self)@, final(self)@, x as int, y as int, true, r),
    {
        self.fall_and_settle(x, y, true)
    }

    /// One move of a gas at `(x, y)`, with the order of the sides given:
    /// straight up, else the first empty position of `gas_dirs`.
    pub fn gas_move(&mut self, x: usize, y: usize, left_first: bool) -> (r: Option<(usize, usize)>)
        requires
            old(self).wf(),
            old(self)@.in_grid(x as int, y as int),
        ensures
            final(self).wf(),
            final(self)@.same_but_cells(old(self)@),
            final(self)@.kind_counts() == old(self)@.kind_counts(),
            final(self)@.matter() == old(self)@.matter(),
            r == gas_target(old(self)@, x, y, left_first),
            r matches Some(p) ==> final(self)@.cells == swapped(
                old(self)@.cells,
                old(self)@.index_of(x as int, y as int),
                old(self)@.index_of(p.0 as int, p.1 as int),
            ),
            r is None ==> final(self)@.cells == old(self)@.cells,
    {
        let from = match self.index(x, y) {
            Some(i) => i,
            None => return None,
        };
        if self.try_move(from, x, y + 1) {
            return Some((x, y + 1));
        }
        let dirs = Self::gen_gas_dirs(x, y, left_first);
        self.try_move_in_directions(from, &dirs)
    }

    /// One tick of a gas at `(x, y)`: it rises straight up, else moves to an
    /// empty up-diagonal or side neighbour, tried in a random order.
    pub fn gas_behavior(&mut self, x: usize, y: usize) -> (r: bool)
        requires
            old(self).wf(),
        ensures
            final(self).wf(),
            rise_outcome(old(self)@, final(self)@, x as int, y as int, r),
    {
        if self.index(x, y).is_none() {
            return false;
        }
        let ghost g0 = self@;
        let left_first = coin_flip();
        proof {
            lemma_gas_dirs(g0, x, y, left_first);
        }
        match self.gas_move(x, y, left_first) {
            Some((fx, fy)) => {
                proof {
                    let si = g0.index_of(x as int, y as int);
                    let t = g0.index_of(fx as int, fy as int);
                    g0.lemma_bounds();
                    assert(g0.in_grid(x as int, y as int));
                    assert(g0.is_empty_at(fx as int, fy as int));
                    if t == si {
                        lemma_index_injective(g0.width as int, fx as int, fy as int, x as int, y as int);
                    }
                    lemma_moved_alone_step(g0, g0, self@, si, si, t);
                    assert(gas_target(g0, x, y, left_first) matches Some(p) && self@.cells == swapped(
                        g0.cells,
                        g0.index_of(x as int, y as int),
                        g0.index_of(p.0 as int, p.1 as int),
                    ));
                }
                true
            },
            None => false,
        }
    }
}

} // verus!
