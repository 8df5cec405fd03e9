use crate::behavior::{
    behavior_outcome, can_move, lemma_same_kinds_can_move, same_kinds, same_matter, settled, stamped, visit_summary,
};
use crate::elements::Cell;
use crate::game::{near_active, GameView};
use crate::spawn::lemma_index_injective;
use vstd::prelude::*;

verus! {

/// In a scan of rows from the bottom up, at row `y` after `j` cells of it
/// (left to right where `ascending`, else right to left), cell `(a, b)` of a
/// grid `w` wide has been visited.
pub open spec fn visited(w: int, a: int, b: int, y: int, j: int, ascending: bool) -> bool {
    b < y || (b == y && if ascending {
        a < j
    } else {
        a > w - 1 - j
    })
}

/// The column of the `j`-th cell a row scan visits.
pub open spec fn scan_x(w: int, j: int, ascending: bool) -> int {
    if ascending {
        j
    } else {
        w - 1 - j
    }
}

/// One visit of the scheduler to `(x, y)`, from `g` to `g2`: a cell of an
/// active chunk that does not carry the tick's stamp yet is stamped and its
/// kind's rule runs, reporting a move iff `moved`; any other is left alone.
#[verifier::opaque]
pub open spec fn visit_rel(g: GameView, g2: GameView, x: int, y: int, moved: bool) -> bool {
    if g.chunk_active(x / (g.chunk_size as int), y / (g.chunk_size as int)) && g.cell(x, y).last_processed_frame
        != g.frame {
        behavior_outcome(stamped(g, x, y, g.frame), g2, x, y, moved)
    } else {
        g2 == g && !moved
    }
}

/// `states` are the states of a scan of row `y`, cell by cell in the
/// direction `ascending`, and `flags` its reported moves.
#[verifier::opaque]
pub open spec fn row_trace(states: Seq<GameView>, flags: Seq<bool>, y: int, ascending: bool, w: int) -> bool {
    &&& states.len() == flags.len() + 1
    &&& forall|k: int|
        0 <= k < flags.len() ==> visit_rel(#[trigger] states[k], states[k + 1], scan_x(w, k, ascending), y, flags[k])
}

/// `rows` are the row scans of a tick from `start`, bottom row first, each
/// in the direction `dirs` gives, each starting where the last one ended.
#[verifier::opaque]
pub open spec fn tick_trace(start: GameView, rows: Seq<Seq<GameView>>, flags: Seq<Seq<bool>>, dirs: Seq<bool>) -> bool {
    let w = start.width as int;
    &&& rows.len() == flags.len()
    &&& rows.len() == dirs.len()
    &&& forall|y: int|
        0 <= y < rows.len() ==> row_trace(#[trigger] rows[y], flags[y], y, dirs[y], w) && flags[y].len() == w
    &&& forall|y: int| 0 <= y < rows.len() ==> (#[trigger] rows[y])[0] == if y == 0 {
        start
    } else {
        rows[y - 1].last()
    }
}

/// The state where a trace of `rows` from `start` ends.
pub open spec fn trace_end(start: GameView, rows: Seq<Seq<GameView>>) -> GameView {
    if rows.len() == 0 {
        start
    } else {
        rows.last().last()
    }
}

/// A tick from `g0` to `g1` is the scan that `rows`, `flags` and `dirs`
/// record, over every row, and `moves` are the positions whose visit
/// reported a move, which build the new activity map.
#[verifier::opaque]
pub open spec fn tick_explained(
    g0: GameView,
    g1: GameView,
    rows: Seq<Seq<GameView>>,
    flags: Seq<Seq<bool>>,
    dirs: Seq<bool>,
    moves: Set<(int, int)>,
) -> bool {
    let start = GameView { frame: g0.next_frame(), ..g0 };
    let w = g0.width as int;
    &&& tick_trace(start, rows, flags, dirs)
    &&& rows.len() == g0.height
    &&& g1.cells == trace_end(start, rows).cells
    &&& moves_build_map(g0, g1, g1.active, moves)
    &&& forall|y: int, k: int|
        0 <= y < g0.height && 0 <= k < w ==> (#[trigger] flags[y][k] <==> moves.contains((scan_x(w, k, dirs[y]), y)))
}

pub proof fn lemma_visit_ran(g: GameView, g2: GameView, x: int, y: int, moved: bool)
    requires
        g.chunk_active(x / (g.chunk_size as int), y / (g.chunk_size as int)),
        g.cell(x, y).last_processed_frame != g.frame,
        behavior_outcome(stamped(g, x, y, g.frame), g2, x, y, moved),
    ensures
        visit_rel(g, g2, x, y, moved),
{
    reveal(visit_rel);
}

pub proof fn lemma_visit_skipped(g: GameView, x: int, y: int)
    requires
        !g.chunk_active(x / (g.chunk_size as int), y / (g.chunk_size as int)) || g.cell(x, y).last_processed_frame
            == g.frame,
    ensures
        visit_rel(g, g, x, y, false),
{
    reveal(visit_rel);
}

pub proof fn lemma_row_start(g: GameView, y: int, asc: bool, w: int)
    ensures
        row_trace(seq![g], Seq::empty(), y, asc, w),
{
    reveal(row_trace);
}

pub proof fn lemma_row_push(cur: Seq<GameView>, flags: Seq<bool>, y: int, asc: bool, w: int, g: GameView, f: bool)
    requires
        row_trace(cur, flags, y, asc, w),
        visit_rel(cur.last(), g, scan_x(w, flags.len() as int, asc), y, f),
    ensures
        row_trace(cur.push(g), flags.push(f), y, asc, w),
{
    reveal(row_trace);
    let c2 = cur.push(g);
    let f2 = flags.push(f);
    assert forall|k: int| 0 <= k < f2.len() implies visit_rel(#[trigger] c2[k], c2[k + 1], scan_x(w, k, asc), y, f2[k]) by {
        if k < flags.len() {
            assert(c2[k] == cur[k] && c2[k + 1] == cur[k + 1] && f2[k] == flags[k]);
        }
    }
}

pub proof fn lemma_tick_start(start: GameView)
    ensures
        tick_trace(start, Seq::empty(), Seq::empty(), Seq::empty()),
        trace_end(start, Seq::empty()) == start,
{
    reveal(tick_trace);
}

#[verifier::rlimit(100)]
pub proof fn lemma_tick_push(
    start: GameView,
    rows: Seq<Seq<GameView>>,
    flags: Seq<Seq<bool>>,
    dirs: Seq<bool>,
    cur: Seq<GameView>,
    cur_flags: Seq<bool>,
    asc: bool,
)
    requires
        tick_trace(start, rows, flags, dirs),
        row_trace(cur, cur_flags, rows.len() as int, asc, start.width as int),
        cur_flags.len() == start.width,
        cur[0] == trace_end(start, rows),
    ensures
        tick_trace(start, rows.push(cur), flags.push(cur_flags), dirs.push(asc)),
        rows.len() == flags.len() && rows.len() == dirs.len(),
        trace_end(start, rows.push(cur)) == cur.last(),
{
    reveal(tick_trace);
    let w = start.width as int;
    let r2 = rows.push(cur);
    let f2 = flags.push(cur_flags);
    let d2 = dirs.push(asc);
    assert forall|yy: int| 0 <= yy < r2.len() implies row_trace(#[trigger] r2[yy], f2[yy], yy, d2[yy], w) && f2[yy].len()
        == w by {
        if yy < rows.len() {
            assert(r2[yy] == rows[yy] && f2[yy] == flags[yy] && d2[yy] == dirs[yy]);
        }
    }
    assert forall|yy: int| 0 <= yy < r2.len() implies (#[trigger] r2[yy])[0] == if yy == 0 {
        start
    } else {
        r2[yy - 1].last()
    } by {
        if yy < rows.len() {
            assert(r2[yy] == rows[yy]);
            if yy > 0 {
                assert(r2[yy - 1] == rows[yy - 1]);
            }
        } else if yy > 0 {
            assert(r2[yy - 1] == rows.last());
        }
    }
}

pub proof fn lemma_tick_explained(
    g0: GameView,
    g1: GameView,
    rows: Seq<Seq<GameView>>,
    flags: Seq<Seq<bool>>,
    dirs: Seq<bool>,
    moves: Set<(int, int)>,
)
    requires
        tick_trace(GameView { frame: g0.next_frame(), ..g0 }, rows, flags, dirs),
        rows.len() == g0.height,
        g1.cells == trace_end(GameView { frame: g0.next_frame(), ..g0 }, rows).cells,
        moves_build_map(g0, g1, g1.active, moves),
        forall|y: int, k: int|
            0 <= y < g0.height && 0 <= k < g0.width ==> (#[trigger] flags[y][k] <==> moves.contains(
                (scan_x(g0.width as int, k, dirs[y]), y),
            )),
    ensures
        tick_explained(g0, g1, rows, flags, dirs, moves),
{
    reveal(tick_explained);
}

/// Some cell of an active chunk, not yet stamped with the next tick, has a
/// move open to it.
pub open spec fn can_progress(g: GameView) -> bool {
    exists|x: int, y: int|
        #[trigger] g.in_grid(x, y) && g.chunk_active(x / (g.chunk_size as int), y / (g.chunk_size as int))
            && g.cell(x, y).last_processed_frame != g.next_frame() && can_move(g, x, y)
}

/// Every chunk of `g` is inactive.
pub open spec fn all_inactive(g: GameView) -> bool {
    forall|c: int| 0 <= c < g.active.len() ==> !#[trigger] g.active[c]
}

/// `moves` are the positions whose cell moved in a tick from `g0` to `g`,
/// and `next` is the activity map they build:
/// - a chunk is marked iff it is one of the chunks around such a position;
/// - each such position held, in `g0`, a non-empty cell of an active chunk
///   not yet stamped with the tick, and holds something else now;
/// - each position whose non-empty cell of `g0` now holds another kind or
///   color is one of them.
pub open spec fn moves_build_map(g0: GameView, g: GameView, next: Seq<bool>, moves: Set<(int, int)>) -> bool {
    let cs = g0.chunk_size as int;
    &&& forall|c: int|
        0 <= c < next.len() ==> (#[trigger] next[c] <==> exists|p: (int, int)|
            #[trigger] moves.contains(p) && g0.near_chunk(c, p.0, p.1))
    &&& forall|p: (int, int)|
        #[trigger] moves.contains(p) ==> g0.in_grid(p.0, p.1) && g0.chunk_active(p.0 / cs, p.1 / cs) && g0.kind_at(
            p.0,
            p.1,
        ) != Cell::Empty && g0.cell(p.0, p.1).last_processed_frame != g0.next_frame() && g.cell(p.0, p.1) != g0.cell(
            p.0,
            p.1,
        )
    &&& forall|a: int, b: int|
        #[trigger] g0.in_grid(a, b) && g0.kind_at(a, b) != Cell::Empty && (g.kind_at(a, b) != g0.kind_at(a, b) || g.cell(
            a,
            b,
        ).color != g0.cell(a, b).color) ==> moves.contains((a, b))
}

/// What holds part way through a tick that started from `g0`: the state is
/// `g`, the next activity map `next`, and some cell has moved iff
/// `moved_any`; the scan stands at row `y` after `j` of its cells.
pub open spec fn scan_state(
    g0: GameView,
    g: GameView,
    next: Seq<bool>,
    moved_any: bool,
    y: int,
    j: int,
    ascending: bool,
) -> bool {
    let frame = g0.next_frame();
    let w = g0.width as int;
    let cs = g0.chunk_size as int;
    &&& g0.wf()
    &&& g.wf()
    &&& g.has_size(g0.width, g0.height, g0.chunk_size)
    &&& g.active == g0.active
    &&& g.rainbow_counter == g0.rainbow_counter
    &&& g.frame == frame
    &&& g.kind_counts() == g0.kind_counts()
    &&& g.matter() == g0.matter()
    &&& next.len() == g0.active.len()
    &&& forall|c: int| 0 <= c < next.len() && #[trigger] next[c] ==> near_active(g0, c)
    &&& forall|i: int|
        0 <= i < g.cells.len() && (#[trigger] g.cells[i]).cell_type != Cell::Empty && g.cells[i] != g0.cells[i]
            ==> g.cells[i].last_processed_frame == frame
    &&& all_inactive(g0) ==> g.cells == g0.cells
    &&& settled(g0) ==> !moved_any
    &&& !moved_any ==> same_matter(g.cells, g0.cells)
    &&& !moved_any ==> forall|c: int| 0 <= c < next.len() ==> !#[trigger] next[c]
    &&& !moved_any ==> forall|a: int, b: int|
        #[trigger] g0.in_grid(a, b) && !visited(w, a, b, y, j, ascending) ==> g.cell(a, b) == g0.cell(a, b)
    &&& !moved_any ==> forall|a: int, b: int|
        #[trigger] g0.in_grid(a, b) && visited(w, a, b, y, j, ascending) && g0.chunk_active(a / cs, b / cs)
            && g0.cell(a, b).last_processed_frame != frame ==> !can_move(g0, a, b)
    &&& moved_any ==> exists|i: int|
        0 <= i < g0.cells.len() && g0.cells[i].cell_type == Cell::Empty && (#[trigger] g.cells[i]).cell_type
            != Cell::Empty && g.cells[i].last_processed_frame == frame
}

pub proof fn lemma_scan_start(g0: GameView, g: GameView, next: Seq<bool>)
    requires
        g0.wf(),
        g == (GameView { frame: g0.next_frame(), ..g0 }),
        next.len() == g0.active.len(),
        forall|c: int| 0 <= c < next.len() ==> !#[trigger] next[c],
    ensures
        scan_state(g0, g, next, false, 0, 0, true),
{
    assert(g.cells == g0.cells);
    assert(g.kinds() == g0.kinds());
}

pub proof fn lemma_scan_row(g0: GameView, g: GameView, next: Seq<bool>, m: bool, y: int, asc: bool)
    requires
        scan_state(g0, g, next, m, y, g0.width as int, asc),
    ensures
        scan_state(g0, g, next, m, y + 1, 0, true),
{
    let w = g0.width as int;
    assert forall|a: int, b: int| #[trigger] g0.in_grid(a, b) implies visited(w, a, b, y, w, asc) == visited(
        w,
        a,
        b,
        y + 1,
        0,
        true,
    ) by {}
}

/// The scan passes over `(x, y)` without running it: its chunk is inactive
/// or it already carries this tick's stamp.
pub proof fn lemma_scan_skip(g0: GameView, g: GameView, next: Seq<bool>, m: bool, y: int, j: int, asc: bool, x: int)
    requires
        scan_state(g0, g, next, m, y, j, asc),
        0 <= j < g0.width,
        0 <= y < g0.height,
        x == if asc { j } else { g0.width - 1 - j },
        !g.chunk_active(x / (g.chunk_size as int), y / (g.chunk_size as int)) || g.cell(x, y).last_processed_frame
            == g.frame,
    ensures
        scan_state(g0, g, next, m, y, j + 1, asc),
{
    let w = g0.width as int;
    assert(g0.in_grid(x, y));
    assert forall|a: int, b: int| #[trigger] g0.in_grid(a, b) implies visited(w, a, b, y, j + 1, asc) == (visited(
        w,
        a,
        b,
        y,
        j,
        asc,
    ) || (a == x && b == y)) by {}
}

/// The scan runs the cell at `(x, y)`, going from `gb` to `ga`; where it
/// moved, the map went from `nb` to `na`.
pub proof fn lemma_scan_visit(
    g0: GameView,
    gb: GameView,
    ga: GameView,
    nb: Seq<bool>,
    na: Seq<bool>,
    m: bool,
    y: int,
    j: int,
    asc: bool,
    x: int,
    r: bool,
)
    requires
        scan_state(g0, gb, nb, m, y, j, asc),
        0 <= j < g0.width,
        0 <= y < g0.height,
        x == if asc { j } else { g0.width - 1 - j },
        gb.chunk_active(x / (gb.chunk_size as int), y / (gb.chunk_size as int)),
        gb.cell(x, y).last_processed_frame != gb.frame,
        ga.wf(),
        visit_summary(gb, ga, x, y, r),
        !r ==> na == nb,
        na.len() == nb.len(),
        forall|c: int| 0 <= c < na.len() && #[trigger] na[c] ==> near_active(g0, c),
    ensures
        scan_state(g0, ga, na, m || r, y, j + 1, asc),
{
    let w = g0.width as int;
    let cs = g0.chunk_size as int;
    let frame = g0.next_frame();
    let s = g0.index_of(x, y);
    g0.lemma_bounds();
    assert(g0.in_grid(x, y));
    assert(0 <= s < g0.cells.len());
    assert(g0.chunk_active(x / cs, y / cs));
    assert(g0.active[g0.chunk_of(x, y)]);
    assert forall|a: int, b: int| #[trigger] g0.in_grid(a, b) implies visited(w, a, b, y, j + 1, asc) == (visited(
        w,
        a,
        b,
        y,
        j,
        asc,
    ) || (a == x && b == y)) by {}
    assert forall|i: int|
        0 <= i < ga.cells.len() && (#[trigger] ga.cells[i]).cell_type != Cell::Empty && ga.cells[i] != g0.cells[i]
            implies ga.cells[i].last_processed_frame == frame by {
        if ga.cells[i] == gb.cells[i] {
            assert(gb.cells[i].cell_type != Cell::Empty);
        }
    }
    if !m {
        assert(same_kinds(gb.cells, g0.cells));
        lemma_same_kinds_can_move(g0, gb, x, y);
        assert(gb.cell(x, y) == g0.cell(x, y));
    }
    if m {
        let i = choose|i: int|
            0 <= i < g0.cells.len() && g0.cells[i].cell_type == Cell::Empty && (#[trigger] gb.cells[i]).cell_type
                != Cell::Empty && gb.cells[i].last_processed_frame == frame;
        assert(i != s);
        assert(ga.cells[i] == gb.cells[i]);
    } else if r {
        let f = choose|f: int|
            0 <= f < gb.cells.len() && f != s && gb.cells[f].cell_type == Cell::Empty && (#[trigger] ga.cells[f]).cell_type
                != Cell::Empty && ga.cells[f].last_processed_frame == gb.frame && crate::behavior::moved_alone(gb, ga, s, f);
        assert(g0.cells[f].cell_type == gb.cells[f].cell_type);
    } else {
        assert(same_matter(ga.cells, g0.cells)) by {
            assert forall|i: int| 0 <= i < ga.cells.len() implies (#[trigger] ga.cells[i]).cell_type
                == g0.cells[i].cell_type && ga.cells[i].color == g0.cells[i].color by {
                if i != s {
                    assert(ga.cells[i] == gb.cells[i]);
                }
            }
        }
        assert forall|a: int, b: int|
            #[trigger] g0.in_grid(a, b) && !visited(w, a, b, y, j + 1, asc) implies ga.cell(a, b) == g0.cell(a, b) by {
            assert(gb.cell(a, b) == g0.cell(a, b));
            if g0.index_of(a, b) == s {
                lemma_index_injective(w, a, b, x, y);
            }
            assert(0 <= g0.index_of(a, b) < g0.cells.len());
        }
    }
}

pub proof fn lemma_moves_start(g0: GameView, g: GameView, next: Seq<bool>)
    requires
        g.cells == g0.cells,
        g.has_size(g0.width, g0.height, g0.chunk_size),
        forall|c: int| 0 <= c < next.len() ==> !#[trigger] next[c],
    ensures
        moves_build_map(g0, g, next, Set::empty()),
{
    assert forall|c: int| 0 <= c < next.len() implies (#[trigger] next[c] <==> exists|p: (int, int)|
        #[trigger] Set::<(int, int)>::empty().contains(p) && g0.near_chunk(c, p.0, p.1)) by {}
}

/// The move set and the map follow a visit of `(x, y)`.
pub proof fn lemma_moves_visit(
    g0: GameView,
    gb: GameView,
    ga: GameView,
    nb: Seq<bool>,
    na: Seq<bool>,
    moves: Set<(int, int)>,
    m: bool,
    y: int,
    j: int,
    asc: bool,
    x: int,
    r: bool,
)
    requires
        scan_state(g0, gb, nb, m, y, j, asc),
        moves_build_map(g0, gb, nb, moves),
        g0.in_grid(x, y),
        gb.chunk_active(x / (gb.chunk_size as int), y / (gb.chunk_size as int)),
        gb.cell(x, y).last_processed_frame != gb.frame,
        ga.wf(),
        visit_summary(gb, ga, x, y, r),
        !r ==> na == nb,
        na.len() == nb.len(),
        r ==> forall|c: int| 0 <= c < na.len() ==> (#[trigger] na[c] <==> (nb[c] || ga.near_chunk(c, x, y))),
    ensures
        moves_build_map(g0, ga, na, if r { moves.insert((x, y)) } else { moves }),
{
    let cs = g0.chunk_size as int;
    let s = g0.index_of(x, y);
    let moves2 = if r { moves.insert((x, y)) } else { moves };
    g0.lemma_bounds();
    assert(0 <= s < g0.cells.len());
    assert(g0.chunk_active(x / cs, y / cs));
    if r {
        assert(gb.cells[s].cell_type != Cell::Empty);
        assert(gb.cells[s] == g0.cells[s]);
        assert forall|c: int| 0 <= c < na.len() implies (#[trigger] na[c] <==> exists|p: (int, int)|
            #[trigger] moves2.contains(p) && g0.near_chunk(c, p.0, p.1)) by {
            crate::game::lemma_near_chunk_shape(ga, g0, c, x, y);
            if na[c] {
                if nb[c] {
                    let p = choose|p: (int, int)| #[trigger] moves.contains(p) && g0.near_chunk(c, p.0, p.1);
                    assert(moves2.contains(p));
                } else {
                    assert(moves2.contains((x, y)));
                }
            }
            if exists|p: (int, int)| #[trigger] moves2.contains(p) && g0.near_chunk(c, p.0, p.1) {
                let p = choose|p: (int, int)| #[trigger] moves2.contains(p) && g0.near_chunk(c, p.0, p.1);
                if p != (x, y) {
                    assert(moves.contains(p));
                }
            }
        }
    }
    assert forall|p: (int, int)| #[trigger] moves2.contains(p) implies g0.in_grid(p.0, p.1) && g0.chunk_active(
        p.0 / cs,
        p.1 / cs,
    ) && g0.kind_at(p.0, p.1) != Cell::Empty && g0.cell(p.0, p.1).last_processed_frame != g0.next_frame() && ga.cell(
        p.0,
        p.1,
    ) != g0.cell(p.0, p.1) by {
        let i = g0.index_of(p.0, p.1);
        if moves.contains(p) {
            assert(0 <= i < g0.cells.len());
            if ga.cells[i] != gb.cells[i] && ga.cells[i].cell_type != Cell::Empty {
                assert(ga.cells[i].last_processed_frame == gb.frame);
            }
        } else {
            assert(p == (x, y));
            let f = choose|f: int|
                0 <= f < gb.cells.len() && f != s && gb.cells[f].cell_type == Cell::Empty && (#[trigger] ga.cells[f]).cell_type
                    != Cell::Empty && ga.cells[f].last_processed_frame == gb.frame && crate::behavior::moved_alone(gb, ga, s, f);
            assert(ga.cells[s].cell_type == Cell::Empty);
        }
    }
    assert forall|a: int, b: int|
        #[trigger] g0.in_grid(a, b) && g0.kind_at(a, b) != Cell::Empty && (ga.kind_at(a, b) != g0.kind_at(a, b)
            || ga.cell(a, b).color != g0.cell(a, b).color) implies moves2.contains((a, b)) by {
        let i = g0.index_of(a, b);
        assert(0 <= i < g0.cells.len());
        if !moves.contains((a, b)) {
            assert(gb.kind_at(a, b) == g0.kind_at(a, b) && gb.cell(a, b).color == g0.cell(a, b).color);
            if i != s {
                if r {
                    let f = choose|f: int|
                        0 <= f < gb.cells.len() && f != s && gb.cells[f].cell_type == Cell::Empty && (
                        #[trigger] ga.cells[f]).cell_type != Cell::Empty && ga.cells[f].last_processed_frame == gb.frame
                            && crate::behavior::moved_alone(gb, ga, s, f);
                    assert(ga.cells[i] == gb.cells[i]);
                } else {
                    assert(ga.cells[i] == gb.cells[i]);
                }
            } else {
                crate::spawn::lemma_index_injective(g0.width as int, a, b, x, y);
            }
        }
    }
}

pub proof fn lemma_scan_end(g0: GameView, g: GameView, next: Seq<bool>, m: bool)
    requires
        scan_state(g0, g, next, m, g0.height as int, 0, true),
    ensures
        can_progress(g0) ==> !same_kinds(g.cells, g0.cells),
{
    if can_progress(g0) {
        let (x, y) = choose|x: int, y: int|
            #[trigger] g0.in_grid(x, y) && g0.chunk_active(x / (g0.chunk_size as int), y / (g0.chunk_size as int))
                && g0.cell(x, y).last_processed_frame != g0.next_frame() && can_move(g0, x, y);
        assert(g0.in_grid(x, y));
        if m {
            let i = choose|i: int|
                0 <= i < g0.cells.len() && g0.cells[i].cell_type == Cell::Empty && (#[trigger] g.cells[i]).cell_type
                    != Cell::Empty && g.cells[i].last_processed_frame == g0.next_frame();
            assert(g.cells[i].cell_type != g0.cells[i].cell_type);
        }
    }
}

} // verus!
