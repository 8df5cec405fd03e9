use crate::behavior::{same_matter, settled};
use crate::game::{lemma_step_outcome, step_outcome, GameView, SandGame};
use vstd::prelude::*;

verus! {

/// Every well-formed simulation holds `width * height` cells and one activity
/// flag for each of the `ceil(width / chunk_size) * ceil(height / chunk_size)`
/// chunks, and its color buffer of `width * height * 4` bytes fits in memory.
pub proof fn lemma_sizes(g: SandGame)
    requires
        g.wf(),
    ensures
        g@.cells.len() == g@.width * g@.height,
        g@.active.len() == g@.chunks_x() * g@.chunks_y(),
        g@.width * g@.height * 4 <= usize::MAX,
{
}

/// Ticks never create or destroy cells: over any run of ticks the number of
/// cells of each kind, and of each kind and color, stays what it was.
pub proof fn lemma_steps_keep_kind_counts(states: Seq<GameView>)
    requires
        states.len() >= 1,
        forall|i: int| 0 <= i < states.len() - 1 ==> step_outcome(#[trigger] states[i], states[i + 1]),
    ensures
        forall|i: int| 0 <= i < states.len() ==> (#[trigger] states[i]).kind_counts() == states[0].kind_counts(),
        forall|i: int| 0 <= i < states.len() ==> (#[trigger] states[i]).matter() == states[0].matter(),
    decreases states.len(),
{
    if states.len() > 1 {
        let prefix = states.drop_last();
        lemma_steps_keep_kind_counts(prefix);
        lemma_step_outcome(states[states.len() - 2], states[states.len() - 1]);
        assert forall|i: int| 0 <= i < states.len() implies (#[trigger] states[i]).kind_counts()
            == states[0].kind_counts() && states[i].matter() == states[0].matter() by {
            assert(prefix[0] == states[0]);
            if i < states.len() - 1 {
                assert(prefix[i] == states[i]);
            } else {
                assert(prefix[i - 1] == states[i - 1]);
            }
        }
    }
}

/// Once no cell of an active chunk can move, the grid is at rest for good:
/// every later tick keeps the kind and color of every cell, and after the
/// first of them every chunk is inactive.
pub proof fn lemma_settled_stays_at_rest(states: Seq<GameView>)
    requires
        states.len() >= 1,
        settled(states[0]),
        forall|i: int| 0 <= i < states.len() - 1 ==> step_outcome(#[trigger] states[i], states[i + 1]),
    ensures
        forall|i: int| 0 <= i < states.len() ==> same_matter((#[trigger] states[i]).cells, states[0].cells),
        forall|i: int, c: int| 1 <= i < states.len() && 0 <= c < states[i].active.len() ==> !(#[trigger] states[i].active[c]),
    decreases states.len(),
{
    if states.len() > 1 {
        let prefix = states.drop_last();
        lemma_settled_stays_at_rest(prefix);
        let n = states.len();
        let last = states[n - 2];
        assert(prefix[n - 2] == last);
        lemma_step_outcome(last, states[n - 1]);
        if n - 2 >= 1 {
            lemma_step_outcome(states[n - 3], last);
            last.lemma_bounds();
            assert forall|x: int, y: int|
                #![trigger last.in_grid(x, y)]
                last.in_grid(x, y) && last.chunk_active(x / (last.chunk_size as int), y / (last.chunk_size as int))
                    implies false by {
                let c = last.chunk_index_of(x / (last.chunk_size as int), y / (last.chunk_size as int));
                assert(!prefix[n - 2].active[c]);
            }
        }
        assert(settled(last));
        assert forall|i: int| 0 <= i < n implies same_matter((#[trigger] states[i]).cells, states[0].cells) by {
            if i < n - 1 {
                assert(prefix[i] == states[i]);
            } else {
                assert(same_matter(prefix[n - 2].cells, states[0].cells));
            }
        }
        assert forall|i: int, c: int| 1 <= i < n && 0 <= c < states[i].active.len() implies !(
        #[trigger] states[i].active[c]) by {
            if i < n - 1 {
                assert(prefix[i] == states[i]);
                assert(!prefix[i].active[c]);
            }
        }
    }
}

} // verus!
