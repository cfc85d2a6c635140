//! Maze generation: randomized depth-first carving with backtracking.

use vstd::prelude::*;
use crate::carver::Carver;
use crate::carving::{can_carve, carved, is_carving_run};
use crate::soundness::{lemma_finished_is_maze, lemma_finished_is_sparse, lemma_step_progress};
use crate::cell::{rows, BoardCell};
use crate::maze::{gen_size, is_maze, is_sparse};
use crate::random::random_index;

verus! {

/// Carves a maze for a board of the given size.
///
/// The grid has side `board_size / 2 + 1`. Carving starts at the centre
/// and, wherever more than one unvisited neighbour can be entered, picks
/// one at random. Whatever is picked, the result is the end of a run of
/// the carving, and it is a maze: every cell is connected to the centre
/// through open passages, and there is one passage fewer than cells.
pub fn generate_maze(board_size: usize) -> (cells: Vec<Vec<BoardCell>>)
    ensures
        can_carve(board_size as nat, rows(cells)),
        is_maze(rows(cells), gen_size(board_size as nat)),
        is_sparse(rows(cells)),
{
    let mut carver = Carver::new(board_size);
    let ghost picks = Seq::<int>::empty();
    while carver.active()
        invariant
            carver.wf(),
            carver@.board_size == board_size,
            carver@ == carved(board_size as nat, picks),
            forall|i: int|
                0 <= i < picks.len() ==> (#[trigger] carved(board_size as nat, picks.take(i))).active()
                    && carved(board_size as nat, picks.take(i)).allows(picks[i]),
        decreases carver@.unexplored(), carver@.stack.len(),
    {
        let moves = carver.candidates();
        let pick = if moves.len() > 0 {
            let mut rng = rand::thread_rng();
            random_index(&mut rng, moves.len())
        } else {
            0
        };
        proof {
            lemma_step_progress(carver@, pick as int);
            let longer = picks.push(pick as int);
            assert(longer.drop_last() =~= picks);
            assert(longer.take(picks.len() as int) =~= picks);
            assert forall|i: int| 0 <= i < longer.len() implies (#[trigger] carved(
                board_size as nat,
                longer.take(i),
            )).active() && carved(board_size as nat, longer.take(i)).allows(longer[i]) by {
                if i < picks.len() {
                    assert(longer.take(i) =~= picks.take(i));
                }
            }
            picks = longer;
        }
        carver.step(pick);
    }
    proof {
        lemma_finished_is_maze(carver@);
        lemma_finished_is_sparse(carver@);
        assert(is_carving_run(board_size as nat, picks));
    }
    carver.into_cells()
}

} // verus!
