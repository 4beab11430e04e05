//! What the search guarantees, stated over its mathematical model and the
//! rules of the game.

use vstd::prelude::*;
use crate::grid::{candidates, well_formed, Puzzle};
use crate::rules::{
    conflict_free, extends, fits, is_completion, is_full, is_solved,
    lemma_continues_conflict_free, lemma_extends_keeps_conflict,
    lemma_full_conflict_free_is_solved, lemma_solved_is_full_conflict_free, peers,
};
use crate::search::{
    fewest_so_far, lemma_completion_picks_candidate, lemma_scan, lemma_search_complete,
    lemma_search_sound, scan, scan_from, scan_start, search,
};
use crate::solver::solve;

verus! {

/// On a board whose digits do not clash, the completions are exactly the
/// solved boards that keep its digits.
pub proof fn law_completions_are_solutions(g: Seq<u32>, t: Seq<u32>)
    requires
        well_formed(g),
        conflict_free(g),
    ensures
        is_completion(g, t) <==> is_solved(t) && extends(g, t),
{
    if is_completion(g, t) {
        lemma_continues_conflict_free(g, t);
        lemma_full_conflict_free_is_solved(t);
    }
    if is_solved(t) && extends(g, t) {
        lemma_solved_is_full_conflict_free(t);
        assert forall|i: int|
            0 <= i < 81 && g[i] == 0 && #[trigger] t[i] != 0 implies fits(t, i) by {
            assert forall|j: int| 0 <= j < 81 && peers(i, j) implies #[trigger] t[j] != t[i] by {}
        }
    }
}

/// Validity of the result: when the digits of the board do not clash, a
/// board that the search arrives at keeps them, and each of its rows,
/// columns and subgrids holds every digit of `1..=9` exactly once.
pub proof fn law_result_is_solved(g: Seq<u32>)
    requires
        well_formed(g),
        conflict_free(g),
    ensures
        search(g) matches Some(found) ==> is_solved(found) && extends(g, found),
{
    lemma_search_sound(g);
    if search(g) is Some {
        law_completions_are_solutions(g, search(g)->0);
    }
}

/// The search fails exactly on the boards that have no completion.
pub proof fn law_fails_iff_no_completion(g: Seq<u32>)
    requires
        well_formed(g),
    ensures
        search(g) is None <==> forall|t: Seq<u32>| !is_completion(g, t),
{
    lemma_search_sound(g);
    if search(g) is None {
        assert forall|t: Seq<u32>| !is_completion(g, t) by {
            if is_completion(g, t) {
                lemma_search_complete(g, t);
            }
        }
    }
}

/// A puzzle with one solution is solved to that solution.
pub proof fn law_unique_solution(g: Seq<u32>, t: Seq<u32>)
    requires
        well_formed(g),
        is_completion(g, t),
        forall|other: Seq<u32>| is_completion(g, other) ==> other == t,
    ensures
        search(g) == Some(t),
{
    lemma_search_complete(g, t);
    lemma_search_sound(g);
}

/// A scan of a full board changes nothing and finds no cell to branch on.
proof fn lemma_scan_full(g: Seq<u32>, i: int)
    requires
        is_full(g),
        0 <= i <= 81,
    ensures
        scan_from(scan_start(g), i) == Some(scan_start(g)),
    decreases 81 - i,
{
    if i < 81 {
        assert(g[i] != 0);
        lemma_scan_full(g, i + 1);
    }
}

/// A board without empty cells is handed back as it is; so is, in
/// particular, every solved board.
pub proof fn law_full_board_unchanged(g: Seq<u32>)
    requires
        well_formed(g),
        is_full(g) || is_solved(g),
    ensures
        search(g) == Some(g),
{
    if is_solved(g) {
        lemma_solved_is_full_conflict_free(g);
    }
    lemma_scan_full(g, 0);
}

/// A board whose digits clash is never solved: the search fails on it
/// unless its empty cells can be filled around the clash, and then the
/// board it arrives at still holds the clash.
pub proof fn law_conflicting_givens(g: Seq<u32>)
    requires
        well_formed(g),
        !conflict_free(g),
    ensures
        search(g) matches Some(found) ==> !is_solved(found),
        (forall|t: Seq<u32>| !is_completion(g, t)) ==> search(g) is None,
{
    lemma_search_sound(g);
    if search(g) is Some {
        let found = search(g)->0;
        lemma_extends_keeps_conflict(g, found);
        if is_solved(found) {
            lemma_solved_is_full_conflict_free(found);
        }
    }
}

/// A board with an empty cell that has no candidate left is turned down.
pub proof fn law_blocked_cell_fails(g: Seq<u32>, i: int)
    requires
        well_formed(g),
        0 <= i < 81,
        g[i] == 0,
        candidates(g, i).len() == 0,
    ensures
        search(g) is None,
{
    lemma_search_sound(g);
    if search(g) is Some {
        lemma_completion_picks_candidate(g, i, search(g)->0);
    }
}

/// The cell guessed at is the most constrained one: when a scan fills
/// nothing and leaves cells open, the cell it names has the fewest
/// candidates of all empty cells, and is the first of those that have so
/// few; the digits it names are the candidates of that cell.
pub proof fn law_guess_is_most_constrained(g: Seq<u32>)
    requires
        well_formed(g),
        scan(g) is Some,
        !scan(g)->0.filled,
        scan(g)->0.best is Some,
    ensures
        ({
            let branch = scan(g)->0.best->0;
            &&& 0 <= branch.cell < 81
            &&& g[branch.cell] == 0
            &&& branch.digits == candidates(g, branch.cell)
            &&& forall|j: int|
                0 <= j < 81 && g[j] == 0 ==> #[trigger] fewest_so_far(g, branch.cell, j)
        }),
{
    lemma_scan(g);
}

/// Idempotence: searching again from a board that the search arrived at
/// gives that board back.
pub proof fn law_idempotent(g: Seq<u32>)
    requires
        well_formed(g),
    ensures
        search(g) matches Some(found) ==> search(found) == Some(found),
{
    lemma_search_sound(g);
    if search(g) is Some {
        law_full_board_unchanged(search(g)->0);
    }
}

/// Determinism: two runs of the solver on the same board end the same way.
pub proof fn law_deterministic(a: Puzzle, b: Puzzle, ra: Option<Puzzle>, rb: Option<Puzzle>)
    requires
        a == b,
        call_ensures(solve, (a,), ra),
        call_ensures(solve, (b,), rb),
    ensures
        ra == rb,
{
    if ra is Some {
        assert(ra->0.cells =~= rb->0.cells);
    }
}

} // verus!
