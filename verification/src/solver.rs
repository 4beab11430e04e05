//! The solver: propagation to a fixpoint, then backtracking.

use vstd::prelude::*;
use crate::grid::{poss_for_idx, well_formed, Puzzle};
use crate::laws::{
    law_conflicting_givens, law_fails_iff_no_completion, law_full_board_unchanged,
    law_result_is_solved,
};
use crate::rules::{conflict_free, is_completion, is_full, is_solved};
use crate::search::{
    empties, lemma_place_empties, lemma_scan, lemma_search_sound, scan, scan_from, search,
    try_digits, Branch, ScanState,
};

verus! {

/// The state of a scan as the solver holds it.
spec fn scan_state(
    grid: Seq<u32>,
    filled: bool,
    any_open: bool,
    cell: int,
    digits: Seq<u32>,
) -> ScanState {
    ScanState {
        grid,
        filled,
        best: if any_open {
            Some(Branch { cell, digits })
        } else {
            None
        },
    }
}

/// What the outcome of the search on a board says about the board.
proof fn lemma_outcome(g: Seq<u32>)
    requires
        well_formed(g),
    ensures
        search(g) matches Some(found) ==> is_completion(g, found) && (is_solved(found)
            <==> conflict_free(g)),
        search(g) is None ==> forall|t: Seq<u32>| !is_completion(g, t),
        is_full(g) ==> search(g) == Some(g),
{
    lemma_search_sound(g);
    law_fails_iff_no_completion(g);
    if is_full(g) {
        law_full_board_unchanged(g);
    }
    if search(g) is Some {
        if conflict_free(g) {
            law_result_is_solved(g);
        } else {
            law_conflicting_givens(g);
        }
    }
}

/// Solves the board, or reports with `None` that the search found no way to
/// fill it.
///
/// Each call recurses only on boards with fewer empty cells, so the depth of
/// the recursion is at most the number of empty cells, hence at most 81.
pub fn solve(puzz: Puzzle) -> (res: Option<Puzzle>)
    requires
        puzz.wf(),
    ensures
        match res {
            Some(solved) => {
                &&& solved.wf()
                &&& search(puzz@) == Some(solved@)
                &&& is_completion(puzz@, solved@)
                &&& is_solved(solved@) <==> conflict_free(puzz@)
            },
            None => {
                &&& search(puzz@) is None
                &&& forall|t: Seq<u32>| !is_completion(puzz@, t)
            },
        },
        is_full(puzz@) ==> res is Some && res->0@ == puzz@,
    decreases empties(puzz@),
{
    let mut work = puzz;
    let mut best_idx: usize = 0;
    let mut best_idx_poss: Vec<u32> = Vec::new();
    loop
        invariant
            puzz.wf(),
            work.wf(),
            search(work@) == search(puzz@),
            empties(work@) <= empties(puzz@),
        ensures
            puzz.wf(),
            work.wf(),
            empties(work@) <= empties(puzz@),
            best_idx < 81,
            work@[best_idx as int] == 0,
            !best_idx_poss@.contains(0),
            forall|k: int| 0 <= k < best_idx_poss.len() ==> #[trigger] best_idx_poss[k] <= 9,
            search(puzz@) == try_digits(work@, best_idx as int, best_idx_poss@, 0),
        decreases empties(work@),
    {
        let ghost before = work@;
        let mut filled_square = false;
        let mut any_empty = false;
        for idx in 0..81usize
            invariant
                puzz.wf(),
                work.wf(),
                before.len() == 81,
                search(before) == search(puzz@),
                any_empty ==> forall|k: int|
                    0 <= k < best_idx_poss.len() ==> #[trigger] best_idx_poss[k] <= 9,
                scan_from(
                    scan_state(work@, filled_square, any_empty, best_idx as int, best_idx_poss@),
                    idx as int,
                ) == scan(before),
        {
            if work.cells[idx] == 0 {
                let poss = poss_for_idx(&work, idx);
                match poss.len() {
                    0 => {
                        proof {
                            lemma_outcome(puzz@);
                        }
                        return None;
                    },
                    1 => {
                        work.cells[idx] = poss[0];
                        filled_square = true;
                    },
                    _ => {
                        if !any_empty || poss.len() < best_idx_poss.len() {
                            best_idx_poss = poss;
                            best_idx = idx;
                        }
                        any_empty = true;
                    },
                }
            }
        }
        proof {
            lemma_scan(before);
        }
        if !any_empty {
            proof {
                lemma_outcome(puzz@);
            }
            return Some(work);
        }
        if !filled_square {
            break;
        }
    }

    let mut k: usize = 0;
    while k < best_idx_poss.len()
        invariant
            puzz.wf(),
            work.wf(),
            empties(work@) <= empties(puzz@),
            best_idx < 81,
            work@[best_idx as int] == 0,
            !best_idx_poss@.contains(0),
            forall|k: int| 0 <= k < best_idx_poss.len() ==> #[trigger] best_idx_poss[k] <= 9,
            k <= best_idx_poss.len(),
            search(puzz@) == try_digits(work@, best_idx as int, best_idx_poss@, k as int),
        decreases best_idx_poss.len() - k,
    {
        let v = best_idx_poss[k];
        let mut puzz_copy = work.clone();
        puzz_copy.cells[best_idx] = v;
        proof {
            lemma_place_empties(work@, best_idx as int, v);
        }
        let res = solve(puzz_copy);
        match res {
            Some(p) => {
                proof {
                    lemma_outcome(puzz@);
                }
                return Some(p);
            },
            None => {},
        }
        k += 1;
    }
    proof {
        lemma_outcome(puzz@);
    }
    None
}

} // verus!
