//! The search, as a mathematical function of the board: scans that fill
//! forced cells until nothing changes, then a guess on the most constrained
//! cell, digit by digit in ascending order.

use vstd::prelude::*;
use vstd::set_lib::{lemma_int_range, lemma_len_subset, set_int_range};
use crate::grid::{candidates, candidates_upto, lemma_candidates_upto, seen, well_formed};
use crate::rules::{
    continues, fits, is_completion, is_full, lemma_continues_trans,
    lemma_place_continues, lemma_seen_is_peer, peers,
};

verus! {

/// The empty cells of a board.
pub open spec fn empty_cells(g: Seq<u32>) -> Set<int> {
    Set::new(|i: int| 0 <= i < 81 && g[i] == 0)
}

/// How many cells are empty.
pub open spec fn empties(g: Seq<u32>) -> nat {
    empty_cells(g).len()
}

/// A cell to guess at, with the digits to try in it.
pub struct Branch {
    pub cell: int,
    pub digits: Seq<u32>,
}

/// What one scan carries from cell to cell.
pub struct ScanState {
    /// The board, with the cells forced so far filled in.
    pub grid: Seq<u32>,
    /// Whether this scan has filled a cell.
    pub filled: bool,
    /// The open cell with the fewest candidates met so far in this scan, and
    /// the candidates it had when the scan passed it.
    pub best: Option<Branch>,
}

/// The state in which every scan starts.
pub open spec fn scan_start(g: Seq<u32>) -> ScanState {
    ScanState { grid: g, filled: false, best: None }
}

/// One step of a scan, at cell `i`. A filled cell is passed over. An empty
/// cell without candidates ends the scan in failure (`None`); one with a
/// single candidate is filled with it; one with more becomes the cell to
/// branch on if it has fewer candidates than the one remembered.
pub open spec fn scan_cell(st: ScanState, i: int) -> Option<ScanState> {
    let c = candidates(st.grid, i);
    if st.grid[i] != 0 {
        Some(st)
    } else if c.len() == 0 {
        None
    } else if c.len() == 1 {
        Some(ScanState { grid: st.grid.update(i, c[0]), filled: true, best: st.best })
    } else if st.best is None || c.len() < st.best->0.digits.len() {
        Some(ScanState { best: Some(Branch { cell: i, digits: c }), ..st })
    } else {
        Some(st)
    }
}

/// The rest of a scan, from cell `i` to the last one.
pub open spec fn scan_from(st: ScanState, i: int) -> Option<ScanState>
    decreases 81 - i,
{
    if i >= 81 {
        Some(st)
    } else {
        match scan_cell(st, i) {
            None => None,
            Some(next) => scan_from(next, i + 1),
        }
    }
}

/// One scan over all 81 cells in index order.
pub open spec fn scan(g: Seq<u32>) -> Option<ScanState> {
    scan_from(scan_start(g), 0)
}

/// There are at most 81 empty cells.
pub proof fn lemma_empties_bounded(g: Seq<u32>)
    ensures
        empty_cells(g).finite(),
        empties(g) <= 81,
{
    lemma_int_range(0, 81);
    lemma_len_subset(empty_cells(g), set_int_range(0, 81));
}

/// Filling an empty cell leaves one empty cell fewer.
pub proof fn lemma_place_empties(g: Seq<u32>, i: int, v: u32)
    requires
        g.len() == 81,
        0 <= i < 81,
        g[i] == 0,
        v != 0,
    ensures
        empties(g.update(i, v)) + 1 == empties(g),
{
    lemma_empties_bounded(g);
    assert(empty_cells(g.update(i, v)) =~= empty_cells(g).remove(i));
}

/// Cell `b` has no more candidates than cell `j`, and fewer if `j` comes
/// before it.
pub open spec fn fewest_so_far(g: Seq<u32>, b: int, j: int) -> bool {
    &&& candidates(g, b).len() <= candidates(g, j).len()
    &&& j < b ==> candidates(g, b).len() < candidates(g, j).len()
}

/// What holds of a scan of `g0` that has passed the cells before `i`.
pub open spec fn scan_inv(g0: Seq<u32>, st: ScanState, i: int) -> bool {
    &&& st.grid.len() == 81
    &&& continues(g0, st.grid)
    &&& well_formed(g0) ==> well_formed(st.grid)
    &&& empties(st.grid) <= empties(g0)
    &&& st.filled ==> empties(st.grid) < empties(g0)
    &&& !st.filled ==> st.grid == g0
    &&& st.best is None ==> forall|j: int| 0 <= j < i ==> #[trigger] st.grid[j] != 0
    &&& st.best matches Some(b) ==> {
        &&& 0 <= b.cell < i
        &&& st.grid[b.cell] == 0
        &&& 2 <= b.digits.len()
        &&& !b.digits.contains(0)
        &&& !st.filled ==> b.digits == candidates(st.grid, b.cell)
    }
    &&& !st.filled ==> forall|j: int|
        0 <= j < i && st.grid[j] == 0 ==> st.best is Some && fewest_so_far(
            st.grid,
            st.best->0.cell,
            j,
        )
}

/// One step of a scan keeps `scan_inv`.
pub proof fn lemma_scan_cell(g0: Seq<u32>, st: ScanState, i: int)
    requires
        0 <= i < 81,
        scan_inv(g0, st, i),
    ensures
        scan_cell(st, i) matches Some(next) ==> scan_inv(g0, next, i + 1),
{
    let c = candidates(st.grid, i);
    lemma_candidates_upto(st.grid, i, 9);
    if st.grid[i] == 0 && c.len() == 1 {
        let next = scan_cell(st, i)->0;
        lemma_place_continues(st.grid, i, c[0]);
        lemma_continues_trans(g0, st.grid, next.grid);
        lemma_place_empties(st.grid, i, c[0]);
        if st.best is None {
            assert forall|j: int| 0 <= j < i + 1 implies #[trigger] next.grid[j] != 0 by {
                if j < i {
                    assert(st.grid[j] != 0);
                }
            }
        }
    } else if st.grid[i] != 0 && st.best is None {
        assert forall|j: int| 0 <= j < i + 1 implies #[trigger] st.grid[j] != 0 by {}
    }
}

/// A scan that ends keeps `scan_inv` to its end.
pub proof fn lemma_scan_from(g0: Seq<u32>, st: ScanState, i: int)
    requires
        0 <= i <= 81,
        scan_inv(g0, st, i),
    ensures
        scan_from(st, i) matches Some(last) ==> scan_inv(g0, last, 81),
    decreases 81 - i,
{
    if i < 81 {
        lemma_scan_cell(g0, st, i);
        if scan_cell(st, i) is Some {
            lemma_scan_from(g0, scan_cell(st, i)->0, i + 1);
        }
    }
}

/// What a finished scan of `g` has done.
pub proof fn lemma_scan(g: Seq<u32>)
    requires
        g.len() == 81,
    ensures
        scan(g) matches Some(last) ==> scan_inv(g, last, 81),
{
    lemma_scan_from(g, scan_start(g), 0);
}

/// The outcome of the search on board `g`: the board it arrives at, or
/// `None` when it finds none.
///
/// The board is scanned until a scan fills nothing. A scan that meets an
/// empty cell without candidates fails the search. A scan that leaves no
/// cell open ends it with the board as it stands. Otherwise the open cell
/// with the fewest candidates (the first such cell) is guessed at.
pub open spec fn search(g: Seq<u32>) -> Option<Seq<u32>>
    decreases empties(g), 1nat, 0nat,
    when g.len() == 81
{
    match scan(g) {
        None => None,
        Some(last) => match last.best {
            None => Some(last.grid),
            Some(branch) => {
                proof {
                    lemma_scan(g);
                }
                if last.filled {
                    search(last.grid)
                } else {
                    try_digits(last.grid, branch.cell, branch.digits, 0)
                }
            },
        },
    }
}

/// The guess at the empty cell `cell` of `g`: the outcome of the search for
/// the first of `digits[k..]` with which it finds a board.
pub open spec fn try_digits(g: Seq<u32>, cell: int, digits: Seq<u32>, k: int) -> Option<Seq<u32>>
    decreases empties(g), 0nat, digits.len() - k,
    when g.len() == 81 && 0 <= cell < 81 && g[cell] == 0 && 0 <= k && !digits.contains(0)
{
    if k >= digits.len() {
        None
    } else {
        proof {
            lemma_place_empties(g, cell, digits[k]);
        }
        match search(g.update(cell, digits[k])) {
            Some(found) => Some(found),
            None => try_digits(g, cell, digits, k + 1),
        }
    }
}

/// In a completion of `g`, an empty cell of `g` holds one of its candidates.
pub proof fn lemma_completion_picks_candidate(g: Seq<u32>, i: int, t: Seq<u32>)
    requires
        g.len() == 81,
        0 <= i < 81,
        g[i] == 0,
        is_completion(g, t),
    ensures
        1 <= t[i] <= 9,
        !seen(g, i, t[i] as int),
        candidates(g, i).contains(t[i]),
{
    assert(fits(t, i));
    lemma_seen_is_peer(g, i, t[i] as int);
    if exists|j: int| 0 <= j < 81 && peers(i, j) && #[trigger] g[j] == t[i] {
        let j = choose|j: int| 0 <= j < 81 && peers(i, j) && #[trigger] g[j] == t[i];
        assert(t[j] == g[j]);
    }
    lemma_candidates_upto(g, i, 9);
    let k = choose|k: int|
        0 <= k < candidates(g, i).len() && #[trigger] candidates_upto(g, i, 9)[k] == t[i] as int;
    assert(candidates(g, i)[k] == t[i]);
}

/// A completion of `g` is still one once an empty cell of `g` has been
/// given the digit it holds in the completion.
pub proof fn lemma_completion_after_place(g: Seq<u32>, i: int, t: Seq<u32>)
    requires
        g.len() == 81,
        0 <= i < 81,
        g[i] == 0,
        is_completion(g, t),
    ensures
        is_completion(g.update(i, t[i]), t),
{
    let h = g.update(i, t[i]);
    assert forall|k: int| 0 <= k < 81 && h[k] == 0 && #[trigger] t[k] != 0 implies fits(t, k) by {
        assert(g[k] == 0);
    }
}

/// A scan of a board that has a completion does not fail, and what it
/// fills in agrees with the completion.
pub proof fn lemma_scan_keeps_completion(st: ScanState, i: int, t: Seq<u32>)
    requires
        st.grid.len() == 81,
        0 <= i <= 81,
        is_completion(st.grid, t),
    ensures
        scan_from(st, i) matches Some(last) && is_completion(last.grid, t),
    decreases 81 - i,
{
    if i < 81 {
        if st.grid[i] == 0 {
            lemma_completion_picks_candidate(st.grid, i, t);
            lemma_completion_after_place(st.grid, i, t);
        }
        lemma_scan_keeps_completion(scan_cell(st, i)->0, i + 1, t);
    }
}

/// Whatever board the search arrives at is a completion of the board it
/// started from.
pub proof fn lemma_search_sound(g: Seq<u32>)
    requires
        well_formed(g),
    ensures
        search(g) matches Some(found) ==> is_completion(g, found),
    decreases empties(g), 1nat, 0nat,
{
    lemma_scan(g);
    if scan(g) is Some {
        let last = scan(g)->0;
        if last.best is Some {
            if last.filled {
                lemma_search_sound(last.grid);
                if search(last.grid) is Some {
                    lemma_continues_trans(g, last.grid, search(last.grid)->0);
                }
            } else {
                lemma_try_digits_sound(g, last.best->0.cell, 0);
            }
        } else {
            assert(is_full(last.grid));
        }
    }
}

/// Whatever board a guess arrives at is a completion of the board guessed
/// on.
pub proof fn lemma_try_digits_sound(g: Seq<u32>, cell: int, k: int)
    requires
        well_formed(g),
        0 <= cell < 81,
        g[cell] == 0,
        0 <= k,
    ensures
        try_digits(g, cell, candidates(g, cell), k) matches Some(found) ==> is_completion(g, found),
    decreases empties(g), 0nat, candidates(g, cell).len() - k,
{
    let digits = candidates(g, cell);
    lemma_candidates_upto(g, cell, 9);
    if k < digits.len() {
        let h = g.update(cell, digits[k]);
        lemma_place_empties(g, cell, digits[k]);
        lemma_place_continues(g, cell, digits[k]);
        lemma_search_sound(h);
        if search(h) is Some {
            lemma_continues_trans(g, h, search(h)->0);
        } else {
            lemma_try_digits_sound(g, cell, k + 1);
        }
    }
}

/// The search finds a board whenever the board it starts from has a
/// completion.
pub proof fn lemma_search_complete(g: Seq<u32>, t: Seq<u32>)
    requires
        well_formed(g),
        is_completion(g, t),
    ensures
        search(g) is Some,
    decreases empties(g), 1nat, 0nat,
{
    lemma_scan(g);
    lemma_scan_keeps_completion(scan_start(g), 0, t);
    let last = scan(g)->0;
    if last.best is Some {
        let branch = last.best->0;
        if last.filled {
            lemma_search_complete(last.grid, t);
        } else {
            lemma_completion_picks_candidate(g, branch.cell, t);
            let at = choose|at: int|
                0 <= at < branch.digits.len() && branch.digits[at] == t[branch.cell];
            lemma_try_digits_complete(g, branch.cell, 0, at, t);
        }
    }
}

/// A guess finds a board whenever one of the digits still to be tried is
/// the one that a completion holds in the cell.
pub proof fn lemma_try_digits_complete(g: Seq<u32>, cell: int, k: int, at: int, t: Seq<u32>)
    requires
        well_formed(g),
        0 <= cell < 81,
        g[cell] == 0,
        is_completion(g, t),
        0 <= k <= at < candidates(g, cell).len(),
        candidates(g, cell)[at] == t[cell],
    ensures
        try_digits(g, cell, candidates(g, cell), k) is Some,
    decreases empties(g), 0nat, candidates(g, cell).len() - k,
{
    let digits = candidates(g, cell);
    lemma_candidates_upto(g, cell, 9);
    let h = g.update(cell, digits[k]);
    lemma_place_empties(g, cell, digits[k]);
    if k == at {
        lemma_completion_after_place(g, cell, t);
        lemma_search_complete(h, t);
    } else if search(h) is None {
        lemma_try_digits_complete(g, cell, k + 1, at, t);
    }
}

} // verus!
