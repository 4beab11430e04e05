//! The board, its geometry, and the candidate digits of a cell.

use vstd::prelude::*;

verus! {

/// A 9×9 board in row-major order: cell `row * 9 + col` holds `0` when it is
/// empty and a digit `1..=9` when it is filled.
pub struct Puzzle {
    pub cells: [u32; 81],
}

impl View for Puzzle {
    type V = Seq<u32>;

    open spec fn view(&self) -> Seq<u32> {
        self.cells@
    }
}

/// The shape of a board: 81 cells, each at most 9.
pub open spec fn well_formed(g: Seq<u32>) -> bool {
    &&& g.len() == 81
    &&& forall|i: int| 0 <= i < 81 ==> #[trigger] g[i] <= 9
}

/// The row of cell `i`, from `0` at the top.
pub open spec fn row_of(i: int) -> int {
    i / 9
}

/// The column of cell `i`, from `0` at the left.
pub open spec fn col_of(i: int) -> int {
    i % 9
}

/// Two cells lie in the same row.
pub open spec fn same_row(i: int, j: int) -> bool {
    row_of(i) == row_of(j)
}

/// Two cells lie in the same column.
pub open spec fn same_col(i: int, j: int) -> bool {
    col_of(i) == col_of(j)
}

/// Two cells lie in the same 3×3 subgrid.
pub open spec fn same_box(i: int, j: int) -> bool {
    row_of(i) / 3 == row_of(j) / 3 && col_of(i) / 3 == col_of(j) / 3
}

impl Puzzle {
    /// Every cell holds a value in `0..=9`.
    pub open spec fn wf(&self) -> bool {
        well_formed(self@)
    }

    /// Whether every cell holds a value in `0..=9`.
    pub fn is_well_formed(&self) -> (ok: bool)
        ensures
            ok == self.wf(),
    {
        let mut i: usize = 0;
        while i < 81
            invariant
                i <= 81,
                forall|k: int| 0 <= k < i ==> #[trigger] self@[k] <= 9,
            decreases 81 - i,
        {
            if self.cells[i] > 9 {
                return false;
            }
            i += 1;
        }
        true
    }
}

/// Digit `v` stands somewhere in the row of cell `idx`.
pub open spec fn row_has(g: Seq<u32>, idx: int, v: int) -> bool {
    exists|j: int| 0 <= j < 81 && same_row(idx, j) && (#[trigger] g[j]) == v
}

/// Digit `v` stands somewhere in the column of cell `idx`.
pub open spec fn col_has(g: Seq<u32>, idx: int, v: int) -> bool {
    exists|j: int| 0 <= j < 81 && same_col(idx, j) && (#[trigger] g[j]) == v
}

/// Digit `v` stands somewhere in the 3×3 subgrid of cell `idx`.
pub open spec fn box_has(g: Seq<u32>, idx: int, v: int) -> bool {
    exists|j: int| 0 <= j < 81 && same_box(idx, j) && (#[trigger] g[j]) == v
}

/// The digits present in the row of cell `idx`: entry `d` tells whether
/// digit `d + 1` occurs there.
pub fn row_vals(puzz: &Puzzle, idx: usize) -> (ret: [bool; 9])
    requires
        puzz.wf(),
        idx < 81,
    ensures
        forall|d: int| 0 <= d < 9 ==> (#[trigger] ret[d] <==> row_has(puzz@, idx as int, d + 1)),
{
    let mut ret: [bool; 9] = [false; 9];
    let row = idx / 9;
    for col in 0..9usize
        invariant
            puzz.wf(),
            idx < 81,
            row == idx / 9,
            forall|d: int|
                0 <= d < 9 ==> (#[trigger] ret[d] <==> exists|j: int|
                    row * 9 <= j < row * 9 + col && (#[trigger] puzz@[j]) == d + 1),
    {
        let idx = col + (row * 9);
        let v = puzz.cells[idx];
        if v > 0 {
            ret[(v - 1) as usize] = true;
        }
    }
    ret
}

/// The digits present in the column of cell `idx`: entry `d` tells whether
/// digit `d + 1` occurs there.
pub fn col_vals(puzz: &Puzzle, idx: usize) -> (ret: [bool; 9])
    requires
        puzz.wf(),
        idx < 81,
    ensures
        forall|d: int| 0 <= d < 9 ==> (#[trigger] ret[d] <==> col_has(puzz@, idx as int, d + 1)),
{
    let mut ret: [bool; 9] = [false; 9];
    let col = idx % 9;
    for row in 0..9usize
        invariant
            puzz.wf(),
            idx < 81,
            col == idx % 9,
            forall|d: int|
                0 <= d < 9 ==> (#[trigger] ret[d] <==> exists|j: int|
                    0 <= j < 81 && same_col(idx as int, j) && row_of(j) < row && (
                    #[trigger] puzz@[j]) == d + 1),
    {
        let idx = col + (row * 9);
        let v = puzz.cells[idx];
        if v > 0 {
            ret[(v - 1) as usize] = true;
        }
    }
    ret
}

/// The digits present in the 3×3 subgrid of cell `idx`: entry `d` tells
/// whether digit `d + 1` occurs there.
pub fn subgrid_vals(puzz: &Puzzle, idx: usize) -> (ret: [bool; 9])
    requires
        puzz.wf(),
        idx < 81,
    ensures
        forall|d: int| 0 <= d < 9 ==> (#[trigger] ret[d] <==> box_has(puzz@, idx as int, d + 1)),
{
    let mut ret: [bool; 9] = [false; 9];
    let col = idx % 9;
    let row = idx / 9;
    let scol = col / 3 * 3;
    let srow = row / 3 * 3;

    for r in 0..3usize
        invariant
            puzz.wf(),
            idx < 81,
            scol == (idx % 9) / 3 * 3,
            srow == (idx / 9) / 3 * 3,
            forall|d: int|
                0 <= d < 9 ==> (#[trigger] ret[d] <==> exists|j: int|
                    0 <= j < 81 && same_box(idx as int, j) && row_of(j) < srow + r && (
                    #[trigger] puzz@[j]) == d + 1),
    {
        for c in 0..3usize
            invariant
                puzz.wf(),
                idx < 81,
                r < 3,
                scol == (idx % 9) / 3 * 3,
                srow == (idx / 9) / 3 * 3,
                forall|d: int|
                    0 <= d < 9 ==> (#[trigger] ret[d] <==> exists|j: int|
                        0 <= j < 81 && same_box(idx as int, j) && (row_of(j) < srow + r || (row_of(
                            j,
                        ) == srow + r && col_of(j) < scol + c)) && (#[trigger] puzz@[j]) == d + 1),
        {
            let idx = scol + c + (srow + r) * 9;
            let v = puzz.cells[idx];
            if v > 0 {
                ret[(v - 1) as usize] = true;
            }
        }
    }
    ret
}

/// Digit `v` already stands in the row, the column or the subgrid of cell
/// `idx`, so it cannot be placed there.
pub open spec fn seen(g: Seq<u32>, idx: int, v: int) -> bool {
    row_has(g, idx, v) || col_has(g, idx, v) || box_has(g, idx, v)
}

/// The digits among `1..=n` that cell `idx` does not see, in ascending order.
pub open spec fn candidates_upto(g: Seq<u32>, idx: int, n: int) -> Seq<u32>
    decreases n,
{
    if n <= 0 {
        Seq::empty()
    } else if seen(g, idx, n) {
        candidates_upto(g, idx, n - 1)
    } else {
        candidates_upto(g, idx, n - 1).push(n as u32)
    }
}

/// The candidate set of cell `idx`: every digit of `1..=9` that occurs
/// neither in its row, nor in its column, nor in its subgrid, ascending.
pub open spec fn candidates(g: Seq<u32>, idx: int) -> Seq<u32> {
    candidates_upto(g, idx, 9)
}

/// What `candidates_upto` holds: exactly the unseen digits of `1..=n`, each
/// once, in strictly ascending order.
pub proof fn lemma_candidates_upto(g: Seq<u32>, idx: int, n: int)
    requires
        0 <= n <= 9,
    ensures
        candidates_upto(g, idx, n).len() <= n,
        forall|k: int|
            0 <= k < candidates_upto(g, idx, n).len() ==> 1 <= #[trigger] candidates_upto(
                g,
                idx,
                n,
            )[k] <= n && !seen(g, idx, candidates_upto(g, idx, n)[k] as int),
        forall|a: int, b: int|
            0 <= a < b < candidates_upto(g, idx, n).len() ==> candidates_upto(g, idx, n)[a]
                < candidates_upto(g, idx, n)[b],
        forall|v: int|
            1 <= v <= n && !seen(g, idx, v) ==> exists|k: int|
                0 <= k < candidates_upto(g, idx, n).len() && #[trigger] candidates_upto(
                    g,
                    idx,
                    n,
                )[k] == v,
    decreases n,
{
    if n > 0 {
        lemma_candidates_upto(g, idx, n - 1);
        let prev = candidates_upto(g, idx, n - 1);
        let cur = candidates_upto(g, idx, n);
        assert forall|v: int| 1 <= v <= n && !seen(g, idx, v) implies exists|k: int|
            0 <= k < cur.len() && #[trigger] cur[k] == v by {
            if v == n {
                assert(cur[prev.len() as int] == v);
            } else {
                let k = choose|k: int| 0 <= k < prev.len() && #[trigger] prev[k] == v;
                assert(cur[k] == v);
            }
        }
    }
}

/// The candidate digits of cell `idx`, ascending: those of `1..=9` that
/// occur neither in its row, nor in its column, nor in its subgrid.
pub fn poss_for_idx(puzz: &Puzzle, idx: usize) -> (poss: Vec<u32>)
    requires
        puzz.wf(),
        idx < 81,
    ensures
        poss@ == candidates(puzz@, idx as int),
        poss.len() <= 9,
        forall|k: int|
            0 <= k < poss.len() ==> 1 <= #[trigger] poss[k] <= 9 && !seen(
                puzz@,
                idx as int,
                poss[k] as int,
            ),
        forall|v: u32| 1 <= v <= 9 && !seen(puzz@, idx as int, v as int) ==> poss@.contains(v),
        forall|a: int, b: int| 0 <= a < b < poss.len() ==> poss[a] < poss[b],
{
    let colvals = col_vals(puzz, idx);
    let rowvals = row_vals(puzz, idx);
    let subgridvals = subgrid_vals(puzz, idx);

    let mut poss: Vec<u32> = Vec::new();
    for i in 0..9usize
        invariant
            idx < 81,
            poss@ == candidates_upto(puzz@, idx as int, i as int),
            forall|d: int|
                0 <= d < 9 ==> (#[trigger] rowvals[d] <==> row_has(puzz@, idx as int, d + 1)),
            forall|d: int|
                0 <= d < 9 ==> (#[trigger] colvals[d] <==> col_has(puzz@, idx as int, d + 1)),
            forall|d: int|
                0 <= d < 9 ==> (#[trigger] subgridvals[d] <==> box_has(puzz@, idx as int, d + 1)),
    {
        let taken = colvals[i] || rowvals[i] || subgridvals[i];
        if !taken {
            poss.push((i + 1) as u32);
        }
    }
    proof {
        lemma_candidates_upto(puzz@, idx as int, 9);
        assert forall|v: u32|
            1 <= v <= 9 && !seen(puzz@, idx as int, v as int) implies poss@.contains(v) by {
            let k = choose|k: int| 0 <= k < poss.len() && #[trigger] poss[k] == v as int;
            assert(poss@[k] == v);
        }
    }
    poss
}

impl Clone for Puzzle {
    fn clone(&self) -> (copy: Self)
        ensures
            copy == *self,
    {
        Puzzle { cells: self.cells }
    }
}

} // verus!
