//! The rules of the game: when two cells exclude each other, when a board is
//! solved, and when one board is a lawful completion of another.

use vstd::prelude::*;
use vstd::set_lib::*;
use crate::grid::{
    col_has, col_of, row_has, row_of, same_box, same_col, same_row, seen, well_formed,
};

verus! {

/// Two distinct cells that share a row, a column or a subgrid.
pub open spec fn peers(i: int, j: int) -> bool {
    i != j && (same_row(i, j) || same_col(i, j) || same_box(i, j))
}

/// No cell is empty.
pub open spec fn is_full(g: Seq<u32>) -> bool {
    forall|i: int| 0 <= i < 81 ==> #[trigger] g[i] != 0
}

/// No digit stands in two cells that share a row, a column or a subgrid.
pub open spec fn conflict_free(g: Seq<u32>) -> bool {
    forall|i: int, j: int|
        0 <= i < 81 && 0 <= j < 81 && peers(i, j) && #[trigger] g[i] != 0 ==> g[i]
            != #[trigger] g[j]
}

/// Cell `k` of unit `u`. Units `0..9` are the rows, `9..18` the columns and
/// `18..27` the subgrids; each has nine cells `k` in `0..9`.
pub open spec fn unit_cell(u: int, k: int) -> int {
    if u < 9 {
        u * 9 + k
    } else if u < 18 {
        k * 9 + (u - 9)
    } else {
        ((u - 18) / 3 * 3 + k / 3) * 9 + (u - 18) % 3 * 3 + k % 3
    }
}

/// Digit `d` stands in exactly one cell of unit `u`.
pub open spec fn occurs_once(g: Seq<u32>, u: int, d: int) -> bool {
    &&& exists|k: int| 0 <= k < 9 && g[#[trigger] unit_cell(u, k)] == d
    &&& forall|k: int, m: int|
        0 <= k < 9 && 0 <= m < 9 && g[#[trigger] unit_cell(u, k)] == d && g[#[trigger] unit_cell(
            u,
            m,
        )] == d ==> k == m
}

/// Every row, every column and every subgrid holds each digit of `1..=9`
/// exactly once.
pub open spec fn is_solved(g: Seq<u32>) -> bool {
    &&& well_formed(g)
    &&& forall|u: int, d: int| 0 <= u < 27 && 1 <= d <= 9 ==> #[trigger] occurs_once(g, u, d)
}

/// `g` keeps every digit that `p` holds.
pub open spec fn extends(p: Seq<u32>, g: Seq<u32>) -> bool {
    forall|i: int| 0 <= i < 81 && #[trigger] p[i] != 0 ==> g[i] == p[i]
}

/// The digit in cell `i` stands in none of its peers.
pub open spec fn fits(g: Seq<u32>, i: int) -> bool {
    forall|j: int| 0 <= j < 81 && peers(i, j) ==> #[trigger] g[j] != g[i]
}

/// `g` continues `p`: it keeps the digits of `p`, and each digit it adds
/// stands in none of the peers of its cell.
pub open spec fn continues(p: Seq<u32>, g: Seq<u32>) -> bool {
    &&& extends(p, g)
    &&& forall|i: int| 0 <= i < 81 && p[i] == 0 && #[trigger] g[i] != 0 ==> fits(g, i)
}

/// `g` is a completion of `p`: a full board that continues `p`. The digits
/// that `p` already holds are taken as they are, whether or not they clash.
pub open spec fn is_completion(p: Seq<u32>, g: Seq<u32>) -> bool {
    &&& well_formed(g)
    &&& is_full(g)
    &&& continues(p, g)
}

/// A digit that cell `i` sees is the digit of `i` itself or of a peer.
pub proof fn lemma_seen_is_peer(g: Seq<u32>, i: int, v: int)
    requires
        0 <= i < 81,
    ensures
        seen(g, i, v) <==> (g[i] == v || exists|j: int|
            0 <= j < 81 && peers(i, j) && #[trigger] g[j] == v),
{
    if seen(g, i, v) {
        let j = if row_has(g, i, v) {
            choose|j: int| 0 <= j < 81 && same_row(i, j) && (#[trigger] g[j]) == v
        } else if col_has(g, i, v) {
            choose|j: int| 0 <= j < 81 && same_col(i, j) && (#[trigger] g[j]) == v
        } else {
            choose|j: int| 0 <= j < 81 && same_box(i, j) && (#[trigger] g[j]) == v
        };
        assert(0 <= j < 81 && g[j] == v);
        if j != i {
            assert(peers(i, j));
        }
    }
    if g[i] == v {
        assert(same_row(i, i));
    }
    if exists|j: int| 0 <= j < 81 && peers(i, j) && #[trigger] g[j] == v {
        let j = choose|j: int| 0 <= j < 81 && peers(i, j) && #[trigger] g[j] == v;
        assert(g[j] == v);
    }
}

/// Continuation is transitive.
pub proof fn lemma_continues_trans(a: Seq<u32>, b: Seq<u32>, c: Seq<u32>)
    requires
        continues(a, b),
        continues(b, c),
    ensures
        continues(a, c),
{
    assert forall|i: int| 0 <= i < 81 && a[i] == 0 && #[trigger] c[i] != 0 implies fits(c, i) by {
        if b[i] != 0 {
            assert(fits(b, i));
            assert forall|j: int| 0 <= j < 81 && peers(i, j) implies #[trigger] c[j] != c[i] by {
                if b[j] == 0 && c[j] != 0 {
                    assert(fits(c, j));
                    assert(peers(j, i));
                }
            }
        }
    }
}

/// Placing an unseen digit in an empty cell continues the board.
pub proof fn lemma_place_continues(g: Seq<u32>, i: int, v: u32)
    requires
        g.len() == 81,
        0 <= i < 81,
        g[i] == 0,
        v != 0,
        !seen(g, i, v as int),
    ensures
        continues(g, g.update(i, v)),
{
    let h = g.update(i, v);
    lemma_seen_is_peer(g, i, v as int);
    assert forall|k: int| 0 <= k < 81 && g[k] == 0 && #[trigger] h[k] != 0 implies fits(h, k) by {
        assert(k == i);
        assert forall|j: int| 0 <= j < 81 && peers(i, j) implies #[trigger] h[j] != h[i] by {
            assert(h[j] == g[j]);
        }
    }
}

/// Where cell `k` of unit `u` lies: its row and its column.
proof fn lemma_unit_cell_place(u: int, k: int)
    requires
        0 <= u < 27,
        0 <= k < 9,
    ensures
        0 <= unit_cell(u, k) < 81,
        u < 9 ==> row_of(unit_cell(u, k)) == u && col_of(unit_cell(u, k)) == k,
        9 <= u < 18 ==> row_of(unit_cell(u, k)) == k && col_of(unit_cell(u, k)) == u - 9,
        18 <= u ==> row_of(unit_cell(u, k)) == (u - 18) / 3 * 3 + k / 3 && col_of(unit_cell(u, k))
            == (u - 18) % 3 * 3 + k % 3,
{
    if 18 <= u {
        let r = (u - 18) / 3 * 3 + k / 3;
        let c = (u - 18) % 3 * 3 + k % 3;
        assert(0 <= r < 9 && 0 <= c < 9);
        assert(unit_cell(u, k) == r * 9 + c);
        assert((r * 9 + c) / 9 == r && (r * 9 + c) % 9 == c);
    }
}

/// The cells of a unit lie on the board, and two different ones are peers.
pub proof fn lemma_unit_cells(u: int, k: int, m: int)
    requires
        0 <= u < 27,
        0 <= k < 9,
        0 <= m < 9,
    ensures
        0 <= unit_cell(u, k) < 81,
        k != m ==> peers(unit_cell(u, k), unit_cell(u, m)),
{
    lemma_unit_cell_place(u, k);
    lemma_unit_cell_place(u, m);
    if 18 <= u && k != m {
        let b = u - 18;
        assert((b / 3 * 3 + k / 3) / 3 == b / 3);
        assert((b / 3 * 3 + m / 3) / 3 == b / 3);
        assert((b % 3 * 3 + k % 3) / 3 == b % 3);
        assert((b % 3 * 3 + m % 3) / 3 == b % 3);
        assert(k / 3 != m / 3 || k % 3 != m % 3);
    }
}

/// Two peers are two different cells of some unit.
pub proof fn lemma_peers_share_unit(i: int, j: int) -> (r: (int, int, int))
    requires
        0 <= i < 81,
        0 <= j < 81,
        peers(i, j),
    ensures
        0 <= r.0 < 27,
        0 <= r.1 < 9,
        0 <= r.2 < 9,
        r.1 != r.2,
        unit_cell(r.0, r.1) == i,
        unit_cell(r.0, r.2) == j,
{
    let (ri, ci) = (i / 9, i % 9);
    let (rj, cj) = (j / 9, j % 9);
    assert(i == ri * 9 + ci && j == rj * 9 + cj);
    if same_row(i, j) {
        (ri, ci, cj)
    } else if same_col(i, j) {
        (9 + ci, ri, rj)
    } else {
        let b = ri / 3 * 3 + ci / 3;
        let k = ri % 3 * 3 + ci % 3;
        let m = rj % 3 * 3 + cj % 3;
        assert(b / 3 == ri / 3 && b % 3 == ci / 3);
        assert(k / 3 == ri % 3 && k % 3 == ci % 3);
        assert(m / 3 == rj % 3 && m % 3 == cj % 3);
        assert(ri == ri / 3 * 3 + ri % 3 && ci == ci / 3 * 3 + ci % 3);
        assert(rj == rj / 3 * 3 + rj % 3 && cj == cj / 3 * 3 + cj % 3);
        assert(unit_cell(18 + b, k) == (b / 3 * 3 + k / 3) * 9 + b % 3 * 3 + k % 3);
        assert(unit_cell(18 + b, m) == (b / 3 * 3 + m / 3) * 9 + b % 3 * 3 + m % 3);
        (18 + b, k, m)
    }
}

/// Nine pairwise different numbers out of nine consecutive ones are all of
/// them.
proof fn lemma_nine_distinct_cover(s: Seq<int>, lo: int)
    requires
        s.len() == 9,
        s.no_duplicates(),
        forall|k: int| 0 <= k < 9 ==> lo <= #[trigger] s[k] < lo + 9,
    ensures
        forall|v: int| lo <= v < lo + 9 ==> s.contains(v),
{
    let range = set_int_range(lo, lo + 9);
    s.unique_seq_to_set();
    lemma_int_range(lo, lo + 9);
    assert(s.to_set().subset_of(range));
    lemma_len_subset(s.to_set(), range);
    lemma_subset_equality(s.to_set(), range);
    assert forall|v: int| lo <= v < lo + 9 implies s.contains(v) by {
        assert(range.contains(v));
        assert(s.to_set().contains(v));
    }
}

/// A full board without clashes is solved.
pub proof fn lemma_full_conflict_free_is_solved(g: Seq<u32>)
    requires
        well_formed(g),
        is_full(g),
        conflict_free(g),
    ensures
        is_solved(g),
{
    assert forall|u: int, d: int| 0 <= u < 27 && 1 <= d <= 9 implies #[trigger] occurs_once(
        g,
        u,
        d,
    ) by {
        let s = Seq::new(9, |k: int| g[unit_cell(u, k)] as int);
        assert forall|k: int| 0 <= k < 9 implies 1 <= #[trigger] s[k] < 1 + 9 by {
            lemma_unit_cells(u, k, k);
        }
        assert forall|k: int, m: int| 0 <= k < 9 && 0 <= m < 9 && k != m implies s[k] != s[m] by {
            lemma_unit_cells(u, k, m);
        }
        lemma_nine_distinct_cover(s, 1);
        assert(s.contains(d));
        let k = choose|k: int| 0 <= k < 9 && s[k] == d;
        assert(g[unit_cell(u, k)] == d);
        assert forall|a: int, b: int|
            0 <= a < 9 && 0 <= b < 9 && g[#[trigger] unit_cell(u, a)] == d
                && g[#[trigger] unit_cell(u, b)] == d implies a == b by {
            assert(s[a] == s[b]);
        }
    }
}

/// On a solved board no cell is empty and no two peers hold the same digit.
pub proof fn lemma_solved_is_full_conflict_free(g: Seq<u32>)
    requires
        is_solved(g),
    ensures
        is_full(g),
        conflict_free(g),
{
    assert forall|i: int| 0 <= i < 81 implies #[trigger] g[i] != 0 by {
        if g[i] == 0 {
            let u = i / 9;
            let pos = |t: int| choose|k: int| 0 <= k < 9 && g[#[trigger] unit_cell(u, k)] == t + 1;
            let s = Seq::new(9, pos);
            assert forall|t: int| 0 <= t < 9 implies 0 <= #[trigger] s[t] < 9 && g[unit_cell(
                u,
                s[t],
            )] == t + 1 by {
                assert(occurs_once(g, u, t + 1));
            }
            lemma_nine_distinct_cover(s, 0);
            assert(s.contains(i % 9));
            let t = choose|t: int| 0 <= t < 9 && s[t] == i % 9;
            assert(unit_cell(u, s[t]) == i);
        }
    }
    assert forall|i: int, j: int|
        0 <= i < 81 && 0 <= j < 81 && peers(i, j) && #[trigger] g[i] != 0 implies g[i]
        != #[trigger] g[j] by {
        if g[i] == g[j] {
            let (u, k, m) = lemma_peers_share_unit(i, j);
            assert(occurs_once(g, u, g[i] as int));
        }
    }
}

/// A continuation of a board without clashes has no clashes either.
pub proof fn lemma_continues_conflict_free(p: Seq<u32>, g: Seq<u32>)
    requires
        conflict_free(p),
        continues(p, g),
    ensures
        conflict_free(g),
{
    assert forall|i: int, j: int|
        0 <= i < 81 && 0 <= j < 81 && peers(i, j) && #[trigger] g[i] != 0 implies g[i]
        != #[trigger] g[j] by {
        if p[i] == 0 {
            assert(fits(g, i));
        } else if p[j] == 0 {
            if g[j] != 0 {
                assert(fits(g, j));
                assert(peers(j, i));
            }
        } else {
            assert(g[i] == p[i] && g[j] == p[j]);
        }
    }
}

/// A board that keeps a clash of `p` has a clash.
pub proof fn lemma_extends_keeps_conflict(p: Seq<u32>, g: Seq<u32>)
    requires
        extends(p, g),
        !conflict_free(p),
    ensures
        !conflict_free(g),
{
    let (i, j) = choose|i: int, j: int|
        0 <= i < 81 && 0 <= j < 81 && peers(i, j) && #[trigger] p[i] != 0
            && p[i] == #[trigger] p[j];
    assert(g[i] == p[i] && g[j] == p[j]);
}

} // verus!
