//! Mathematical model of the grid and of one elimination pass.
//!
//! The executable types are specified against this model: a cell is a
//! position, a sequence of candidate values and a solved flag; an
//! elimination pass is the pointwise function `grid_pass`, which scans
//! every unsolved cell against a snapshot of the grid taken at the start
//! of the pass.

use vstd::arithmetic::div_mod::{
    lemma_fundamental_div_mod, lemma_fundamental_div_mod_converse, lemma_mod_pos_bound,
};
use vstd::prelude::*;

verus! {

/// Model of one grid cell: its position, the candidate values still
/// possible for it, and whether it is solved.
#[verifier::ext_equal]
pub ghost struct CellModel {
    pub row: int,
    pub col: int,
    pub options: Seq<i8>,
    pub solved: bool,
}

impl CellModel {
    /// A well-formed cell sits on the grid, keeps its candidates distinct
    /// and within 1..=9 and never empty; a solved cell holds exactly one
    /// candidate and an unsolved one at least two.
    pub open spec fn wf(self) -> bool {
        &&& 0 <= self.row < 9
        &&& 0 <= self.col < 9
        &&& self.options.no_duplicates()
        &&& forall|i: int| 0 <= i < self.options.len() ==> 1 <= #[trigger] self.options[i] <= 9
        &&& 1 <= self.options.len() <= 9
        &&& self.solved ==> self.options.len() == 1
        &&& !self.solved ==> self.options.len() >= 2
    }
}

/// Row of the cell at flat index `i` (row-major order).
pub open spec fn row_of(i: int) -> int {
    i / 9
}

/// Column of the cell at flat index `i`.
pub open spec fn col_of(i: int) -> int {
    i % 9
}

/// Flat index of the cell at row `r`, column `c`.
pub open spec fn cell_index(r: int, c: int) -> int {
    r * 9 + c
}

/// The cells at indices `i` and `k` lie in the same 3x3 block.
pub open spec fn same_block(i: int, k: int) -> bool {
    row_of(i) / 3 == row_of(k) / 3 && col_of(i) / 3 == col_of(k) / 3
}

/// Distinct cells sharing a row, a column or a block.
pub open spec fn is_peer(i: int, k: int) -> bool {
    &&& 0 <= i < 81
    &&& 0 <= k < 81
    &&& i != k
    &&& (row_of(i) == row_of(k) || col_of(i) == col_of(k) || same_block(i, k))
}

/// The candidate sequence `s` with every occurrence of `v` removed,
/// other values kept in order.
pub open spec fn remove_value(s: Seq<i8>, v: i8) -> Seq<i8>
    decreases s.len(),
{
    if s.len() == 0 {
        Seq::empty()
    } else {
        let rest = remove_value(s.drop_last(), v);
        if s.last() == v {
            rest
        } else {
            rest.push(s.last())
        }
    }
}

/// One comparison of cell `c` against peer `o`: if `o` is solved and is
/// not the same cell, its single value is removed from `c`'s candidates;
/// if exactly one candidate is then left, `c` is marked solved.
pub open spec fn check_remove_model(c: CellModel, o: CellModel) -> CellModel {
    if o.row == c.row && o.col == c.col {
        c
    } else {
        let opts = if o.solved {
            remove_value(c.options, o.options[0])
        } else {
            c.options
        };
        CellModel {
            row: c.row,
            col: c.col,
            options: opts,
            solved: if opts.len() == 1 {
                true
            } else {
                c.solved
            },
        }
    }
}

/// Scan cell `c` against the peers of `snap` at the indices of `order`,
/// in order, stopping as soon as `c` becomes solved.
pub open spec fn scan_peers(c: CellModel, snap: Seq<CellModel>, order: Seq<int>) -> CellModel
    decreases order.len(),
{
    if order.len() == 0 {
        c
    } else if c.solved {
        c
    } else {
        scan_peers(check_remove_model(c, snap[order[0]]), snap, order.drop_first())
    }
}

/// Indices of the row of a cell in row `r`, left to right.
pub open spec fn row_order(r: int) -> Seq<int> {
    Seq::new(9, |j: int| r * 9 + j)
}

/// Indices of the column of a cell in column `c`, top to bottom.
pub open spec fn col_order(c: int) -> Seq<int> {
    Seq::new(9, |i: int| i * 9 + c)
}

/// Indices of the 3x3 block of a cell at row `r`, column `c`, row-major.
pub open spec fn block_order(r: int, c: int) -> Seq<int> {
    Seq::new(9, |k: int| (r / 3 * 3 + k / 3) * 9 + (c / 3 * 3 + k % 3))
}

/// All peers examined for a cell at row `r`, column `c`: its row, then
/// its column, then its block.  The cell itself occurs in each group and
/// is skipped by `check_remove_model`.
pub open spec fn peer_order(r: int, c: int) -> Seq<int> {
    row_order(r) + col_order(c) + block_order(r, c)
}

/// What one pass makes of a single cell: a solved cell is left alone, an
/// unsolved one is scanned against all of its peers in the snapshot.
pub open spec fn cell_pass(c: CellModel, snap: Seq<CellModel>) -> CellModel {
    if c.solved {
        c
    } else {
        scan_peers(c, snap, peer_order(c.row, c.col))
    }
}

/// One elimination pass over the whole grid: every cell is rewritten by
/// `cell_pass`, with the grid itself as the snapshot each cell reads.
pub open spec fn grid_pass(g: Seq<CellModel>) -> Seq<CellModel> {
    Seq::new(g.len(), |i: int| cell_pass(g[i], g))
}

/// The grid after `n` elimination passes.
pub open spec fn grid_pass_iter(g: Seq<CellModel>, n: nat) -> Seq<CellModel>
    decreases n,
{
    if n == 0 {
        g
    } else {
        grid_pass(grid_pass_iter(g, (n - 1) as nat))
    }
}

/// Number of solved cells of the grid.
pub open spec fn count_solved(g: Seq<CellModel>) -> int
    decreases g.len(),
{
    if g.len() == 0 {
        0
    } else {
        count_solved(g.drop_last()) + if g.last().solved {
            1int
        } else {
            0int
        }
    }
}

/// A well-formed grid: 81 well-formed cells, each holding the
/// coordinates of its own position.
pub open spec fn grid_wf(g: Seq<CellModel>) -> bool {
    &&& g.len() == 81
    &&& forall|i: int|
        0 <= i < 81 ==> (#[trigger] g[i]).wf() && g[i].row == row_of(i) && g[i].col == col_of(i)
}

/// The full candidate set of a fresh cell.
pub open spec fn full_options() -> Seq<i8> {
    seq![1i8, 2i8, 3i8, 4i8, 5i8, 6i8, 7i8, 8i8, 9i8]
}

/// A fresh, unsolved cell at flat index `i`.
pub open spec fn blank_cell(i: int) -> CellModel {
    CellModel { row: row_of(i), col: col_of(i), options: full_options(), solved: false }
}

/// The grid of a newly created board: 81 fresh cells.
pub open spec fn blank_grid() -> Seq<CellModel> {
    Seq::new(81, |i: int| blank_cell(i))
}

/// A complete assignment of the grid in which no two peers share a value.
pub open spec fn valid_solution(s: Seq<i8>) -> bool {
    &&& s.len() == 81
    &&& forall|i: int| 0 <= i < 81 ==> 1 <= #[trigger] s[i] <= 9
    &&& forall|i: int, k: int| is_peer(i, k) ==> s[i] != s[k]
}

/// Every cell of `g` still counts the value `s` gives it among its
/// candidates.
pub open spec fn respects_solution(g: Seq<CellModel>, s: Seq<i8>) -> bool {
    forall|i: int| 0 <= i < 81 ==> (#[trigger] g[i]).options.contains(s[i])
}

pub proof fn lemma_contains_drop_last(s: Seq<i8>, x: i8)
    requires
        s.len() > 0,
    ensures
        s.contains(x) <==> (s.drop_last().contains(x) || s.last() == x),
{
    if s.contains(x) {
        let i = choose|i: int| 0 <= i < s.len() && s[i] == x;
        if i < s.len() - 1 {
            assert(s.drop_last()[i] == x);
        }
    }
    if s.drop_last().contains(x) {
        let i = choose|i: int| 0 <= i < s.drop_last().len() && s.drop_last()[i] == x;
        assert(s[i] == x);
    }
    if s.last() == x {
        assert(s[s.len() - 1] == x);
    }
}

pub proof fn lemma_contains_push(s: Seq<i8>, y: i8, x: i8)
    ensures
        s.push(y).contains(x) <==> (s.contains(x) || x == y),
{
    if s.push(y).contains(x) {
        let i = choose|i: int| 0 <= i < s.push(y).len() && s.push(y)[i] == x;
        if i < s.len() {
            assert(s[i] == x);
        }
    }
    if s.contains(x) {
        let i = choose|i: int| 0 <= i < s.len() && s[i] == x;
        assert(s.push(y)[i] == x);
    }
    if x == y {
        assert(s.push(y)[s.len() as int] == x);
    }
}

/// All facts the library needs of a single candidate removal: it keeps
/// the candidates distinct, removes exactly the value `v`, and shrinks
/// the sequence by one when `v` was present and not at all otherwise.
pub proof fn lemma_remove_value_props(s: Seq<i8>, v: i8)
    requires
        s.no_duplicates(),
    ensures
        remove_value(s, v).no_duplicates(),
        forall|x: i8| remove_value(s, v).contains(x) <==> (s.contains(x) && x != v),
        s.contains(v) ==> remove_value(s, v).len() == s.len() - 1,
        !s.contains(v) ==> remove_value(s, v) == s,
        remove_value(s, v).len() <= s.len(),
    decreases s.len(),
{
    if s.len() == 0 {
        assert(remove_value(s, v) =~= s);
        assert(forall|x: i8| !s.contains(x));
    } else {
        let dl = s.drop_last();
        let last = s.last();
        assert(dl.no_duplicates());
        lemma_remove_value_props(dl, v);
        let r_dl = remove_value(dl, v);
        assert forall|x: i8| s.contains(x) <==> (dl.contains(x) || last == x) by {
            lemma_contains_drop_last(s, x);
        }
        if last == v {
            assert(remove_value(s, v) == r_dl);
            assert(!dl.contains(v)) by {
                if dl.contains(v) {
                    let i = choose|i: int| 0 <= i < dl.len() && dl[i] == v;
                    assert(s[i] == v && s[s.len() - 1] == v);
                }
            }
            assert(r_dl == dl);
            assert(s.contains(v)) by {
                assert(s[s.len() - 1] == v);
            }
        } else {
            assert(remove_value(s, v) == r_dl.push(last));
            assert forall|x: i8| r_dl.push(last).contains(x) <==> (r_dl.contains(x) || x == last) by {
                lemma_contains_push(r_dl, last, x);
            }
            assert(!r_dl.contains(last)) by {
                if r_dl.contains(last) {
                    assert(dl.contains(last));
                    let i = choose|i: int| 0 <= i < dl.len() && dl[i] == last;
                    assert(s[i] == last && s[s.len() - 1] == last);
                }
            }
            assert(r_dl.push(last).no_duplicates()) by {
                assert forall|i: int, j: int|
                    0 <= i < r_dl.push(last).len() && 0 <= j < r_dl.push(last).len() && i != j
                    implies r_dl.push(last)[i] != r_dl.push(last)[j] by {
                    if i < r_dl.len() && j < r_dl.len() {
                        assert(r_dl[i] != r_dl[j]);
                    } else if i < r_dl.len() {
                        assert(r_dl.contains(r_dl[i])) by {
                            assert(r_dl[i] == r_dl[i]);
                        }
                    } else {
                        assert(r_dl.contains(r_dl[j])) by {
                            assert(r_dl[j] == r_dl[j]);
                        }
                    }
                }
            }
            if !s.contains(v) {
                assert(remove_value(s, v) =~= s);
            }
        }
    }
}

/// Position arithmetic: a flat index determines its coordinates.
pub proof fn lemma_index_coords(i: int)
    requires
        0 <= i < 81,
    ensures
        0 <= row_of(i) < 9,
        0 <= col_of(i) < 9,
        i == row_of(i) * 9 + col_of(i),
{
    lemma_fundamental_div_mod(i, 9);
    lemma_mod_pos_bound(i, 9);
}

/// Position arithmetic: coordinates determine the flat index.
pub proof fn lemma_coords_index(r: int, c: int)
    requires
        0 <= r < 9,
        0 <= c < 9,
    ensures
        0 <= cell_index(r, c) < 81,
        row_of(cell_index(r, c)) == r,
        col_of(cell_index(r, c)) == c,
{
    lemma_fundamental_div_mod_converse(r * 9 + c, 9, r, c);
}

/// A single comparison keeps the cell well formed, at its place, and
/// only ever narrows its candidates.
pub proof fn lemma_check_remove_wf(c: CellModel, o: CellModel)
    requires
        c.wf(),
        !c.solved,
        o.wf(),
    ensures
        check_remove_model(c, o).wf(),
        check_remove_model(c, o).row == c.row,
        check_remove_model(c, o).col == c.col,
        forall|x: i8| check_remove_model(c, o).options.contains(x) ==> c.options.contains(x),
        check_remove_model(c, o).options.len() <= c.options.len(),
{
    let res = check_remove_model(c, o);
    if !(o.row == c.row && o.col == c.col) {
        if o.solved {
            lemma_remove_value_props(c.options, o.options[0]);
        }
        assert forall|i: int| 0 <= i < res.options.len() implies 1 <= #[trigger] res.options[i]
            <= 9 by {
            assert(res.options.contains(res.options[i]));
            assert(c.options.contains(res.options[i]));
            let j = choose|j: int| 0 <= j < c.options.len() && c.options[j] == res.options[i];
        }
    }
}

/// A whole peer scan keeps the cell well formed, at its place, only
/// narrows its candidates, and leaves a solved cell untouched.
pub proof fn lemma_scan_peers_props(c: CellModel, snap: Seq<CellModel>, order: Seq<int>)
    requires
        c.wf(),
        forall|m: int| 0 <= m < order.len() ==> 0 <= #[trigger] order[m] < snap.len(),
        forall|i: int| 0 <= i < snap.len() ==> (#[trigger] snap[i]).wf(),
    ensures
        scan_peers(c, snap, order).wf(),
        scan_peers(c, snap, order).row == c.row,
        scan_peers(c, snap, order).col == c.col,
        forall|x: i8| scan_peers(c, snap, order).options.contains(x) ==> c.options.contains(x),
        scan_peers(c, snap, order).options.len() <= c.options.len(),
        c.solved ==> scan_peers(c, snap, order) == c,
    decreases order.len(),
{
    if order.len() == 0 || c.solved {
    } else {
        let o = snap[order[0]];
        let c2 = check_remove_model(c, o);
        lemma_check_remove_wf(c, o);
        assert(forall|m: int|
            0 <= m < order.drop_first().len() ==> order.drop_first()[m] == order[m + 1]);
        lemma_scan_peers_props(c2, snap, order.drop_first());
    }
}

/// A solved cell is never re-examined: scanning it changes nothing.
pub proof fn lemma_scan_solved(c: CellModel, snap: Seq<CellModel>, order: Seq<int>)
    requires
        c.solved,
    ensures
        scan_peers(c, snap, order) == c,
{
    if order.len() == 0 {
    } else {
    }
}

/// Scanning a concatenation of peer groups is scanning one group after
/// the other.
pub proof fn lemma_scan_append(c: CellModel, snap: Seq<CellModel>, a: Seq<int>, b: Seq<int>)
    ensures
        scan_peers(c, snap, a + b) == scan_peers(scan_peers(c, snap, a), snap, b),
    decreases a.len(),
{
    if a.len() == 0 {
        assert(a + b =~= b);
    } else if c.solved {
        lemma_scan_solved(c, snap, a + b);
        lemma_scan_solved(c, snap, a);
        lemma_scan_solved(c, snap, b);
    } else {
        assert((a + b)[0] == a[0]);
        let c2 = check_remove_model(c, snap[a[0]]);
        assert((a + b).drop_first() =~= a.drop_first() + b);
        lemma_scan_append(c2, snap, a.drop_first(), b);
    }
}

/// Scanning one more peer after a group: the step either stops at an
/// already solved cell or applies one more comparison.
pub proof fn lemma_scan_snoc(c: CellModel, snap: Seq<CellModel>, order: Seq<int>, k: int)
    ensures
        scan_peers(c, snap, order.push(k)) == (if scan_peers(c, snap, order).solved {
            scan_peers(c, snap, order)
        } else {
            check_remove_model(scan_peers(c, snap, order), snap[k])
        }),
{
    assert(order.push(k) =~= order + seq![k]);
    lemma_scan_append(c, snap, order, seq![k]);
    let c1 = scan_peers(c, snap, order);
    let one = seq![k];
    if c1.solved {
        lemma_scan_solved(c1, snap, one);
    } else {
        assert(one[0] == k);
        let c2 = check_remove_model(c1, snap[k]);
        assert(one.drop_first().len() == 0);
        assert(scan_peers(c2, snap, one.drop_first()) == c2);
        assert(scan_peers(c1, snap, one) == c2);
    }
}

pub proof fn lemma_count_solved_bounds(g: Seq<CellModel>)
    ensures
        0 <= count_solved(g) <= g.len(),
    decreases g.len(),
{
    if g.len() > 0 {
        lemma_count_solved_bounds(g.drop_last());
    }
}

/// Rewriting one cell moves the solved count by exactly the difference
/// at that cell.
pub proof fn lemma_count_solved_update(g: Seq<CellModel>, i: int, c: CellModel)
    requires
        0 <= i < g.len(),
    ensures
        count_solved(g.update(i, c)) == count_solved(g) - (if g[i].solved {
            1int
        } else {
            0int
        }) + (if c.solved {
            1int
        } else {
            0int
        }),
    decreases g.len(),
{
    let gu = g.update(i, c);
    if i == g.len() - 1 {
        assert(gu.drop_last() =~= g.drop_last());
    } else {
        assert(gu.drop_last() =~= g.drop_last().update(i, c));
        assert(gu.last() == g.last());
        lemma_count_solved_update(g.drop_last(), i, c);
    }
}

/// A grid with pointwise no-less-solved cells has a no-smaller count.
pub proof fn lemma_count_solved_pointwise(g1: Seq<CellModel>, g2: Seq<CellModel>)
    requires
        g1.len() == g2.len(),
        forall|i: int| 0 <= i < g1.len() ==> ((#[trigger] g1[i]).solved ==> g2[i].solved),
    ensures
        count_solved(g1) <= count_solved(g2),
    decreases g1.len(),
{
    if g1.len() > 0 {
        assert(forall|i: int|
            0 <= i < g1.drop_last().len() ==> ((#[trigger] g1.drop_last()[i]).solved
                ==> g2.drop_last()[i].solved));
        lemma_count_solved_pointwise(g1.drop_last(), g2.drop_last());
    }
}

/// The solved count is full exactly when every cell is solved, and zero
/// when none is.
pub proof fn lemma_count_solved_extremes(g: Seq<CellModel>)
    ensures
        count_solved(g) == g.len() ==> forall|i: int| 0 <= i < g.len() ==> (#[trigger] g[i]).solved,
        (forall|i: int| 0 <= i < g.len() ==> (#[trigger] g[i]).solved) ==> count_solved(g)
            == g.len(),
        (forall|i: int| 0 <= i < g.len() ==> !(#[trigger] g[i]).solved) ==> count_solved(g) == 0,
    decreases g.len(),
{
    if g.len() > 0 {
        lemma_count_solved_extremes(g.drop_last());
        lemma_count_solved_bounds(g.drop_last());
        if count_solved(g) == g.len() {
            assert forall|i: int| 0 <= i < g.len() implies (#[trigger] g[i]).solved by {
                if i < g.len() - 1 {
                    assert(g.drop_last()[i] == g[i]);
                }
            }
        }
        if forall|i: int| 0 <= i < g.len() ==> (#[trigger] g[i]).solved {
            assert(forall|i: int|
                0 <= i < g.drop_last().len() ==> (#[trigger] g.drop_last()[i]).solved);
        }
        if forall|i: int| 0 <= i < g.len() ==> !(#[trigger] g[i]).solved {
            assert(forall|i: int|
                0 <= i < g.drop_last().len() ==> !(#[trigger] g.drop_last()[i]).solved);
        }
    }
}

/// A fresh cell is well formed, unsolved, and in its place.
pub proof fn lemma_blank_cell_wf(i: int)
    requires
        0 <= i < 81,
    ensures
        blank_cell(i).wf(),
        !blank_cell(i).solved,
        blank_cell(i).row == row_of(i),
        blank_cell(i).col == col_of(i),
        blank_cell(i).options.len() == 9,
{
    lemma_index_coords(i);
    assert(forall|k: int| 0 <= k < 9 ==> full_options()[k] == k + 1);
    assert(full_options().no_duplicates());
}

/// Every index a cell's scan visits lies on the grid and is the cell
/// itself or one of its peers.
pub proof fn lemma_peer_order_props(r: int, c: int)
    requires
        0 <= r < 9,
        0 <= c < 9,
    ensures
        peer_order(r, c).len() == 27,
        forall|m: int| 0 <= m < 27 ==> 0 <= #[trigger] peer_order(r, c)[m] < 81,
        forall|m: int|
            0 <= m < 27 ==> (#[trigger] peer_order(r, c)[m] == cell_index(r, c) || is_peer(
                cell_index(r, c),
                peer_order(r, c)[m],
            )),
{
    let rc = cell_index(r, c);
    lemma_coords_index(r, c);
    assert forall|m: int| 0 <= m < 27 implies 0 <= #[trigger] peer_order(r, c)[m] < 81 && (
    peer_order(r, c)[m] == rc || is_peer(rc, peer_order(r, c)[m])) by {
        if m < 9 {
            let k = peer_order(r, c)[m];
            assert(k == r * 9 + m);
            lemma_fundamental_div_mod_converse(k, 9, r, m);
            assert(row_of(k) == r);
        } else if m < 18 {
            let j = m - 9;
            let k = peer_order(r, c)[m];
            assert(k == j * 9 + c);
            lemma_fundamental_div_mod_converse(k, 9, j, c);
            assert(col_of(k) == c);
        } else {
            let t = m - 18;
            let k = peer_order(r, c)[m];
            let br = r / 3 * 3 + t / 3;
            let bc = c / 3 * 3 + t % 3;
            assert(k == br * 9 + bc);
            lemma_mod_pos_bound(t, 3);
            lemma_fundamental_div_mod(t, 3);
            lemma_mod_pos_bound(r, 3);
            lemma_fundamental_div_mod(r, 3);
            lemma_mod_pos_bound(c, 3);
            lemma_fundamental_div_mod(c, 3);
            assert(0 <= br < 9 && 0 <= bc < 9);
            lemma_fundamental_div_mod_converse(k, 9, br, bc);
            assert(row_of(k) == br && col_of(k) == bc);
            lemma_fundamental_div_mod_converse(br, 3, r / 3, t / 3);
            lemma_fundamental_div_mod_converse(bc, 3, c / 3, t % 3);
            assert(row_of(k) / 3 == r / 3 && col_of(k) / 3 == c / 3);
            assert(same_block(rc, k));
        }
    }
}

} // verus!
