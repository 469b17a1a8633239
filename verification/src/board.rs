//! The 9x9 board: a flat, row-major vector of 81 cells and the running
//! count of solved ones, with the elimination pass that drives the
//! cells toward resolution.

use crate::cell::{grid_view, Cell};
use crate::laws::lemma_pass_monotonic;
use crate::model::{
    blank_cell, blank_grid, cell_pass, count_solved, grid_pass, grid_wf, lemma_blank_cell_wf,
    lemma_count_solved_bounds, lemma_count_solved_extremes, lemma_count_solved_update,
    lemma_index_coords, col_of, peer_order, row_of, scan_peers, CellModel,
};
use crate::parse::{
    given_grid, has_early_malformed, lemma_first_comma_at, lemma_given_grid_wf,
    lemma_split_nonempty, lemma_token_value_range, spec_values, split_commas, token_ok,
    token_value,
};
use vstd::prelude::*;

verus! {

/// Why an initialization specification was rejected.
#[derive(Debug, Clone, Copy, PartialEq, Eq, Structural)]
pub enum InitError {
    /// A token among the first 81 is not "-" and not a digit 1-9.
    MalformedToken,
    /// Fewer or more than 81 tokens were supplied.
    WrongCount,
}

/// End of the token starting at `p`: the next comma, or the end of the
/// input.
fn token_end(input: &str, p: usize, n: usize) -> (q: usize)
    requires
        n == input@.len(),
        p <= n,
    ensures
        p <= q <= n,
        forall|t: int| p <= t < q ==> input@[t] != ',',
        q < n ==> input@[q as int] == ',',
{
    let mut q = p;
    loop
        invariant
            p <= q <= n,
            n == input@.len(),
            forall|t: int| p <= t < q ==> input@[t] != ',',
        ensures
            p <= q <= n,
            forall|t: int| p <= t < q ==> input@[t] != ',',
            q == n || input@[q as int] == ',',
        decreases n - q,
    {
        if q == n {
            break ;
        }
        let c = input.get_char(q);
        if c == ',' {
            break ;
        }
        q += 1;
    }
    q
}

/// The board: 81 cells in row-major order (index = row * 9 + col) and
/// the number of them that are solved.
#[derive(Debug, Clone, PartialEq)]
pub struct Board {
    pub cells: Vec<Cell>,
    pub solved: usize,
}

impl View for Board {
    type V = Seq<CellModel>;

    open spec fn view(&self) -> Seq<CellModel> {
        grid_view(self.cells@)
    }
}

/// An exact copy of the cells, built element by element.
fn copy_cells(cells: &Vec<Cell>) -> (r: Vec<Cell>)
    ensures
        r@.len() == cells@.len(),
        grid_view(r@) == grid_view(cells@),
{
    let mut r: Vec<Cell> = Vec::new();
    let n = cells.len();
    let mut i: usize = 0;
    while i < n
        invariant
            i <= n,
            n == cells@.len(),
            r@.len() == i,
            forall|k: int| 0 <= k < i ==> (#[trigger] r@[k])@ == cells@[k]@,
        decreases n - i,
    {
        let c = &cells[i];
        let mut opts: Vec<i8> = Vec::new();
        let m = c.options.len();
        let mut j: usize = 0;
        while j < m
            invariant
                j <= m,
                m == c.options@.len(),
                opts@ == c.options@.take(j as int),
            decreases m - j,
        {
            let x = c.options[j];
            proof {
                assert(c.options@.take(j + 1) =~= c.options@.take(j as int).push(x));
            }
            opts.push(x);
            j += 1;
        }
        proof {
            assert(c.options@.take(m as int) =~= c.options@);
        }
        r.push(Cell { row: c.row, col: c.col, options: opts, solved: c.solved });
        i += 1;
    }
    proof {
        assert(grid_view(r@) =~= grid_view(cells@));
    }
    r
}

impl Board {
    /// A well-formed board: a well-formed grid of 81 cells, with
    /// `solved` equal to the number of solved cells.
    pub open spec fn wf(self) -> bool {
        &&& grid_wf(self@)
        &&& self.solved == count_solved(self@)
    }

    /// A fresh board: 81 unsolved cells, each holding all nine
    /// candidates and the coordinates of its own position.
    pub fn new() -> (b: Board)
        ensures
            b.wf(),
            b@ == blank_grid(),
            b.solved == 0,
    {
        let mut cells: Vec<Cell> = Vec::new();
        let mut i: usize = 0;
        while i < 81
            invariant
                i <= 81,
                cells@.len() == i,
                forall|k: int| 0 <= k < i ==> (#[trigger] grid_view(cells@)[k]) == blank_cell(k),
            decreases 81 - i,
        {
            let mut c = Cell::default();
            c.row = i / 9;
            c.col = i % 9;
            proof {
                lemma_index_coords(i as int);
            }
            let ghost prev = cells@;
            cells.push(c);
            proof {
                assert forall|k: int| 0 <= k < i + 1 implies (#[trigger] grid_view(cells@)[k])
                    == blank_cell(k) by {
                    if k < i {
                        assert(cells@[k] == prev[k]);
                        assert(grid_view(prev)[k] == blank_cell(k));
                    } else {
                        assert(cells@[k]@ =~= blank_cell(k));
                    }
                }
            }
            i += 1;
        }
        let b = Board { cells, solved: 0 };
        proof {
            assert(b@ =~= blank_grid());
            assert forall|k: int| 0 <= k < 81 implies (#[trigger] b@[k]).wf() && b@[k].row
                == row_of(k) && b@[k].col == col_of(k) && !b@[k].solved by {
                lemma_blank_cell_wf(k);
            }
            lemma_count_solved_extremes(b@);
        }
        b
    }

    /// Load a puzzle from a comma-separated specification of exactly 81
    /// tokens, row-major, each a digit 1-9 or "-" for unknown.  Each
    /// given becomes a solved singleton cell; unknowns keep the full
    /// candidate set.  A malformed token among the first 81 is
    /// rejected, as is any other count than 81; a rejected board is
    /// left exactly as it was.  A board is initialized once, when
    /// fresh.
    pub fn initialize(&mut self, input: &str) -> (res: Result<(), InitError>)
        requires
            old(self)@ == blank_grid(),
            old(self).solved == 0,
        ensures
            match res {
                Ok(()) => {
                    &&& !has_early_malformed(split_commas(input@))
                    &&& split_commas(input@).len() == 81
                    &&& forall|m: int| 0 <= m < 81 ==> token_ok(#[trigger] split_commas(input@)[m])
                    &&& final(self)@ == given_grid(spec_values(split_commas(input@)))
                    &&& final(self).wf()
                },
                Err(InitError::MalformedToken) => {
                    &&& has_early_malformed(split_commas(input@))
                    &&& final(self)@ == old(self)@
                    &&& final(self).solved == old(self).solved
                },
                Err(InitError::WrongCount) => {
                    &&& !has_early_malformed(split_commas(input@))
                    &&& split_commas(input@).len() != 81
                    &&& final(self)@ == old(self)@
                    &&& final(self).solved == old(self).solved
                },
            },
    {
        let ghost toks = split_commas(input@);
        let n = input.unicode_len();
        let mut vals: Vec<i8> = Vec::new();
        let mut p: usize = 0;
        let mut k: usize = 0;
        proof {
            assert(input@.skip(0) =~= input@);
            assert(toks.skip(0) =~= toks);
        }
        while k < 81
            invariant_except_break
                k <= 80,
                vals@.len() == k,
                p <= n,
                n == input@.len(),
                toks == split_commas(input@),
                k <= toks.len(),
                forall|m: int|
                    0 <= m < k ==> token_ok(#[trigger] toks[m]) && vals@[m] == token_value(
                        toks[m],
                    ),
                split_commas(input@.skip(p as int)) == toks.skip(k as int),
            ensures
                vals@.len() == 81,
                forall|m: int|
                    0 <= m < 81 ==> token_ok(#[trigger] toks[m]) && vals@[m] == token_value(
                        toks[m],
                    ),
                toks.len() == 81,
            decreases 81 - k,
        {
            let q = token_end(input, p, n);
            proof {
                let suf = input@.skip(p as int);
                assert(forall|t: int| 0 <= t < suf.len() ==> suf[t] == input@[t + p]);
                lemma_first_comma_at(suf, q - p);
                lemma_split_nonempty(suf);
                assert(toks.skip(k as int).len() == toks.len() - k);
                assert(k < toks.len());
                if q < n {
                    assert(split_commas(suf) == seq![suf.subrange(0, q - p)] + split_commas(
                        suf.subrange(q - p + 1, suf.len() as int),
                    ));
                    assert(suf.subrange(0, q - p) =~= input@.subrange(p as int, q as int));
                    assert(suf.subrange(q - p + 1, suf.len() as int) =~= input@.skip(q + 1));
                } else {
                    assert(split_commas(suf) == seq![suf]);
                    assert(suf =~= input@.subrange(p as int, n as int));
                }
                assert(toks[k as int] == toks.skip(k as int)[0]);
                assert(toks[k as int] == input@.subrange(p as int, q as int));
            }
            let ghost tk = toks[k as int];
            if q - p != 1 {
                proof {
                    assert(tk.len() != 1);
                    assert(has_early_malformed(toks)) by {
                        assert(0 <= k < toks.len() && (k as int) < 81 && !token_ok(toks[k as int])
                            && (forall|j: int| 0 <= j < k ==> token_ok(#[trigger] toks[j])));
                    }
                }
                return Err(InitError::MalformedToken);
            }
            let ch = input.get_char(p);
            proof {
                assert(tk.len() == 1 && tk[0] == input@[p as int]);
            }
            let v: i8;
            if ch == '-' {
                v = 0;
            } else {
                let code = ch as u32;
                if 49 <= code && code <= 57 {
                    v = (code - 48) as i8;
                } else {
                    proof {
                        assert(!token_ok(tk));
                        assert(has_early_malformed(toks)) by {
                            assert(0 <= k < toks.len() && (k as int) < 81 && !token_ok(
                                toks[k as int],
                            ) && (forall|j: int| 0 <= j < k ==> token_ok(#[trigger] toks[j])));
                        }
                    }
                    return Err(InitError::MalformedToken);
                }
            }
            proof {
                assert(token_ok(tk));
                assert(v == token_value(tk));
            }
            vals.push(v);
            if q < n {
                if k == 80 {
                    proof {
                        lemma_split_nonempty(input@.skip(q + 1));
                        assert(toks.skip(k as int).drop_first() =~= toks.skip(k + 1));
                        assert(toks.skip(k + 1) =~= split_commas(input@.skip(q + 1)));
                        assert(toks.len() >= 82);
                        assert(!has_early_malformed(toks)) by {
                            if has_early_malformed(toks) {
                                let b = choose|b: int|
                                    0 <= b < toks.len() && b < 81 && !token_ok(#[trigger] toks[b])
                                        && (forall|j: int|
                                        0 <= j < b ==> token_ok(#[trigger] toks[j]));
                                assert(token_ok(toks[b]));
                            }
                        }
                    }
                    return Err(InitError::WrongCount);
                }
                p = q + 1;
                k += 1;
                proof {
                    assert(toks.skip(k - 1).drop_first() =~= toks.skip(k as int));
                    assert(split_commas(input@.skip(p as int)) =~= toks.skip(k as int));
                }
            } else {
                if k < 80 {
                    proof {
                        assert(toks.skip(k as int).len() == 1);
                        assert(toks.len() == k + 1);
                        assert(!has_early_malformed(toks)) by {
                            if has_early_malformed(toks) {
                                let b = choose|b: int|
                                    0 <= b < toks.len() && b < 81 && !token_ok(#[trigger] toks[b])
                                        && (forall|j: int|
                                        0 <= j < b ==> token_ok(#[trigger] toks[j]));
                                assert(token_ok(toks[b]));
                            }
                        }
                    }
                    return Err(InitError::WrongCount);
                }
                proof {
                    assert(toks.skip(k as int).len() == 1);
                    assert(toks.len() == 81);
                }
                break ;
            }
        }
        let ghost gvals = spec_values(toks);
        proof {
            assert(self@ == blank_grid());
            assert(self@.len() == 81);
            assert(forall|i: int| 0 <= i < 81 ==> !(#[trigger] self@[i]).solved);
            lemma_count_solved_extremes(self@);
            assert(forall|m: int| 0 <= m < 81 ==> vals@[m] == gvals[m]);
            assert forall|m: int| 0 <= m < 81 implies 0 <= #[trigger] gvals[m] <= 9 by {
                lemma_token_value_range(toks[m]);
            }
        }
        let mut k2: usize = 0;
        while k2 < 81
            invariant
                k2 <= 81,
                self.cells@.len() == 81,
                vals@.len() == 81,
                gvals == spec_values(toks),
                forall|m: int| 0 <= m < 81 ==> vals@[m] == #[trigger] gvals[m],
                forall|m: int| 0 <= m < 81 ==> 0 <= #[trigger] gvals[m] <= 9,
                forall|i: int| k2 <= i < 81 ==> (#[trigger] self@[i]) == blank_grid()[i],
                forall|i: int| 0 <= i < k2 ==> (#[trigger] self@[i]) == given_grid(gvals)[i],
                self.solved == count_solved(self@),
                self.solved <= k2,
            decreases 81 - k2,
        {
            let v = vals[k2];
            proof {
                assert(self.cells@[k2 as int]@ == self@[k2 as int]);
                lemma_index_coords(k2 as int);
            }
            if v != 0 {
                let ghost gpre = self@;
                let mut opts: Vec<i8> = Vec::new();
                opts.push(v);
                let cref = &mut self.cells[k2];
                *cref = Cell { row: k2 / 9, col: k2 % 9, options: opts, solved: true };
                self.solved = self.solved + 1;
                proof {
                    let nc = self.cells@[k2 as int]@;
                    assert(self@ =~= gpre.update(k2 as int, nc));
                    assert(nc.options =~= seq![gvals[k2 as int]]);
                    assert(nc =~= given_grid(gvals)[k2 as int]);
                    lemma_count_solved_update(gpre, k2 as int, nc);
                }
            } else {
                proof {
                    assert(self@[k2 as int] == given_grid(gvals)[k2 as int]);
                }
            }
            k2 += 1;
        }
        proof {
            assert(self@ =~= given_grid(gvals));
            lemma_given_grid_wf(gvals);
        }
        Ok(())
    }

    /// One elimination pass, exactly as the model's `grid_pass`
    /// describes it: every unsolved cell is scanned against a snapshot
    /// of the grid taken at the start of the pass, and `solved` tracks
    /// each cell that resolves.  Candidates are only ever removed, a
    /// cell already solved is left untouched, and the solved count
    /// never decreases.
    #[verifier::loop_isolation(false)]
    pub fn eliminate_conflicts(&mut self)
        requires
            old(self).wf(),
        ensures
            final(self).wf(),
            final(self)@ == grid_pass(old(self)@),
            old(self).solved <= final(self).solved <= 81,
            forall|i: int|
                0 <= i < 81 && (#[trigger] old(self)@[i]).solved ==> final(self)@[i] == old(
                    self,
                )@[i],
            forall|i: int, x: i8|
                0 <= i < 81 && (#[trigger] final(self)@[i].options.contains(x)) ==> old(
                    self,
                )@[i].options.contains(x),
    {
        let ghost g0 = self@;
        proof {
            lemma_pass_monotonic(g0);
            lemma_count_solved_bounds(g0);
        }
        let snapshot = copy_cells(&self.cells);
        let mut idx: usize = 0;
        while idx < 81
            invariant
                idx <= 81,
                self.cells@.len() == 81,
                snapshot@.len() == 81,
                grid_view(snapshot@) == g0,
                forall|i: int| idx <= i < 81 ==> (#[trigger] self@[i]) == g0[i],
                forall|i: int| 0 <= i < idx ==> (#[trigger] self@[i]) == grid_pass(g0)[i],
                self.solved == count_solved(self@),
            decreases 81 - idx,
        {
            proof {
                assert(self.cells@[idx as int]@ == self@[idx as int]);
            }
            if !self.cells[idx].solved {
                let ghost gpre = self@;
                let ghost c_old = self@[idx as int];
                let cref = &mut self.cells[idx];
                let became = cref.eliminate_conflicts(&snapshot);
                proof {
                    let nc = self.cells@[idx as int]@;
                    assert(self@ =~= gpre.update(idx as int, nc));
                    assert(nc == scan_peers(c_old, g0, peer_order(c_old.row, c_old.col)));
                    assert(nc == cell_pass(g0[idx as int], g0));
                    assert(self@[idx as int] == grid_pass(g0)[idx as int]);
                    lemma_count_solved_update(gpre, idx as int, nc);
                    lemma_count_solved_bounds(self@);
                }
                if became {
                    self.solved = self.solved + 1;
                }
            } else {
                proof {
                    assert(cell_pass(g0[idx as int], g0) == g0[idx as int]);
                    assert(self@[idx as int] == grid_pass(g0)[idx as int]);
                }
            }
            idx += 1;
        }
        proof {
            assert(self@ =~= grid_pass(g0));
        }
    }
}

} // verus!
