//! One grid position: its coordinates, its remaining candidate values,
//! and whether it is solved.

use crate::model::{
    block_order, check_remove_model, col_order, full_options, lemma_check_remove_wf,
    lemma_peer_order_props, lemma_scan_append, lemma_scan_solved, lemma_scan_snoc, peer_order,
    remove_value, row_order, scan_peers, CellModel,
};
use vstd::prelude::*;

verus! {

/// A single cell of the board.  `options` holds the candidate values
/// still possible for it, distinct and drawn from 1..=9; `solved` is
/// true once exactly one candidate remains.
#[derive(Debug, Clone, PartialEq)]
pub struct Cell {
    pub row: usize,
    pub col: usize,
    pub options: Vec<i8>,
    pub solved: bool,
}

impl View for Cell {
    type V = CellModel;

    open spec fn view(&self) -> CellModel {
        CellModel {
            row: self.row as int,
            col: self.col as int,
            options: self.options@,
            solved: self.solved,
        }
    }
}

/// The models of a whole vector of cells.
pub open spec fn grid_view(cells: Seq<Cell>) -> Seq<CellModel> {
    cells.map_values(|c: Cell| c@)
}

impl Default for Cell {
    /// A fresh cell: all nine values possible, not solved, placed at
    /// the origin until a board records its coordinates.
    fn default() -> (c: Cell)
        ensures
            c@ == (CellModel { row: 0, col: 0, options: full_options(), solved: false }),
    {
        let options: Vec<i8> = vec![1i8, 2i8, 3i8, 4i8, 5i8, 6i8, 7i8, 8i8, 9i8];
        proof {
            assert(options@ =~= full_options());
        }
        Cell { row: 0, col: 0, options, solved: false }
    }
}

impl Cell {
    /// Drop every occurrence of `v` from the candidates, keeping the
    /// rest in order.
    fn remove_option(&mut self, v: i8)
        ensures
            final(self)@ == (CellModel {
                options: remove_value(old(self)@.options, v),
                ..old(self)@
            }),
    {
        let mut kept: Vec<i8> = Vec::new();
        let n = self.options.len();
        let mut i: usize = 0;
        while i < n
            invariant
                i <= n,
                self == old(self),
                n == self.options.len(),
                kept@ == remove_value(self.options@.take(i as int), v),
            decreases n - i,
        {
            let x = self.options[i];
            proof {
                assert(self.options@.take(i + 1).drop_last() =~= self.options@.take(i as int));
                assert(self.options@.take(i + 1).last() == x);
            }
            if x != v {
                kept.push(x);
            }
            i += 1;
        }
        proof {
            assert(self.options@.take(n as int) =~= self.options@);
        }
        self.options = kept;
    }

    /// One comparison against a peer, as the model's
    /// `check_remove_model` describes: if `other` is solved and is not
    /// this very cell, its value is removed from the candidates; if one
    /// candidate is then left, the cell marks itself solved.  Returns
    /// whether the cell is solved afterwards.
    pub fn check_remove_option(&mut self, other: &Cell) -> (r: bool)
        requires
            old(self)@.wf(),
            !old(self).solved,
            other@.wf(),
        ensures
            final(self)@ == check_remove_model(old(self)@, other@),
            r == final(self).solved,
            final(self)@.wf(),
    {
        proof {
            lemma_check_remove_wf(old(self)@, other@);
        }
        if !(other.row == self.row && other.col == self.col) {
            if other.solved {
                let v = other.options[0];
                self.remove_option(v);
            }
            if self.options.len() == 1 {
                self.solved = true;
            }
        }
        self.solved
    }

    /// Scan this cell against all 27 peer entries of the snapshot —
    /// its row, its column, then its 3x3 block — stopping as soon as
    /// the cell becomes solved.  Returns whether it did.
    #[verifier::loop_isolation(false)]
    pub fn eliminate_conflicts(&mut self, cells: &Vec<Cell>) -> (r: bool)
        requires
            old(self)@.wf(),
            !old(self).solved,
            cells@.len() == 81,
            forall|i: int| 0 <= i < 81 ==> (#[trigger] grid_view(cells@)[i]).wf(),
        ensures
            final(self)@ == scan_peers(
                old(self)@,
                grid_view(cells@),
                peer_order(old(self)@.row, old(self)@.col),
            ),
            r == final(self).solved,
            final(self)@.wf(),
    {
        let ghost snap = grid_view(cells@);
        let ghost c0 = old(self)@;
        let ghost r0 = old(self)@.row;
        let ghost cl0 = old(self)@.col;
        proof {
            lemma_peer_order_props(r0, cl0);
        }
        let row = self.row;
        let col = self.col;

        let mut j: usize = 0;
        while j < 9
            invariant
                j <= 9,
                !self.solved,
                self@.wf(),
                self@ == scan_peers(c0, snap, row_order(r0).take(j as int)),
            decreases 9 - j,
        {
            proof {
                assert(cells@[r0 * 9 + j]@ == grid_view(cells@)[r0 * 9 + j]);
            }
            let became = self.check_remove_option(&cells[row * 9 + j]);
            proof {
                assert(snap[r0 * 9 + j] == cells@[r0 * 9 + j]@);
                assert(row_order(r0).take(j + 1) =~= row_order(r0).take(j as int).push(r0 * 9 + j));
                lemma_scan_snoc(c0, snap, row_order(r0).take(j as int), r0 * 9 + j);
            }
            if became {
                proof {
                    assert(row_order(r0).take(j + 1) =~= peer_order(r0, cl0).take(j + 1));
                    lemma_finish_scan(c0, snap, r0, cl0, j + 1, self@);
                }
                return true;
            }
            j += 1;
        }
        proof {
            assert(row_order(r0).take(9) =~= row_order(r0));
        }
        let ghost c1 = scan_peers(c0, snap, row_order(r0));

        let mut i: usize = 0;
        while i < 9
            invariant
                i <= 9,
                !self.solved,
                self@.wf(),
                self@ == scan_peers(c1, snap, col_order(cl0).take(i as int)),
            decreases 9 - i,
        {
            proof {
                assert(cells@[i * 9 + cl0]@ == grid_view(cells@)[i * 9 + cl0]);
            }
            let became = self.check_remove_option(&cells[i * 9 + col]);
            proof {
                assert(snap[i * 9 + cl0] == cells@[i * 9 + cl0]@);
                assert(col_order(cl0).take(i + 1) =~= col_order(cl0).take(i as int).push(
                    i * 9 + cl0,
                ));
                lemma_scan_snoc(c1, snap, col_order(cl0).take(i as int), i * 9 + cl0);
            }
            if became {
                proof {
                    lemma_scan_append(c0, snap, row_order(r0), col_order(cl0).take(i + 1));
                    assert(row_order(r0) + col_order(cl0).take(i + 1) =~= peer_order(
                        r0,
                        cl0,
                    ).take(9 + i + 1));
                    lemma_finish_scan(c0, snap, r0, cl0, 9 + i + 1, self@);
                }
                return true;
            }
            i += 1;
        }
        proof {
            assert(col_order(cl0).take(9) =~= col_order(cl0));
            lemma_scan_append(c0, snap, row_order(r0), col_order(cl0));
        }
        let ghost c2 = scan_peers(c1, snap, col_order(cl0));

        let first_row = row / 3 * 3;
        let first_col = col / 3 * 3;
        let mut k: usize = 0;
        while k < 9
            invariant
                k <= 9,
                !self.solved,
                self@.wf(),
                self@ == scan_peers(c2, snap, block_order(r0, cl0).take(k as int)),
            decreases 9 - k,
        {
            let idx = (first_row + k / 3) * 9 + (first_col + k % 3);
            proof {
                assert(block_order(r0, cl0)[k as int] == idx);
            }
            proof {
                assert(cells@[idx as int]@ == grid_view(cells@)[idx as int]);
            }
            let became = self.check_remove_option(&cells[idx]);
            proof {
                assert(snap[idx as int] == cells@[idx as int]@);
                assert(block_order(r0, cl0).take(k + 1) =~= block_order(r0, cl0).take(
                    k as int,
                ).push(idx as int));
                lemma_scan_snoc(c2, snap, block_order(r0, cl0).take(k as int), idx as int);
            }
            if became {
                proof {
                    lemma_scan_append(
                        c0,
                        snap,
                        row_order(r0) + col_order(cl0),
                        block_order(r0, cl0).take(k + 1),
                    );
                    assert((row_order(r0) + col_order(cl0)) + block_order(r0, cl0).take(k + 1)
                        =~= peer_order(r0, cl0).take(18 + k + 1));
                    lemma_finish_scan(c0, snap, r0, cl0, 18 + k + 1, self@);
                }
                return true;
            }
            k += 1;
        }
        proof {
            assert(block_order(r0, cl0).take(9) =~= block_order(r0, cl0));
            lemma_scan_append(c0, snap, row_order(r0) + col_order(cl0), block_order(r0, cl0));
        }
        false
    }
}

/// Once a prefix of the peer scan has produced a solved cell, the scan
/// of the whole peer order stops there and produces that cell as well.
proof fn lemma_finish_scan(
    c0: CellModel,
    snap: Seq<CellModel>,
    r: int,
    c: int,
    n: int,
    cur: CellModel,
)
    requires
        0 <= n <= 27,
        scan_peers(c0, snap, peer_order(r, c).take(n)) == cur,
        cur.solved,
    ensures
        scan_peers(c0, snap, peer_order(r, c)) == cur,
{
    let po = peer_order(r, c);
    assert(po =~= po.take(n) + po.skip(n));
    lemma_scan_append(c0, snap, po.take(n), po.skip(n));
    lemma_scan_solved(cur, snap, po.skip(n));
}

} // verus!
