//! Textual rendering of cells and boards: 9 lines of 9 characters
//! (digit or space), a vertical bar after columns 3 and 6, and a line
//! of 11 dashes after rows 3 and 6.

use crate::board::Board;
use crate::cell::Cell;
use crate::model::CellModel;
use vstd::prelude::*;
use vstd::string::StringExecFns;

verus! {

/// The character a solved value renders as.
pub open spec fn digit_char(v: i8) -> char {
    if v == 1 {
        '1'
    } else if v == 2 {
        '2'
    } else if v == 3 {
        '3'
    } else if v == 4 {
        '4'
    } else if v == 5 {
        '5'
    } else if v == 6 {
        '6'
    } else if v == 7 {
        '7'
    } else if v == 8 {
        '8'
    } else {
        '9'
    }
}

/// The one character a cell renders as: its value once solved, a blank
/// otherwise.
pub open spec fn cell_char(c: CellModel) -> char {
    if c.solved {
        digit_char(c.options[0])
    } else {
        ' '
    }
}

/// The horizontal separator drawn after rows 3 and 6.
pub open spec fn sep_line() -> Seq<char> {
    seq!['-', '-', '-', '-', '-', '-', '-', '-', '-', '-', '-', '\n']
}

/// The first `m` characters of row `r`'s line, a bar before columns 3
/// and 6.
pub open spec fn row_chars(g: Seq<CellModel>, r: int, m: int) -> Seq<char>
    decreases m,
{
    if m <= 0 {
        Seq::empty()
    } else {
        row_chars(g, r, m - 1) + (if m - 1 == 3 || m - 1 == 6 {
            seq!['|']
        } else {
            Seq::empty()
        }) + seq![cell_char(g[r * 9 + (m - 1)])]
    }
}

/// The first `m` rows of the rendering, each line closed by a newline,
/// the separator before rows 3 and 6.
pub open spec fn render_rows(g: Seq<CellModel>, m: int) -> Seq<char>
    decreases m,
{
    if m <= 0 {
        Seq::empty()
    } else {
        render_rows(g, m - 1) + (if m - 1 == 3 || m - 1 == 6 {
            sep_line()
        } else {
            Seq::empty()
        }) + row_chars(g, m - 1, 9) + seq!['\n']
    }
}

/// The whole rendering of a grid.
pub open spec fn render_grid(g: Seq<CellModel>) -> Seq<char> {
    render_rows(g, 9)
}

/// The rendering of one solved value.
fn digit_str(v: i8) -> (r: String)
    requires
        1 <= v <= 9,
    ensures
        r@ == seq![digit_char(v)],
{
    let s: &str = if v == 1 {
        "1"
    } else if v == 2 {
        "2"
    } else if v == 3 {
        "3"
    } else if v == 4 {
        "4"
    } else if v == 5 {
        "5"
    } else if v == 6 {
        "6"
    } else if v == 7 {
        "7"
    } else if v == 8 {
        "8"
    } else {
        "9"
    };
    proof {
        reveal_strlit("1");
        reveal_strlit("2");
        reveal_strlit("3");
        reveal_strlit("4");
        reveal_strlit("5");
        reveal_strlit("6");
        reveal_strlit("7");
        reveal_strlit("8");
        reveal_strlit("9");
        assert(s@ =~= seq![digit_char(v)]);
    }
    String::from_str(s)
}

impl Cell {
    /// The cell's one-character rendering, as a string.
    pub fn render(&self) -> (r: String)
        requires
            self@.wf(),
        ensures
            r@ == seq![cell_char(self@)],
    {
        if self.solved {
            digit_str(self.options[0])
        } else {
            let s = String::from_str(" ");
            proof {
                reveal_strlit(" ");
                assert(s@ =~= seq![cell_char(self@)]);
            }
            s
        }
    }
}

impl Board {
    /// The board's full textual rendering.
    #[verifier::loop_isolation(false)]
    pub fn render(&self) -> (r: String)
        requires
            self.wf(),
        ensures
            r@ == render_grid(self@),
    {
        let mut out = String::new();
        proof {
            assert(out@ =~= render_rows(self@, 0));
        }
        let mut row: usize = 0;
        while row < 9
            invariant
                row <= 9,
                out@ == render_rows(self@, row as int),
            decreases 9 - row,
        {
            let ghost base = out@;
            let ghost sep: Seq<char> = if row == 3 || row == 6 {
                sep_line()
            } else {
                Seq::empty()
            };
            if row == 3 || row == 6 {
                out.append("-----------\n");
                proof {
                    reveal_strlit("-----------\n");
                    assert("-----------\n"@ =~= sep_line());
                }
            }
            proof {
                assert(out@ =~= base + sep + row_chars(self@, row as int, 0));
            }
            let mut col: usize = 0;
            while col < 9
                invariant
                    col <= 9,
                    out@ == base + sep + row_chars(self@, row as int, col as int),
                decreases 9 - col,
            {
                let ghost mid = out@;
                let ghost bar: Seq<char> = if col == 3 || col == 6 {
                    seq!['|']
                } else {
                    Seq::empty()
                };
                if col == 3 || col == 6 {
                    out.append("|");
                    proof {
                        reveal_strlit("|");
                        assert("|"@ =~= seq!['|']);
                    }
                }
                proof {
                    assert(self.cells@[row * 9 + col]@ == self@[row * 9 + col]);
                }
                let cs = self.cells[row * 9 + col].render();
                out.append(cs.as_str());
                proof {
                    assert(out@ =~= mid + bar + seq![cell_char(self@[row * 9 + col])]);
                    assert(out@ =~= base + sep + row_chars(self@, row as int, col + 1));
                }
                col += 1;
            }
            out.append("\n");
            proof {
                reveal_strlit("\n");
                assert("\n"@ =~= seq!['\n']);
                assert(out@ =~= render_rows(self@, row + 1));
            }
            row += 1;
        }
        out
    }
}

} // verus!
