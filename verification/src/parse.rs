//! Model of the board's input format: a comma-separated sequence of 81
//! tokens, each a digit 1-9 or the unknown sentinel "-".

use crate::model::{
    blank_cell, col_of, grid_wf, lemma_blank_cell_wf, lemma_index_coords, row_of, CellModel,
};
use vstd::prelude::*;

verus! {

/// Index of the first comma of `s`, or `s.len()` when there is none.
pub open spec fn first_comma(s: Seq<char>) -> int
    decreases s.len(),
{
    if s.len() == 0 {
        0
    } else if s[0] == ',' {
        0
    } else {
        1 + first_comma(s.drop_first())
    }
}

/// The comma-separated tokens of `s`, in order.  An input without
/// commas is a single token; every comma separates two tokens, so an
/// empty input holds one empty token.
pub open spec fn split_commas(s: Seq<char>) -> Seq<Seq<char>>
    decreases s.len(),
{
    let i = first_comma(s);
    if 0 <= i < s.len() {
        seq![s.subrange(0, i)] + split_commas(s.subrange(i + 1, s.len() as int))
    } else {
        seq![s]
    }
}

/// A token is well formed when it is a single character: the unknown
/// sentinel `-` or a digit 1-9.
pub open spec fn token_ok(t: Seq<char>) -> bool {
    t.len() == 1 && (t[0] == '-' || (49 <= t[0] as u32 && t[0] as u32 <= 57))
}

/// The value a well-formed token denotes: 0 for the unknown sentinel,
/// otherwise the digit itself.
pub open spec fn token_value(t: Seq<char>) -> i8 {
    if t.len() == 1 && t[0] == '-' {
        0i8
    } else {
        ((t[0] as u32) - 48) as i8
    }
}

/// Some token among the first 81 is malformed, and every token before
/// it is well formed: the initialization scan, reading left to right,
/// fails on a token rather than on the token count.
pub open spec fn has_early_malformed(toks: Seq<Seq<char>>) -> bool {
    exists|k: int|
        0 <= k < toks.len() && k < 81 && !token_ok(#[trigger] toks[k]) && (forall|j: int|
            0 <= j < k ==> token_ok(#[trigger] toks[j]))
}

/// The values of the first 81 tokens, 0 standing for unknown.
pub open spec fn spec_values(toks: Seq<Seq<char>>) -> Seq<i8> {
    Seq::new(81, |k: int| token_value(toks[k]))
}

/// The grid an initialization with values `vals` produces: a solved
/// singleton cell for each given, a fresh cell for each unknown.
pub open spec fn given_grid(vals: Seq<i8>) -> Seq<CellModel> {
    Seq::new(
        81,
        |k: int|
            if vals[k] == 0 {
                blank_cell(k)
            } else {
                CellModel {
                    row: row_of(k),
                    col: col_of(k),
                    options: seq![vals[k]],
                    solved: true,
                }
            },
    )
}

/// The first comma is where the first run of other characters ends.
pub proof fn lemma_first_comma_at(s: Seq<char>, q: int)
    requires
        0 <= q <= s.len(),
        forall|t: int| 0 <= t < q ==> s[t] != ',',
        q < s.len() ==> s[q] == ',',
    ensures
        first_comma(s) == q,
    decreases s.len(),
{
    if s.len() == 0 {
    } else if s[0] == ',' {
        assert(q == 0);
    } else {
        assert(q > 0) by {
            if q == 0 {
                assert(s[0] == ',');
            }
        }
        assert(forall|t: int| 0 <= t < q - 1 ==> s.drop_first()[t] == s[t + 1]);
        if q - 1 < s.drop_first().len() {
            assert(s.drop_first()[q - 1] == s[q]);
        }
        lemma_first_comma_at(s.drop_first(), q - 1);
    }
}

/// A split always yields at least one token.
pub proof fn lemma_split_nonempty(s: Seq<char>)
    ensures
        split_commas(s).len() >= 1,
{
    let i = first_comma(s);
    if 0 <= i < s.len() {
    } else {
    }
}

/// A well-formed token denotes a value in 0..=9, zero only for the
/// unknown sentinel.
pub proof fn lemma_token_value_range(t: Seq<char>)
    requires
        token_ok(t),
    ensures
        0 <= token_value(t) <= 9,
{
}

/// The grid of an initialization is well formed whenever every value
/// lies in 0..=9.
pub proof fn lemma_given_grid_wf(vals: Seq<i8>)
    requires
        vals.len() == 81,
        forall|k: int| 0 <= k < 81 ==> 0 <= #[trigger] vals[k] <= 9,
    ensures
        grid_wf(given_grid(vals)),
{
    assert forall|k: int| 0 <= k < 81 implies (#[trigger] given_grid(vals)[k]).wf() && given_grid(
        vals,
    )[k].row == row_of(k) && given_grid(vals)[k].col == col_of(k) by {
        lemma_blank_cell_wf(k);
        lemma_index_coords(k);
        if vals[k] != 0 {
            let c = given_grid(vals)[k];
            assert(c.options =~= seq![vals[k]]);
        }
    }
}

} // verus!
