//! The laws of the elimination engine, stated and proved over the model.
//!
//! Each law is a public proof function about `grid_pass`, the model of
//! one elimination pass that `Board::eliminate_conflicts` is specified
//! against.

use crate::model::{
    block_order, check_remove_model, col_of, col_order, count_solved, grid_pass, grid_pass_iter,
    grid_wf, is_peer, lemma_check_remove_wf, lemma_coords_index, lemma_count_solved_bounds,
    lemma_count_solved_extremes, lemma_count_solved_pointwise, lemma_index_coords,
    lemma_peer_order_props, lemma_remove_value_props, lemma_scan_peers_props, peer_order,
    respects_solution, row_of, row_order, scan_peers, valid_solution, CellModel,
};
use vstd::arithmetic::div_mod::{lemma_fundamental_div_mod, lemma_fundamental_div_mod_converse};
use vstd::prelude::*;
use vstd::set_lib::{lemma_int_range, lemma_len_subset, set_int_range};

verus! {

/// Monotonicity: an elimination pass never adds a candidate to a cell,
/// never unsolves a cell, and the solved count never decreases.  A pass
/// also keeps the grid well formed, and leaves a cell that was already
/// solved entirely untouched.
pub proof fn lemma_pass_monotonic(g: Seq<CellModel>)
    requires
        grid_wf(g),
    ensures
        grid_wf(grid_pass(g)),
        forall|i: int, x: i8|
            0 <= i < 81 && (#[trigger] grid_pass(g)[i].options.contains(x)) ==> g[i].options.contains(
                x,
            ),
        forall|i: int| 0 <= i < 81 ==> ((#[trigger] g[i]).solved ==> grid_pass(g)[i] == g[i]),
        forall|i: int| 0 <= i < 81 ==> ((#[trigger] g[i]).solved ==> grid_pass(g)[i].solved),
        count_solved(g) <= count_solved(grid_pass(g)) <= 81,
{
    let gp = grid_pass(g);
    assert forall|i: int| 0 <= i < 81 implies (#[trigger] gp[i]).wf() && gp[i].row == row_of(i)
        && gp[i].col == col_of(i) && (g[i].solved ==> gp[i] == g[i]) && (g[i].solved
        ==> gp[i].solved) && (forall|x: i8|
        #[trigger] gp[i].options.contains(x) ==> g[i].options.contains(x)) by {
        lemma_index_coords(i);
        if g[i].solved {
        } else {
            lemma_peer_order_props(row_of(i), col_of(i));
            lemma_scan_peers_props(g[i], g, peer_order(row_of(i), col_of(i)));
        }
    }
    lemma_count_solved_pointwise(g, gp);
    lemma_count_solved_bounds(gp);
}

/// Given preservation: a cell solved before any passes run — in
/// particular a given of the initial puzzle — is identical, singleton
/// candidate set included, after any number of passes.
pub proof fn lemma_givens_preserved(g: Seq<CellModel>, n: nat)
    requires
        grid_wf(g),
    ensures
        grid_wf(grid_pass_iter(g, n)),
        forall|i: int|
            0 <= i < 81 && (#[trigger] g[i]).solved ==> grid_pass_iter(g, n)[i] == g[i],
    decreases n,
{
    if n > 0 {
        let prev = grid_pass_iter(g, (n - 1) as nat);
        lemma_givens_preserved(g, (n - 1) as nat);
        lemma_pass_monotonic(prev);
        assert forall|i: int|
            0 <= i < 81 && (#[trigger] g[i]).solved implies grid_pass_iter(g, n)[i] == g[i] by {
            assert(prev[i] == g[i]);
            assert(grid_pass(prev)[i] == prev[i]);
        }
    }
}

/// The heart of the fixpoint law: a scan that returns the very same
/// candidate sequence cannot have changed the cell at all.
proof fn lemma_scan_no_change(c: CellModel, snap: Seq<CellModel>, order: Seq<int>)
    requires
        c.wf(),
        forall|m: int| 0 <= m < order.len() ==> 0 <= #[trigger] order[m] < snap.len(),
        forall|i: int| 0 <= i < snap.len() ==> (#[trigger] snap[i]).wf(),
        scan_peers(c, snap, order).options == c.options,
    ensures
        scan_peers(c, snap, order) == c,
    decreases order.len(),
{
    if order.len() == 0 || c.solved {
    } else {
        let o = snap[order[0]];
        let c2 = check_remove_model(c, o);
        lemma_check_remove_wf(c, o);
        assert(forall|m: int|
            0 <= m < order.drop_first().len() ==> order.drop_first()[m] == order[m + 1]);
        lemma_scan_peers_props(c2, snap, order.drop_first());
        assert(scan_peers(c, snap, order) == scan_peers(c2, snap, order.drop_first()));
        assert(c2.options.len() == c.options.len());
        if !(o.row == c.row && o.col == c.col) && o.solved {
            lemma_remove_value_props(c.options, o.options[0]);
            assert(!c.options.contains(o.options[0]));
            assert(c2.options == c.options);
        }
        assert(c2.options.len() >= 2);
        assert(c2 =~= c);
        lemma_scan_no_change(c, snap, order.drop_first());
    }
}

/// Idempotence at a fixpoint: once a pass leaves every candidate set as
/// it was, the grid itself is unchanged, and so every further pass
/// returns the same grid again.
pub proof fn lemma_pass_fixpoint_stable(g: Seq<CellModel>)
    requires
        grid_wf(g),
        forall|i: int| 0 <= i < 81 ==> (#[trigger] grid_pass(g)[i]).options == g[i].options,
    ensures
        grid_pass(g) == g,
        grid_pass(grid_pass(g)) == grid_pass(g),
{
    assert forall|i: int| 0 <= i < 81 implies #[trigger] grid_pass(g)[i] == g[i] by {
        lemma_index_coords(i);
        if !g[i].solved {
            lemma_peer_order_props(row_of(i), col_of(i));
            assert(grid_pass(g)[i] == scan_peers(g[i], g, peer_order(row_of(i), col_of(i))));
            lemma_scan_no_change(g[i], g, peer_order(row_of(i), col_of(i)));
        }
    }
    assert(grid_pass(g) =~= g);
}

/// A grid a pass leaves unchanged stays unchanged under any number of
/// further passes.
pub proof fn lemma_fixpoint_iter(g: Seq<CellModel>, n: nat)
    requires
        grid_pass(g) == g,
    ensures
        grid_pass_iter(g, n) == g,
    decreases n,
{
    if n > 0 {
        lemma_fixpoint_iter(g, (n - 1) as nat);
    }
}

/// One scan step never removes the value a valid solution assigns to
/// the scanned cell.
proof fn lemma_scan_respects(
    c: CellModel,
    snap: Seq<CellModel>,
    order: Seq<int>,
    s: Seq<i8>,
    pos: int,
)
    requires
        c.wf(),
        valid_solution(s),
        grid_wf(snap),
        respects_solution(snap, s),
        0 <= pos < 81,
        c.row == row_of(pos),
        c.col == col_of(pos),
        c.options.contains(s[pos]),
        forall|m: int| 0 <= m < order.len() ==> 0 <= #[trigger] order[m] < 81,
        forall|m: int|
            0 <= m < order.len() ==> (#[trigger] order[m] == pos || is_peer(pos, order[m])),
    ensures
        scan_peers(c, snap, order).options.contains(s[pos]),
    decreases order.len(),
{
    if order.len() == 0 || c.solved {
    } else {
        let k = order[0];
        let o = snap[k];
        let c2 = check_remove_model(c, o);
        lemma_check_remove_wf(c, o);
        lemma_index_coords(k);
        lemma_index_coords(pos);
        if o.row == c.row && o.col == c.col {
        } else {
            assert(k != pos);
            assert(is_peer(pos, k));
            if o.solved {
                let v = o.options[0];
                assert(o.options.contains(s[k]));
                assert(v == s[k]) by {
                    let j = choose|j: int| 0 <= j < o.options.len() && o.options[j] == s[k];
                    assert(j == 0);
                }
                assert(s[pos] != s[k]);
                lemma_remove_value_props(c.options, v);
                assert(c2.options.contains(s[pos]));
            }
        }
        assert(forall|m: int|
            0 <= m < order.drop_first().len() ==> order.drop_first()[m] == order[m + 1]);
        lemma_scan_respects(c2, snap, order.drop_first(), s, pos);
    }
}

/// A pass preserves every valid solution the grid still admits: if each
/// cell's candidates contain the value the solution assigns it, they
/// still do after the pass.
pub proof fn lemma_pass_respects_solution(g: Seq<CellModel>, s: Seq<i8>)
    requires
        grid_wf(g),
        valid_solution(s),
        respects_solution(g, s),
    ensures
        respects_solution(grid_pass(g), s),
{
    assert forall|i: int| 0 <= i < 81 implies (#[trigger] grid_pass(g)[i]).options.contains(
        s[i],
    ) by {
        lemma_index_coords(i);
        if !g[i].solved {
            lemma_peer_order_props(row_of(i), col_of(i));
            lemma_scan_respects(g[i], g, peer_order(row_of(i), col_of(i)), s, i);
        }
    }
}

/// Any number of passes preserves a valid solution the initial grid
/// admits, and keeps the grid well formed.
pub proof fn lemma_passes_respect_solution(g: Seq<CellModel>, s: Seq<i8>, n: nat)
    requires
        grid_wf(g),
        valid_solution(s),
        respects_solution(g, s),
    ensures
        grid_wf(grid_pass_iter(g, n)),
        respects_solution(grid_pass_iter(g, n), s),
    decreases n,
{
    if n > 0 {
        let prev = grid_pass_iter(g, (n - 1) as nat);
        lemma_passes_respect_solution(g, s, (n - 1) as nat);
        lemma_pass_monotonic(prev);
        lemma_pass_respects_solution(prev, s);
    }
}

/// Peer consistency: in a well-formed grid that still admits a valid
/// solution — as the initial grid of a consistent puzzle does, and as
/// every grid after any number of passes then still does — no two
/// solved peers hold the same value.
pub proof fn lemma_solved_peers_distinct(g: Seq<CellModel>, s: Seq<i8>, i: int, k: int)
    requires
        grid_wf(g),
        valid_solution(s),
        respects_solution(g, s),
        is_peer(i, k),
        g[i].solved,
        g[k].solved,
    ensures
        g[i].options[0] != g[k].options[0],
{
    assert(g[i].options.contains(s[i]));
    assert(g[i].options[0] == s[i]) by {
        let j = choose|j: int| 0 <= j < g[i].options.len() && g[i].options[j] == s[i];
        assert(j == 0);
    }
    assert(g[k].options.contains(s[k]));
    assert(g[k].options[0] == s[k]) by {
        let j = choose|j: int| 0 <= j < g[k].options.len() && g[k].options[j] == s[k];
        assert(j == 0);
    }
}

/// Nine cells that are pairwise peers — a row, a column or a block —
/// must, under any valid solution, take every value 1..=9: nine
/// distinct values drawn from nine possibilities cover them all.
proof fn lemma_unit_value_cover(s: Seq<i8>, unit: Seq<int>, v: i8)
    requires
        valid_solution(s),
        unit.len() == 9,
        forall|m: int| 0 <= m < 9 ==> 0 <= #[trigger] unit[m] < 81,
        forall|a: int, b: int| 0 <= a < 9 && 0 <= b < 9 && a != b ==> is_peer(unit[a], unit[b]),
        1 <= v <= 9,
    ensures
        exists|m: int| 0 <= m < 9 && s[#[trigger] unit[m]] == v,
{
    if forall|m: int| 0 <= m < 9 ==> s[#[trigger] unit[m]] != v {
        let w = Seq::new(9, |m: int| s[unit[m]] as int);
        assert(w.no_duplicates()) by {
            assert forall|a: int, b: int|
                0 <= a < w.len() && 0 <= b < w.len() && a != b implies w[a] != w[b] by {
                assert(is_peer(unit[a], unit[b]));
            }
        }
        w.unique_seq_to_set();
        let target = set_int_range(1, 10).remove(v as int);
        lemma_int_range(1, 10);
        assert(target.len() == 8);
        assert(w.to_set() <= target) by {
            assert forall|x: int| w.to_set().contains(x) implies target.contains(x) by {
                let m = choose|m: int| 0 <= m < w.len() && w[m] == x;
                assert(1 <= s[unit[m]] <= 9);
                assert(s[unit[m]] != v);
            }
        }
        lemma_len_subset(w.to_set(), target);
        assert(false);
    }
}

/// The cells of row `r` are pairwise peers, at the expected indices.
proof fn lemma_row_unit(r: int)
    requires
        0 <= r < 9,
    ensures
        forall|m: int| 0 <= m < 9 ==> #[trigger] row_order(r)[m] == r * 9 + m,
        forall|m: int| 0 <= m < 9 ==> 0 <= #[trigger] row_order(r)[m] < 81,
        forall|a: int, b: int|
            0 <= a < 9 && 0 <= b < 9 && a != b ==> is_peer(row_order(r)[a], row_order(r)[b]),
{
    assert forall|a: int, b: int|
        0 <= a < 9 && 0 <= b < 9 && a != b implies is_peer(row_order(r)[a], row_order(r)[b]) by {
        lemma_coords_index(r, a);
        lemma_coords_index(r, b);
    }
    assert forall|m: int| 0 <= m < 9 implies 0 <= #[trigger] row_order(r)[m] < 81 by {
        lemma_coords_index(r, m);
    }
}

/// The cells of column `c` are pairwise peers, at the expected indices.
proof fn lemma_col_unit(c: int)
    requires
        0 <= c < 9,
    ensures
        forall|m: int| 0 <= m < 9 ==> #[trigger] col_order(c)[m] == m * 9 + c,
        forall|m: int| 0 <= m < 9 ==> 0 <= #[trigger] col_order(c)[m] < 81,
        forall|a: int, b: int|
            0 <= a < 9 && 0 <= b < 9 && a != b ==> is_peer(col_order(c)[a], col_order(c)[b]),
{
    assert forall|a: int, b: int|
        0 <= a < 9 && 0 <= b < 9 && a != b implies is_peer(col_order(c)[a], col_order(c)[b]) by {
        lemma_coords_index(a, c);
        lemma_coords_index(b, c);
    }
    assert forall|m: int| 0 <= m < 9 implies 0 <= #[trigger] col_order(c)[m] < 81 by {
        lemma_coords_index(m, c);
    }
}

/// The cells of the block with corner (3*br, 3*bc) are pairwise peers.
proof fn lemma_block_unit(br: int, bc: int)
    requires
        0 <= br < 3,
        0 <= bc < 3,
    ensures
        forall|m: int| 0 <= m < 9 ==> 0 <= #[trigger] block_order(3 * br, 3 * bc)[m] < 81,
        forall|m: int|
            0 <= m < 9 ==> row_of(#[trigger] block_order(3 * br, 3 * bc)[m]) == 3 * br + m / 3
                && col_of(block_order(3 * br, 3 * bc)[m]) == 3 * bc + m % 3,
        forall|a: int, b: int|
            #![trigger block_order(3 * br, 3 * bc)[a], block_order(3 * br, 3 * bc)[b]]
            0 <= a < 9 && 0 <= b < 9 && a != b ==> is_peer(
                block_order(3 * br, 3 * bc)[a],
                block_order(3 * br, 3 * bc)[b],
            ),
{
    let unit = block_order(3 * br, 3 * bc);
    assert forall|m: int| 0 <= m < 9 implies 0 <= #[trigger] unit[m] < 81 && row_of(unit[m]) == 3
        * br + m / 3 && col_of(unit[m]) == 3 * bc + m % 3 && row_of(unit[m]) / 3 == br && col_of(
        unit[m],
    ) / 3 == bc by {
        lemma_fundamental_div_mod(m, 3);
        vstd::arithmetic::div_mod::lemma_mod_pos_bound(m, 3);
        assert((3 * br) / 3 == br) by {
            lemma_fundamental_div_mod_converse(3 * br, 3, br, 0);
        }
        assert((3 * bc) / 3 == bc) by {
            lemma_fundamental_div_mod_converse(3 * bc, 3, bc, 0);
        }
        let rr = 3 * br + m / 3;
        let cc = 3 * bc + m % 3;
        assert(unit[m] == rr * 9 + cc);
        lemma_coords_index(rr, cc);
        lemma_fundamental_div_mod_converse(rr, 3, br, m / 3);
        lemma_fundamental_div_mod_converse(cc, 3, bc, m % 3);
    }
    assert forall|a: int, b: int|
        0 <= a < 9 && 0 <= b < 9 && a != b implies is_peer(unit[a], unit[b]) by {
        assert(unit[a] != unit[b]) by {
            if unit[a] == unit[b] {
                assert(row_of(unit[a]) == row_of(unit[b]));
                assert(col_of(unit[a]) == col_of(unit[b]));
                lemma_fundamental_div_mod(a, 3);
                lemma_fundamental_div_mod(b, 3);
            }
        }
        assert(crate::model::same_block(unit[a], unit[b]));
    }
}

/// Some cell among the nine of `unit` is a solved singleton holding
/// exactly the value `v`.
pub open spec fn unit_has_value(g: Seq<CellModel>, unit: Seq<int>, v: i8) -> bool {
    exists|m: int| 0 <= m < 9 && (#[trigger] g[unit[m]]).options == seq![v]
}

/// In a grid the elimination passes have fully solved, every row,
/// every column and every 3x3 block holds each value 1..=9 exactly
/// once: some cell of the unit carries it, and no two cells of the
/// unit agree (they are peers, so `lemma_solved_peers_distinct`
/// forbids it).
pub proof fn lemma_complete_units(g: Seq<CellModel>, s: Seq<i8>)
    requires
        grid_wf(g),
        valid_solution(s),
        respects_solution(g, s),
        count_solved(g) == 81,
    ensures
        forall|r: int, v: i8|
            0 <= r < 9 && 1 <= v <= 9 ==> #[trigger] unit_has_value(g, row_order(r), v),
        forall|c: int, v: i8|
            0 <= c < 9 && 1 <= v <= 9 ==> #[trigger] unit_has_value(g, col_order(c), v),
        forall|br: int, bc: int, v: i8|
            0 <= br < 3 && 0 <= bc < 3 && 1 <= v <= 9 ==> #[trigger] unit_has_value(
                g,
                block_order(3 * br, 3 * bc),
                v,
            ),
{
    lemma_complete_grid_is_solution(g, s);
    assert forall|r: int, v: i8| 0 <= r < 9 && 1 <= v <= 9 implies #[trigger] unit_has_value(
        g,
        row_order(r),
        v,
    ) by {
        lemma_row_unit(r);
        lemma_unit_value_cover(s, row_order(r), v);
        let m = choose|m: int| 0 <= m < 9 && s[#[trigger] row_order(r)[m]] == v;
        assert((g[row_order(r)[m]]).options == seq![v]);
    }
    assert forall|c: int, v: i8| 0 <= c < 9 && 1 <= v <= 9 implies #[trigger] unit_has_value(
        g,
        col_order(c),
        v,
    ) by {
        lemma_col_unit(c);
        lemma_unit_value_cover(s, col_order(c), v);
        let m = choose|m: int| 0 <= m < 9 && s[#[trigger] col_order(c)[m]] == v;
        assert((g[col_order(c)[m]]).options == seq![v]);
    }
    assert forall|br: int, bc: int, v: i8|
        0 <= br < 3 && 0 <= bc < 3 && 1 <= v <= 9 implies #[trigger] unit_has_value(
        g,
        block_order(3 * br, 3 * bc),
        v,
    ) by {
        lemma_block_unit(br, bc);
        lemma_unit_value_cover(s, block_order(3 * br, 3 * bc), v);
        let m = choose|m: int| 0 <= m < 9 && s[#[trigger] block_order(3 * br, 3 * bc)[m]] == v;
        assert((g[block_order(3 * br, 3 * bc)[m]]).options == seq![v]);
    }
}

/// A fully solved grid that still admits a valid solution has become
/// exactly that solution: every cell is solved, and its one candidate
/// is the solution's value.
pub proof fn lemma_complete_grid_is_solution(g: Seq<CellModel>, s: Seq<i8>)
    requires
        grid_wf(g),
        valid_solution(s),
        respects_solution(g, s),
        count_solved(g) == 81,
    ensures
        forall|i: int|
            0 <= i < 81 ==> (#[trigger] g[i]).solved && g[i].options == seq![s[i]],
{
    lemma_count_solved_extremes(g);
    assert forall|i: int| 0 <= i < 81 implies (#[trigger] g[i]).solved && g[i].options == seq![
        s[i],
    ] by {
        assert(g[i].options.contains(s[i]));
        let j = choose|j: int| 0 <= j < g[i].options.len() && g[i].options[j] == s[i];
        assert(j == 0);
        assert(g[i].options =~= seq![s[i]]);
    }
}

} // verus!
