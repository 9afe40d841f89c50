//! The backtracking solver: candidate generation and exhaustive depth-first
//! search with restoration on dead ends.

use vstd::prelude::*;

use crate::board::{
    board_ok, candidate_ok, cell_ok, col_has, col_of, consistent, extends, lex_le, row_has,
    row_of, same_group, solved, solved_extension, square_has, square_of, values_of, Cell,
    SudokuBoard,
};

verus! {

/// Determinism of the search: the solver's contract pins its output down
/// uniquely. Any two complete, legal assignments that extend the same input
/// board and are both lexicographically least among such assignments are
/// equal; since a successful `rec_solve` returns exactly such an
/// assignment, solving the same board twice yields the same filled grid.
pub proof fn lemma_solve_deterministic(b: Seq<int>, s: int, r1: Seq<int>, r2: Seq<int>)
    requires
        solved_extension(r1, b, s),
        solved_extension(r2, b, s),
        forall|c: Seq<int>| solved_extension(c, b, s) ==> lex_le(r1, c),
        forall|c: Seq<int>| solved_extension(c, b, s) ==> lex_le(r2, c),
    ensures
        r1 == r2,
{
    assert(lex_le(r1, r2));
    assert(lex_le(r2, r1));
    assert(r1.len() == r2.len());
    if r1 != r2 {
        let k1 = choose|k: int|
            0 <= k < r1.len() && r1[k] < r2[k] && (forall|j: int| 0 <= j < k ==> r1[j] == r2[j]);
        let k2 = choose|k: int|
            0 <= k < r2.len() && r2[k] < r1[k] && (forall|j: int| 0 <= j < k ==> r2[j] == r1[j]);
        if k1 < k2 {
            assert(r2[k1] == r1[k1]);
        } else if k2 < k1 {
            assert(r1[k2] == r2[k2]);
        }
        assert(false);
    }
}

/// In any solution of a well-formed board, a blank cell holds one of its
/// legal candidate values: a value in 1..=N that occurs nowhere in the
/// cell's row, column, or sub-square.
proof fn lemma_solution_fills_candidate(b: Seq<Cell>, s: int, i: int, c: Seq<int>)
    requires
        board_ok(b, s),
        0 <= i < b.len(),
        values_of(b)[i] == 0,
        solved_extension(c, values_of(b), s),
    ensures
        1 <= c[i] <= s * s,
        c[i] as i32 as int == c[i],
        candidate_ok(b, b[i], s, c[i] as i32),
{
    let n = s * s;
    let vals = values_of(b);
    assert(c.len() == vals.len());
    assert(0 <= c[i] <= n);
    assert(c[i] != 0);
    let v = c[i] as i32;
    assert(v as int == c[i]);
    assert(cell_ok(b[i], i, s));
    if row_has(b, b[i].row, v) {
        let k = choose|k: int| 0 <= k < b.len() && b[k].row == b[i].row && b[k].value == v;
        assert(cell_ok(b[k], k, s));
        assert(vals[k] == c[i]);
        assert(k != i);
        assert(row_of(k, n) == row_of(i, n));
        assert(same_group(k, i, s));
        assert(c[k] == vals[k]);
        assert(false);
    }
    if col_has(b, b[i].col, v) {
        let k = choose|k: int| 0 <= k < b.len() && b[k].col == b[i].col && b[k].value == v;
        assert(cell_ok(b[k], k, s));
        assert(vals[k] == c[i]);
        assert(k != i);
        assert(col_of(k, n) == col_of(i, n));
        assert(same_group(k, i, s));
        assert(c[k] == vals[k]);
        assert(false);
    }
    if square_has(b, b[i].square, v) {
        let k = choose|k: int| 0 <= k < b.len() && b[k].square == b[i].square && b[k].value == v;
        assert(cell_ok(b[k], k, s));
        assert(vals[k] == c[i]);
        assert(k != i);
        assert(square_of(k, s) == square_of(i, s));
        assert(same_group(k, i, s));
        assert(c[k] == vals[k]);
        assert(false);
    }
}

/// Placing a legal candidate in a blank cell preserves the Sudoku
/// invariant.
proof fn lemma_place_candidate_consistent(b: Seq<Cell>, s: int, i: int, v: i32)
    requires
        board_ok(b, s),
        consistent(values_of(b), s),
        0 <= i < b.len(),
        values_of(b)[i] == 0,
        candidate_ok(b, b[i], s, v),
    ensures
        consistent(values_of(b).update(i, v as int), s),
{
    let n = s * s;
    let vals = values_of(b);
    let upd = vals.update(i, v as int);
    assert forall|p: int, q: int|
        0 <= p < upd.len() && 0 <= q < upd.len() && p != q && #[trigger] same_group(p, q, s)
            && upd[p] != 0 implies upd[p] != upd[q] by {
        if p != i && q != i {
            assert(vals[p] != 0);
        } else if p == i {
            if upd[q] == v as int {
                assert(vals[q] == v as int);
                assert(cell_ok(b[q], q, s));
                assert(cell_ok(b[i], i, s));
                assert(b[q].value == v);
                if row_of(p, n) == row_of(q, n) {
                    assert(b[q].row == b[i].row);
                    assert(false);
                } else if col_of(p, n) == col_of(q, n) {
                    assert(b[q].col == b[i].col);
                    assert(false);
                } else {
                    assert(square_of(p, s) == square_of(q, s));
                    assert(b[q].square == b[i].square);
                    assert(false);
                }
            }
        } else {
            if upd[p] == v as int {
                assert(vals[p] == v as int);
                assert(cell_ok(b[p], p, s));
                assert(cell_ok(b[i], i, s));
                assert(b[p].value == v);
                if row_of(p, n) == row_of(q, n) {
                    assert(b[p].row == b[i].row);
                    assert(false);
                } else if col_of(p, n) == col_of(q, n) {
                    assert(b[p].col == b[i].col);
                    assert(false);
                } else {
                    assert(square_of(p, s) == square_of(q, s));
                    assert(b[p].square == b[i].square);
                    assert(false);
                }
            }
        }
    }
}

/// `xs` holds `v`.
fn contains_value(xs: &Vec<i32>, v: i32) -> (r: bool)
    ensures
        r == xs@.contains(v),
{
    let mut k: usize = 0;
    while k < xs.len()
        invariant
            k <= xs@.len(),
            forall|t: int| 0 <= t < k ==> xs@[t] != v,
        decreases xs@.len() - k,
    {
        if xs[k] == v {
            return true;
        }
        k += 1;
    }
    false
}

impl SudokuBoard {
    /// Every legal value for the cell at linear index `i`, in ascending
    /// order: each value in 1..=N that occurs in none of the cell's row,
    /// column, or sub-square.
    pub fn calculate_cell_options(&mut self, i: usize) -> (options: Vec<i32>)
        requires
            old(self).wf(),
            i < old(self).cells().len(),
        ensures
            final(self).cells() == old(self).cells(),
            final(self).s() == old(self).s(),
            forall|v: i32| #[trigger] options@.contains(v) <==> candidate_ok(
                old(self).cells(),
                old(self).cells()[i as int],
                old(self).s(),
                v,
            ),
            forall|a: int, b: int| 0 <= a < b < options@.len() ==> options@[a] < options@[b],
    {
        broadcast use vstd::seq_lib::lemma_seq_contains_after_push;

        let c = self.cell_at(i);
        let row_vals = self.get_all_values_in_row(&c);
        let col_vals = self.get_all_values_in_col(&c);
        let sq_vals = self.get_all_values_in_square(&c);
        let n = self.side();
        let mut options: Vec<i32> = Vec::new();
        let mut v: i32 = 1;
        while v <= n
            invariant
                self.wf(),
                *self == *old(self),
                i < self.cells().len(),
                n as int == self.n(),
                c == self.cells()[i as int],
                1 <= v <= n + 1,
                forall|w: i32| #[trigger] options@.contains(w) <==> (w < v && candidate_ok(
                    self.cells(),
                    c,
                    self.s(),
                    w,
                )),
                forall|a: int, b: int| 0 <= a < b < options@.len() ==> options@[a] < options@[b],
                forall|a: int| 0 <= a < options@.len() ==> #[trigger] options@[a] < v,
                forall|w: i32| #[trigger] row_vals@.contains(w) <==> (w > 0 && row_has(
                    self.cells(),
                    c.row,
                    w,
                )),
                forall|w: i32| #[trigger] col_vals@.contains(w) <==> (w > 0 && col_has(
                    self.cells(),
                    c.col,
                    w,
                )),
                forall|w: i32| #[trigger] sq_vals@.contains(w) <==> (w > 0 && square_has(
                    self.cells(),
                    c.square,
                    w,
                )),
            decreases n + 1 - v,
        {
            let in_row = contains_value(&row_vals, v);
            let in_col = contains_value(&col_vals, v);
            let in_sq = contains_value(&sq_vals, v);
            let ghost opts0 = options@;
            if !(in_row || in_col || in_sq) {
                options.push(v);
                proof {
                    assert(options@ == opts0.push(v));
                    assert(options@[opts0.len() as int] == v);
                    assert forall|w: i32| #[trigger] options@.contains(w) implies (w <= v
                        && candidate_ok(self.cells(), c, self.s(), w)) by {
                        let idx = choose|idx: int|
                            0 <= idx < options@.len() && options@[idx] == w;
                        if idx < opts0.len() {
                            assert(opts0[idx] == w);
                            assert(opts0.contains(w));
                        } else {
                            assert(w == v);
                        }
                    }
                    assert forall|w: i32| (w <= v && candidate_ok(self.cells(), c, self.s(), w))
                        implies #[trigger] options@.contains(w) by {
                        if w < v {
                            assert(opts0.contains(w));
                            let idx = choose|idx: int|
                                0 <= idx < opts0.len() && opts0[idx] == w;
                            assert(options@[idx] == w);
                        } else {
                            assert(options@[opts0.len() as int] == w);
                        }
                    }
                }
            } else {
                proof {
                    assert(options@ == opts0);
                    assert forall|w: i32| (w <= v && candidate_ok(self.cells(), c, self.s(), w))
                        implies #[trigger] options@.contains(w) by {
                        if w == v {
                            assert(row_vals@.contains(v) || col_vals@.contains(v)
                                || sq_vals@.contains(v));
                            assert(!candidate_ok(self.cells(), c, self.s(), v));
                        } else {
                            assert(opts0.contains(w));
                        }
                    }
                }
            }
            v += 1;
        }
        options
    }

    /// Depth-first exhaustive search from cell `i` onward, given that the
    /// cells before `i` are all filled and the board is consistent.
    ///
    /// On success the board is a complete, legal assignment extending the
    /// input (every filled cell kept), and, because cells are visited in
    /// index order and candidates in ascending order, it is the
    /// lexicographically least such assignment. On failure the board is
    /// returned exactly as given, and no complete, legal assignment
    /// extending it exists at all.
    #[verifier::loop_isolation(false)]
    #[verifier::rlimit(60)]
    pub fn rec_solve(&mut self, i: usize) -> (r: bool)
        requires
            old(self).wf(),
            consistent(old(self).values(), old(self).s()),
            i <= old(self).cells().len(),
            forall|j: int| 0 <= j < i ==> old(self).values()[j] != 0,
        ensures
            final(self).wf(),
            final(self).s() == old(self).s(),
            extends(final(self).values(), old(self).values()),
            r == (exists|c: Seq<int>|
                solved_extension(c, old(self).values(), old(self).s())),
            r ==> solved(final(self).values(), final(self).s()),
            r ==> forall|c: Seq<int>|
                solved_extension(c, old(self).values(), old(self).s()) ==> lex_le(
                    final(self).values(),
                    c,
                ),
            !r ==> final(self).cells() == old(self).cells(),
            !r ==> forall|c: Seq<int>| !solved_extension(c, old(self).values(), old(self).s()),
        decreases self.cells().len() - i,
    {
        let len = self.cell_count();
        if i == len {
            proof {
                assert forall|j: int| 0 <= j < self.values().len() implies (0 <= #[trigger]
                    self.values()[j] <= old(self).s() * old(self).s() && self.values()[j]
                    != 0) by {
                    assert(cell_ok(self.cells()[j], j, old(self).s()));
                    assert(old(self).values()[j] != 0);
                }
                assert(solved(self.values(), self.s()));
                assert forall|c: Seq<int>|
                    solved_extension(c, old(self).values(), old(self).s()) implies lex_le(
                    self.values(),
                    c,
                ) by {
                    assert forall|t: int| 0 <= t < c.len() implies c[t] == self.values()[t] by {
                        assert(self.values()[t] != 0);
                    }
                    assert(c =~= self.values());
                }
                assert(solved_extension(self.values(), old(self).values(), old(self).s()));
            }
            return true;
        }
        let cv = self.value_at(i);
        if cv > 0 {
            proof {
                assert(self.values()[i as int] != 0);
            }
            let r = self.rec_solve(i + 1);
            return r;
        }
        proof {
            assert(cell_ok(self.cells()[i as int], i as int, self.s()));
            assert(self.values()[i as int] == 0);
        }
        let options = self.calculate_cell_options(i);
        proof {
            assert(self.cells() == old(self).cells());
            assert forall|c: Seq<int>|
                #[trigger] solved_extension(c, old(self).values(), old(self).s()) implies exists|
                m: int,
            |
                0 <= m < options@.len() && c[i as int] == #[trigger] options@[m] as int by {
                lemma_solution_fills_candidate(
                    old(self).cells(),
                    old(self).s(),
                    i as int,
                    c,
                );
                let v = c[i as int] as i32;
                assert(candidate_ok(
                    old(self).cells(),
                    old(self).cells()[i as int],
                    old(self).s(),
                    v,
                ));
                assert(options@.contains(v));
                let m = choose|m: int| 0 <= m < options@.len() && options@[m] == v;
                assert(options@[m] as int == c[i as int]);
            }
        }
        let mut k: usize = 0;
        while k < options.len()
            invariant
                k <= options@.len(),
                self.wf(),
                self.s() == old(self).s(),
                self.cells() == old(self).cells(),
                forall|c: Seq<int>|
                    #[trigger] solved_extension(c, old(self).values(), old(self).s())
                        ==> exists|m: int|
                        k <= m < options@.len() && c[i as int] == #[trigger] options@[m] as int,
            decreases options@.len() - k,
        {
            let o = options[k];
            proof {
                assert(options@.contains(o));
                assert(candidate_ok(
                    old(self).cells(),
                    old(self).cells()[i as int],
                    old(self).s(),
                    o,
                ));
                lemma_place_candidate_consistent(
                    old(self).cells(),
                    old(self).s(),
                    i as int,
                    o,
                );
            }
            self.set_value(i, o);
            let ghost vals1 = self.values();
            proof {
                assert(vals1 == old(self).values().update(i as int, o as int));
                assert forall|j: int| 0 <= j < i + 1 implies vals1[j] != 0 by {
                    if j < i {
                        assert(old(self).values()[j] != 0);
                    }
                }
            }
            let solved_rec = self.rec_solve(i + 1);
            if solved_rec {
                proof {
                    assert forall|t: int|
                        0 <= t < old(self).values().len() && #[trigger] old(self).values()[t]
                            != 0 implies self.values()[t] == old(self).values()[t] by {
                        assert(t != i);
                        assert(vals1[t] == old(self).values()[t]);
                    }
                    assert(extends(self.values(), old(self).values()));
                    assert forall|c: Seq<int>|
                        solved_extension(c, old(self).values(), old(self).s()) implies lex_le(
                        self.values(),
                        c,
                    ) by {
                        let m = choose|m: int|
                            k <= m < options@.len() && c[i as int] == options@[m] as int;
                        if m == k {
                            assert(c[i as int] == o as int);
                            assert forall|t: int|
                                0 <= t < vals1.len() && #[trigger] vals1[t] != 0 implies c[t]
                                == vals1[t] by {
                                if t != i {
                                    assert(vals1[t] == old(self).values()[t]);
                                    assert(c[t] == old(self).values()[t]);
                                }
                            }
                            assert(extends(c, vals1));
                            assert(solved_extension(c, vals1, old(self).s()));
                        } else {
                            assert(options@[k as int] < options@[m]);
                            assert(vals1[i as int] == o as int && vals1[i as int] != 0);
                            assert(extends(self.values(), vals1));
                            assert(self.values()[i as int] == vals1[i as int]);
                            assert(self.values()[i as int] == o as int);
                            assert((o as int) < c[i as int]);
                            assert forall|j: int| 0 <= j < i as int implies self.values()[j]
                                == c[j] by {
                                assert(old(self).values()[j] != 0);
                                assert(vals1[j] == old(self).values()[j]);
                                assert(self.values()[j] == vals1[j]);
                                assert(c[j] == old(self).values()[j]);
                            }
                            assert(lex_le(self.values(), c));
                        }
                    }
                    assert(solved_extension(
                        self.values(),
                        old(self).values(),
                        old(self).s(),
                    ));
                }
                return true;
            }
            self.set_value(i, 0);
            proof {
                assert(self.values() =~= old(self).values());
                assert(self.cells() =~= old(self).cells());
                assert forall|c: Seq<int>|
                    #[trigger] solved_extension(c, old(self).values(), old(self).s()) implies
                    exists|m: int|
                        k + 1 <= m < options@.len() && c[i as int] == #[trigger] options@[m] as int
                by {
                    let m = choose|m: int|
                        k <= m < options@.len() && c[i as int] == options@[m] as int;
                    if m == k {
                        assert(c[i as int] == o as int);
                        assert forall|t: int|
                            0 <= t < vals1.len() && #[trigger] vals1[t] != 0 implies c[t]
                            == vals1[t] by {
                            if t != i {
                                assert(vals1[t] == old(self).values()[t]);
                                assert(c[t] == old(self).values()[t]);
                            }
                        }
                        assert(extends(c, vals1));
                        assert(solved_extension(c, vals1, old(self).s()));
                        assert(false);
                    }
                }
            }
            k += 1;
        }
        proof {
            assert forall|c: Seq<int>|
                !solved_extension(c, old(self).values(), old(self).s()) by {
                if solved_extension(c, old(self).values(), old(self).s()) {
                    let m = choose|m: int|
                        k <= m < options@.len() && c[i as int] == options@[m] as int;
                    assert(false);
                }
            }
            assert(extends(self.values(), old(self).values()));
        }
        false
    }
}

} // verus!

