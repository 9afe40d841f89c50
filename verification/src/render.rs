//! The boxed-grid text form of a board, as a pure formatter, and the
//! round-trip law: the numbers in a rendered full board read back as
//! exactly the board's values.

use vstd::prelude::*;
use vstd::string::StringExecFns;

use crate::board::{col_of, row_of, SudokuBoard};
use crate::parse::{digit_val, is_digit, num_acc, num_val};

verus! {

/// `m` dash characters.
pub open spec fn dashes(m: int) -> Seq<char> {
    Seq::new(m as nat, |i: int| '-')
}

/// The character for the decimal digit `d`.
pub open spec fn digit_char(d: int) -> char {
    if d == 0 {
        '0'
    } else if d == 1 {
        '1'
    } else if d == 2 {
        '2'
    } else if d == 3 {
        '3'
    } else if d == 4 {
        '4'
    } else if d == 5 {
        '5'
    } else if d == 6 {
        '6'
    } else if d == 7 {
        '7'
    } else if d == 8 {
        '8'
    } else {
        '9'
    }
}

/// The decimal digits of `v`, most significant first (empty for `v <= 0`).
pub open spec fn digits_of(v: int) -> Seq<char>
    decreases v,
{
    if v <= 0 {
        Seq::<char>::empty()
    } else if v < 10 {
        seq![digit_char(v)]
    } else {
        digits_of(v / 10) + seq![digit_char(v % 10)]
    }
}

/// The text a single cell contributes: the separator line before the first
/// cell of every S-th row, a `|` before every S-th column, the value (two
/// blanks for 0, else its digits and a blank), and `|` plus a line break
/// after the last column.
pub open spec fn cell_chunk(v: int, i: int, s: int) -> Seq<char> {
    let n = s * s;
    let r = row_of(i, n);
    let cl = col_of(i, n);
    (if r % s == 0 && cl == 0 {
        dashes(1 + 2 * n + s) + seq!['\n']
    } else {
        Seq::<char>::empty()
    }) + (if cl % s == 0 {
        seq!['|']
    } else {
        Seq::<char>::empty()
    }) + (if v == 0 {
        seq![' ', ' ']
    } else {
        digits_of(v) + seq![' ']
    }) + (if cl == n - 1 {
        seq!['|', '\n']
    } else {
        Seq::<char>::empty()
    })
}

/// The text of the first `upto` cells.
pub open spec fn chunks(vals: Seq<int>, s: int, upto: int) -> Seq<char>
    decreases upto,
{
    if upto <= 0 {
        Seq::<char>::empty()
    } else {
        chunks(vals, s, upto - 1) + cell_chunk(vals[upto - 1], upto - 1, s)
    }
}

/// The full rendered board: every cell's text, then the closing separator
/// line.
pub open spec fn render_spec(vals: Seq<int>, s: int) -> Seq<char> {
    chunks(vals, s, vals.len() as int) + dashes(1 + 2 * (s * s) + s) + seq!['\n']
}

/// Scans `t` left to right, carrying the value of the digit run in
/// progress (`acc`), and collects the value of every maximal digit run.
pub open spec fn scan_nums(t: Seq<char>, acc: Option<int>) -> Seq<int>
    decreases t.len(),
{
    if t.len() == 0 {
        match acc {
            Option::None => Seq::<int>::empty(),
            Option::Some(a) => seq![a],
        }
    } else if is_digit(t[0]) {
        let a0 = match acc {
            Option::None => 0,
            Option::Some(a) => a,
        };
        scan_nums(t.drop_first(), Option::Some(a0 * 10 + digit_val(t[0])))
    } else {
        match acc {
            Option::None => scan_nums(t.drop_first(), Option::None),
            Option::Some(a) => seq![a] + scan_nums(t.drop_first(), Option::None),
        }
    }
}

/// The numeric content of a text: its maximal digit runs, each read as a
/// decimal number, left to right.
pub open spec fn numbers_in(t: Seq<char>) -> Seq<int> {
    scan_nums(t, Option::None)
}

/// A run of non-digits contributes no number and resets nothing.
proof fn lemma_scan_skip(p: Seq<char>, t: Seq<char>)
    requires
        forall|i: int| 0 <= i < p.len() ==> !is_digit(#[trigger] p[i]),
    ensures
        scan_nums(p + t, Option::None) == scan_nums(t, Option::None),
    decreases p.len(),
{
    if p.len() == 0 {
        assert(p + t =~= t);
    } else {
        assert((p + t)[0] == p[0]);
        assert((p + t).drop_first() =~= p.drop_first() + t);
        lemma_scan_skip(p.drop_first(), t);
    }
}

/// Reading digits accumulates their value.
proof fn lemma_scan_digits(d: Seq<char>, t: Seq<char>, a: int)
    requires
        forall|i: int| 0 <= i < d.len() ==> is_digit(#[trigger] d[i]),
    ensures
        scan_nums(d + t, Option::Some(a)) == scan_nums(t, Option::Some(num_acc(a, d))),
    decreases d.len(),
{
    if d.len() == 0 {
        assert(d + t =~= t);
    } else {
        assert((d + t)[0] == d[0]);
        assert((d + t).drop_first() =~= d.drop_first() + t);
        lemma_scan_digits(d.drop_first(), t, a * 10 + digit_val(d[0]));
    }
}

/// A nonempty digit run starting from no run in progress reads as its
/// value.
proof fn lemma_scan_digits_start(d: Seq<char>, t: Seq<char>)
    requires
        d.len() >= 1,
        forall|i: int| 0 <= i < d.len() ==> is_digit(#[trigger] d[i]),
    ensures
        scan_nums(d + t, Option::None) == scan_nums(t, Option::Some(num_val(d))),
{
    assert((d + t)[0] == d[0]);
    assert((d + t).drop_first() =~= d.drop_first() + t);
    lemma_scan_digits(d.drop_first(), t, digit_val(d[0]));
}

/// The digits of a positive number are digits, there is at least one, and
/// they read back as the number itself.
proof fn lemma_digits_of(v: int)
    requires
        1 <= v,
    ensures
        digits_of(v).len() >= 1,
        forall|i: int| 0 <= i < digits_of(v).len() ==> is_digit(#[trigger] digits_of(v)[i]),
        num_val(digits_of(v)) == v,
    decreases v,
{
    if v < 10 {
        reveal_with_fuel(num_acc, 3);
        assert(digits_of(v) == seq![digit_char(v)]);
        assert(digits_of(v)[0] == digit_char(v));
        assert(num_val(digits_of(v)) == v);
    } else {
        lemma_digits_of(v / 10);
        let head = digits_of(v / 10);
        let c = digit_char(v % 10);
        assert(digits_of(v) =~= head.push(c));
        crate::parse::lemma_num_acc_push(0, head, c);
        assert(num_val(digits_of(v)) == num_val(head) * 10 + digit_val(c));
        assert(digit_val(c) == v % 10);
        vstd::arithmetic::div_mod::lemma_fundamental_div_mod(v, 10);
        assert forall|i: int| 0 <= i < digits_of(v).len() implies is_digit(
            #[trigger] digits_of(v)[i],
        ) by {
            if i < head.len() {
                assert(digits_of(v)[i] == head[i]);
            } else {
                assert(digits_of(v)[i] == c);
            }
        }
    }
}

/// One cell's text contributes exactly its value to the numeric content,
/// provided the cell is filled.
proof fn lemma_scan_chunk(v: int, i: int, s: int, t: Seq<char>)
    requires
        1 <= v,
    ensures
        scan_nums(cell_chunk(v, i, s) + t, Option::None) == seq![v] + scan_nums(
            t,
            Option::None,
        ),
{
    let n = s * s;
    let r = row_of(i, n);
    let cl = col_of(i, n);
    let pre = (if r % s == 0 && cl == 0 {
        dashes(1 + 2 * n + s) + seq!['\n']
    } else {
        Seq::<char>::empty()
    }) + (if cl % s == 0 {
        seq!['|']
    } else {
        Seq::<char>::empty()
    });
    let post = if cl == n - 1 {
        seq!['|', '\n']
    } else {
        Seq::<char>::empty()
    };
    let d = digits_of(v);
    lemma_digits_of(v);
    assert(cell_chunk(v, i, s) + t =~= pre + (d + (seq![' '] + (post + t))));
    assert forall|k: int| 0 <= k < pre.len() implies !is_digit(#[trigger] pre[k]) by {}
    lemma_scan_skip(pre, d + (seq![' '] + (post + t)));
    lemma_scan_digits_start(d, seq![' '] + (post + t));
    let rest = seq![' '] + (post + t);
    assert(rest[0] == ' ');
    assert(!is_digit(' '));
    assert(rest.drop_first() =~= post + t);
    assert(scan_nums(rest, Option::Some(v)) == seq![v] + scan_nums(post + t, Option::None));
    assert forall|k: int| 0 <= k < post.len() implies !is_digit(#[trigger] post[k]) by {}
    lemma_scan_skip(post, t);
}

/// The first `upto` cells' text contributes exactly their values.
proof fn lemma_scan_chunks(vals: Seq<int>, s: int, upto: int, t: Seq<char>)
    requires
        0 <= upto <= vals.len(),
        forall|i: int| 0 <= i < vals.len() ==> 1 <= #[trigger] vals[i],
    ensures
        scan_nums(chunks(vals, s, upto) + t, Option::None) == vals.take(upto) + scan_nums(
            t,
            Option::None,
        ),
    decreases upto,
{
    if upto == 0 {
        assert(chunks(vals, s, 0) + t =~= t);
        assert(vals.take(0) + scan_nums(t, Option::None) =~= scan_nums(t, Option::None));
    } else {
        let chunk = cell_chunk(vals[upto - 1], upto - 1, s);
        assert(chunks(vals, s, upto) + t =~= chunks(vals, s, upto - 1) + (chunk + t));
        lemma_scan_chunks(vals, s, upto - 1, chunk + t);
        lemma_scan_chunk(vals[upto - 1], upto - 1, s, t);
        assert(vals.take(upto) =~= vals.take(upto - 1) + seq![vals[upto - 1]]);
        assert(vals.take(upto - 1) + (seq![vals[upto - 1]] + scan_nums(t, Option::None))
            =~= vals.take(upto) + scan_nums(t, Option::None));
    }
}

/// Round trip of rendering: the numeric content of a rendered board with
/// every cell filled — its maximal digit runs read left to right — is
/// exactly the board's value sequence, row-major. Parsing a rendered
/// grid's numbers back thus reproduces a solved board exactly.
pub proof fn lemma_render_round_trip(vals: Seq<int>, s: int)
    requires
        forall|i: int| 0 <= i < vals.len() ==> 1 <= #[trigger] vals[i],
    ensures
        numbers_in(render_spec(vals, s)) == vals,
{
    let tail = dashes(1 + 2 * (s * s) + s) + seq!['\n'];
    assert(render_spec(vals, s) =~= chunks(vals, s, vals.len() as int) + tail);
    lemma_scan_chunks(vals, s, vals.len() as int, tail);
    assert forall|k: int| 0 <= k < tail.len() implies !is_digit(#[trigger] tail[k]) by {}
    lemma_scan_skip(tail, Seq::<char>::empty());
    assert(tail + Seq::<char>::empty() =~= tail);
    assert(scan_nums(Seq::<char>::empty(), Option::None) == Seq::<int>::empty());
    assert(vals.take(vals.len() as int) =~= vals);
    assert(numbers_in(render_spec(vals, s)) =~= vals);
}

/// Appends `count` dashes.
fn push_dashes(out: &mut String, count: usize)
    ensures
        final(out)@ == old(out)@ + dashes(count as int),
{
    let mut m: usize = 0;
    while m < count
        invariant
            m <= count,
            out@ == old(out)@ + dashes(m as int),
        decreases count - m,
    {
        out.append("-");
        proof {
            reveal_strlit("-");
            assert(out@ =~= old(out)@ + dashes(m + 1));
        }
        m += 1;
    }
    proof {
        assert(out@ =~= old(out)@ + dashes(count as int));
    }
}

/// Appends the character for one digit.
fn push_digit(out: &mut String, d: i32)
    requires
        0 <= d <= 9,
    ensures
        final(out)@ == old(out)@ + seq![digit_char(d as int)],
{
    if d == 0 {
        out.append("0");
        proof {
            reveal_strlit("0");
            assert(out@ =~= old(out)@ + seq![digit_char(d as int)]);
        }
    } else if d == 1 {
        out.append("1");
        proof {
            reveal_strlit("1");
            assert(out@ =~= old(out)@ + seq![digit_char(d as int)]);
        }
    } else if d == 2 {
        out.append("2");
        proof {
            reveal_strlit("2");
            assert(out@ =~= old(out)@ + seq![digit_char(d as int)]);
        }
    } else if d == 3 {
        out.append("3");
        proof {
            reveal_strlit("3");
            assert(out@ =~= old(out)@ + seq![digit_char(d as int)]);
        }
    } else if d == 4 {
        out.append("4");
        proof {
            reveal_strlit("4");
            assert(out@ =~= old(out)@ + seq![digit_char(d as int)]);
        }
    } else if d == 5 {
        out.append("5");
        proof {
            reveal_strlit("5");
            assert(out@ =~= old(out)@ + seq![digit_char(d as int)]);
        }
    } else if d == 6 {
        out.append("6");
        proof {
            reveal_strlit("6");
            assert(out@ =~= old(out)@ + seq![digit_char(d as int)]);
        }
    } else if d == 7 {
        out.append("7");
        proof {
            reveal_strlit("7");
            assert(out@ =~= old(out)@ + seq![digit_char(d as int)]);
        }
    } else if d == 8 {
        out.append("8");
        proof {
            reveal_strlit("8");
            assert(out@ =~= old(out)@ + seq![digit_char(d as int)]);
        }
    } else {
        out.append("9");
        proof {
            reveal_strlit("9");
            assert(out@ =~= old(out)@ + seq![digit_char(d as int)]);
        }
    }
}

/// Appends the decimal digits of `v`, most significant first.
fn push_digits(out: &mut String, v: i32)
    requires
        1 <= v,
    ensures
        final(out)@ == old(out)@ + digits_of(v as int),
    decreases v,
{
    if v >= 10 {
        push_digits(out, v / 10);
        push_digit(out, v % 10);
        proof {
            assert(out@ =~= old(out)@ + digits_of(v as int));
        }
    } else {
        push_digit(out, v);
    }
}

impl SudokuBoard {
    /// The boxed-grid text form of the board.
    #[verifier::rlimit(100)]
    pub fn render(&self) -> (out: String)
        requires
            self.wf(),
        ensures
            out@ == render_spec(self.values(), self.s()),
    {
        let ghost vals = self.values();
        let ghost ssz = self.s();
        let sqz = self.square_size();
        let n = self.side();
        let dash_count: usize = 1 + 2 * (n as usize) + (sqz as usize);
        let len = self.cell_count();
        let mut out = String::new();
        let mut i: usize = 0;
        while i < len
            invariant
                i <= len,
                len == vals.len(),
                vals == self.values(),
                ssz == self.s(),
                self.wf(),
                sqz as int == ssz,
                n as int == ssz * ssz,
                dash_count as int == 1 + 2 * (ssz * ssz) + ssz,
                out@ == chunks(vals, ssz, i as int),
            decreases len - i,
        {
            let c = self.cell_at(i);
            let ghost out0 = out@;
            let ghost chunk = cell_chunk(vals[i as int], i as int, ssz);
            proof {
                assert(crate::board::cell_ok(self.cells()[i as int], i as int, ssz));
                assert(c.value as int == vals[i as int]);
            }
            if c.row % sqz == 0 && c.col == 0 {
                push_dashes(&mut out, dash_count);
                out.append("\n");
                proof {
                    reveal_strlit("\n");
                }
            }
            if c.col % sqz == 0 {
                out.append("|");
                proof {
                    reveal_strlit("|");
                }
            }
            if c.value == 0 {
                out.append("  ");
                proof {
                    reveal_strlit("  ");
                }
            } else {
                push_digits(&mut out, c.value);
                out.append(" ");
                proof {
                    reveal_strlit(" ");
                }
            }
            if c.col == n - 1 {
                out.append("|");
                out.append("\n");
                proof {
                    reveal_strlit("|");
                    reveal_strlit("\n");
                }
            }
            proof {
                assert(out@ =~= out0 + chunk);
                assert(out@ =~= chunks(vals, ssz, i + 1));
            }
            i += 1;
        }
        push_dashes(&mut out, dash_count);
        out.append("\n");
        proof {
            reveal_strlit("\n");
            assert(out@ =~= render_spec(vals, ssz));
        }
        out
    }
}

} // verus!
