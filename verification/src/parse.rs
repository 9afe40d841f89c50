//! Constructing a board from its textual form: N row-groups separated by
//! `;`, each holding N space-separated integers in 0..=N, read left to
//! right, top to bottom, with 0 marking a blank.

use vstd::prelude::*;
use vstd::string::StrSliceExecFns;

use crate::board::{
    board_ok, cell_ok, col_of, consistent, dims_ok, row_of, same_group, square_of, values_of,
    Cell, SudokuBoard,
};

verus! {

/// Why construction was refused: the text is not a well-formed puzzle, or
/// its pre-filled cells already break the Sudoku invariant.
#[derive(Clone, Copy, Debug, PartialEq, Eq, Structural)]
pub enum PuzzleError {
    InvalidPuzzle,
    InconsistentPuzzle,
}

/// The pieces of `v` between occurrences of `sep`: one piece more than
/// there are separators, empty pieces kept.
pub open spec fn split_on(v: Seq<char>, sep: char) -> Seq<Seq<char>>
    decreases v.len(),
{
    if v.len() == 0 {
        seq![Seq::<char>::empty()]
    } else if v[0] == sep {
        seq![Seq::<char>::empty()] + split_on(v.drop_first(), sep)
    } else {
        let rest = split_on(v.drop_first(), sep);
        seq![seq![v[0]] + rest[0]] + rest.drop_first()
    }
}

proof fn lemma_split_len(v: Seq<char>, sep: char)
    ensures
        split_on(v, sep).len() >= 1,
    decreases v.len(),
{
    if v.len() != 0 {
        lemma_split_len(v.drop_first(), sep);
    }
}

/// A separator-free text splits into the single piece: itself.
proof fn lemma_split_whole(v: Seq<char>, sep: char)
    requires
        forall|i: int| 0 <= i < v.len() ==> v[i] != sep,
    ensures
        split_on(v, sep) == seq![v],
    decreases v.len(),
{
    if v.len() == 0 {
        assert(v =~= Seq::<char>::empty());
    } else {
        lemma_split_whole(v.drop_first(), sep);
        lemma_split_len(v.drop_first(), sep);
        let rest = split_on(v.drop_first(), sep);
        assert(rest[0] == v.drop_first());
        assert(rest.drop_first() =~= Seq::<Seq<char>>::empty());
        assert(seq![v[0]] + v.drop_first() =~= v);
        assert(split_on(v, sep) =~= seq![v]);
    }
}

/// Splitting a text that begins with a separator-free piece `a`, then a
/// separator, then `b`: the piece `a`, followed by the pieces of `b`.
proof fn lemma_split_step(a: Seq<char>, b: Seq<char>, sep: char)
    requires
        forall|i: int| 0 <= i < a.len() ==> a[i] != sep,
    ensures
        split_on(a + seq![sep] + b, sep) == seq![a] + split_on(b, sep),
    decreases a.len(),
{
    let v = a + seq![sep] + b;
    if a.len() == 0 {
        assert(v[0] == sep);
        assert(v.drop_first() =~= b);
        assert(a =~= Seq::<char>::empty());
        assert(split_on(v, sep) == seq![a] + split_on(b, sep));
    } else {
        assert(v[0] == a[0]);
        assert(v.drop_first() =~= a.drop_first() + seq![sep] + b);
        lemma_split_step(a.drop_first(), b, sep);
        let rest = split_on(v.drop_first(), sep);
        assert(rest == seq![a.drop_first()] + split_on(b, sep));
        assert(rest[0] == a.drop_first());
        assert(rest.drop_first() =~= split_on(b, sep));
        assert(seq![v[0]] + rest[0] =~= a);
        assert(split_on(v, sep) =~= seq![a] + split_on(b, sep));
    }
}

/// `c` is a decimal digit.
pub open spec fn is_digit(c: char) -> bool {
    '0' <= c && c <= '9'
}

/// The numeric value of a digit character.
pub open spec fn digit_val(c: char) -> int {
    c as int - '0' as int
}

/// Reading the digits of `d` left to right onto the accumulator `a`.
pub open spec fn num_acc(a: int, d: Seq<char>) -> int
    decreases d.len(),
{
    if d.len() == 0 {
        a
    } else {
        num_acc(a * 10 + digit_val(d[0]), d.drop_first())
    }
}

/// The decimal value of a digit string.
pub open spec fn num_val(d: Seq<char>) -> int {
    num_acc(0, d)
}

/// A well-formed token for side length `n`: nonempty, all digits, value at
/// most `n`.
pub open spec fn token_ok(t: Seq<char>, n: int) -> bool {
    &&& t.len() > 0
    &&& forall|i: int| 0 <= i < t.len() ==> is_digit(#[trigger] t[i])
    &&& num_val(t) <= n
}

pub proof fn lemma_num_acc_push(a: int, d: Seq<char>, c: char)
    ensures
        num_acc(a, d.push(c)) == num_acc(a, d) * 10 + digit_val(c),
    decreases d.len(),
{
    reveal_with_fuel(num_acc, 3);
    if d.len() == 0 {
        assert(d.push(c)[0] == c);
        assert(d.push(c).drop_first() =~= Seq::<char>::empty());
    } else {
        assert(d.push(c)[0] == d[0]);
        assert(d.push(c).drop_first() =~= d.drop_first().push(c));
        lemma_num_acc_push(a * 10 + digit_val(d[0]), d.drop_first(), c);
    }
}

proof fn lemma_num_acc_lower(a: int, d: Seq<char>)
    requires
        a >= 0,
        forall|i: int| 0 <= i < d.len() ==> is_digit(#[trigger] d[i]),
    ensures
        num_acc(a, d) >= a,
    decreases d.len(),
{
    if d.len() != 0 {
        assert(is_digit(d[0]));
        lemma_num_acc_lower(a * 10 + digit_val(d[0]), d.drop_first());
    }
}

/// Parses `s[ts..te]` as a decimal number bounded by `n`: `Some` holding
/// its value exactly when the token is nonempty, all digits, and at most
/// `n`; `None` otherwise.
fn parse_token(s: &str, ts: usize, te: usize, n: usize) -> (r: Option<i32>)
    requires
        ts <= te <= s@.len(),
        1 <= n <= 0x3fff_ffff,
    ensures
        ({
            let t = s@.subrange(ts as int, te as int);
            match r {
                Some(v) => token_ok(t, n as int) && v as int == num_val(t) && 0 <= v,
                None => !token_ok(t, n as int),
            }
        }),
{
    let ghost t = s@.subrange(ts as int, te as int);
    if ts == te {
        proof {
            assert(t.len() == 0);
        }
        return None;
    }
    let mut acc: u64 = 0;
    let mut p: usize = ts;
    while p < te
        invariant
            ts <= p <= te <= s@.len(),
            t == s@.subrange(ts as int, te as int),
            1 <= n <= 0x3fff_ffff,
            forall|i: int| 0 <= i < p - ts ==> is_digit(#[trigger] t[i]),
            acc as int == (if num_val(t.subrange(0, p - ts)) < 0x8000_0000 {
                num_val(t.subrange(0, p - ts))
            } else {
                0x8000_0000
            }),
            num_val(t.subrange(0, p - ts)) >= 0,
        decreases te - p,
    {
        let c = s.get_char(p);
        proof {
            assert(t[p - ts] == s@[p as int]);
        }
        if c < '0' || c > '9' {
            proof {
                assert(!is_digit(t[p - ts]));
            }
            return None;
        }
        let d = (c as u32 - '0' as u32) as u64;
        proof {
            let pfx = t.subrange(0, p - ts);
            let pfx1 = t.subrange(0, p + 1 - ts);
            assert(pfx1 =~= pfx.push(t[p - ts]));
            lemma_num_acc_push(0, pfx, t[p - ts]);
            assert(num_val(pfx1) == num_val(pfx) * 10 + digit_val(t[p - ts]));
            assert(d as int == digit_val(t[p - ts]));
        }
        acc = {
            let grown = acc * 10 + d;
            if grown >= 0x8000_0000 {
                0x8000_0000
            } else {
                grown
            }
        };
        p += 1;
    }
    proof {
        assert(t.subrange(0, te - ts) =~= t);
    }
    if acc > n as u64 {
        return None;
    }
    Some(acc as i32)
}

/// The subranges of `s[from..to]` delimited by `sep`, left to right: range
/// `i` carves out exactly piece `i` of the split.
fn split_ranges(s: &str, from: usize, to: usize, sep: char) -> (r: Vec<(usize, usize)>)
    requires
        from <= to <= s@.len(),
    ensures
        r@.len() == split_on(s@.subrange(from as int, to as int), sep).len(),
        forall|i: int|
            0 <= i < r@.len() ==> {
                let g = #[trigger] r@[i];
                &&& from <= g.0 <= g.1 <= to
                &&& s@.subrange(g.0 as int, g.1 as int) == split_on(
                    s@.subrange(from as int, to as int),
                    sep,
                )[i]
            },
{
    let ghost whole = s@.subrange(from as int, to as int);
    let ghost pieces_fn = |g: (usize, usize)| s@.subrange(g.0 as int, g.1 as int);
    let mut r: Vec<(usize, usize)> = Vec::new();
    let mut start: usize = from;
    let mut idx: usize = from;
    while idx < to
        invariant
            from <= start <= idx <= to,
            to <= s@.len(),
            whole == s@.subrange(from as int, to as int),
            forall|t: int| start <= t < idx ==> s@[t] != sep,
            split_on(whole, sep) == r@.map_values(pieces_fn) + split_on(
                s@.subrange(start as int, to as int),
                sep,
            ),
            forall|i: int|
                0 <= i < r@.len() ==> {
                    let g = #[trigger] r@[i];
                    from <= g.0 <= g.1 <= to
                },
            pieces_fn == (|g: (usize, usize)| s@.subrange(g.0 as int, g.1 as int)),
        decreases to - idx,
    {
        if s.get_char(idx) == sep {
            let ghost r0 = r@;
            r.push((start, idx));
            proof {
                let pre = s@.subrange(start as int, idx as int);
                let post = s@.subrange(idx + 1, to as int);
                assert(s@.subrange(start as int, to as int) =~= pre + seq![sep] + post);
                assert forall|t: int| 0 <= t < pre.len() implies pre[t] != sep by {
                    assert(pre[t] == s@[start + t]);
                }
                lemma_split_step(pre, post, sep);
                assert(r@.map_values(pieces_fn) =~= r0.map_values(pieces_fn).push(pre));
                assert(r0.map_values(pieces_fn) + (seq![pre] + split_on(post, sep)) =~= r@
                    .map_values(pieces_fn) + split_on(post, sep));
            }
            start = idx + 1;
        }
        idx += 1;
    }
    let ghost r0 = r@;
    r.push((start, to));
    proof {
        let last = s@.subrange(start as int, to as int);
        assert forall|t: int| 0 <= t < last.len() implies last[t] != sep by {
            assert(last[t] == s@[start + t]);
        }
        lemma_split_whole(last, sep);
        assert(r@.map_values(pieces_fn) =~= r0.map_values(pieces_fn).push(last));
        assert(split_on(whole, sep) =~= r@.map_values(pieces_fn));
        assert forall|i: int| 0 <= i < r@.len() implies s@.subrange(
            (#[trigger] r@[i]).0 as int,
            r@[i].1 as int,
        ) == split_on(whole, sep)[i] by {
            assert(r@.map_values(pieces_fn)[i] == pieces_fn(r@[i]));
        }
    }
    r
}

/// `t` is a positive side length whose square is `n`.
pub open spec fn is_square_side(t: int, n: int) -> bool {
    1 <= t && t * t == n
}

/// A well-formed row-group for side length `n`: exactly `n` tokens, each a
/// well-formed number at most `n`.
pub open spec fn row_ok(g: Seq<char>, n: int) -> bool {
    let toks = split_on(g, ' ');
    &&& toks.len() == n
    &&& forall|i: int| 0 <= i < toks.len() ==> token_ok(#[trigger] toks[i], n)
}

/// The numeric values of a row-group's tokens, left to right.
pub open spec fn row_values(g: Seq<char>) -> Seq<int> {
    split_on(g, ' ').map_values(|t: Seq<char>| num_val(t))
}

/// The rows joined back into one row-major sequence.
pub open spec fn concat_rows(rows: Seq<Seq<int>>) -> Seq<int>
    decreases rows.len(),
{
    if rows.len() == 0 {
        Seq::<int>::empty()
    } else {
        concat_rows(rows.drop_last()) + rows.last()
    }
}

/// `v` is a well-formed puzzle text: a perfect-square number N of
/// row-groups, N within the machine limits, and every row-group
/// well-formed for side length N.
pub open spec fn good_puzzle(v: Seq<char>) -> bool {
    let groups = split_on(v, ';');
    let n = groups.len() as int;
    &&& exists|t: int| is_square_side(t, n)
    &&& dims_ok(n)
    &&& forall|i: int| 0 <= i < groups.len() ==> row_ok(#[trigger] groups[i], n)
}

/// The square size a well-formed puzzle text encodes.
pub open spec fn puzzle_square_size(v: Seq<char>) -> int {
    choose|t: int| is_square_side(t, split_on(v, ';').len() as int)
}

/// The cell values a well-formed puzzle text encodes, row-major.
pub open spec fn puzzle_values(v: Seq<char>) -> Seq<int> {
    concat_rows(split_on(v, ';').map_values(|g: Seq<char>| row_values(g)))
}

proof fn lemma_square_side_unique(t1: int, t2: int, n: int)
    requires
        is_square_side(t1, n),
        is_square_side(t2, n),
    ensures
        t1 == t2,
{
    assert(t1 == t2) by (nonlinear_arith)
        requires
            1 <= t1,
            1 <= t2,
            t1 * t1 == t2 * t2,
    ;
}

/// Whether the board's values satisfy the Sudoku invariant, decided by
/// checking every pair of cells.
#[verifier::loop_isolation(false)]
fn check_consistent(b: &SudokuBoard) -> (r: bool)
    requires
        b.wf(),
    ensures
        r == consistent(b.values(), b.s()),
{
    let len = b.cell_count();
    let mut p: usize = 0;
    while p < len
        invariant
            p <= len,
            forall|i: int, j: int|
                0 <= i < p && 0 <= j < len && i != j && #[trigger] same_group(i, j, b.s())
                    && b.values()[i] != 0 ==> b.values()[i] != b.values()[j],
        decreases len - p,
    {
        let cp = b.cell_at(p);
        if cp.value > 0 {
            let mut q: usize = 0;
            while q < len
                invariant
                    q <= len,
                    p < len,
                    cp == b.cells()[p as int],
                    cp.value > 0,
                    forall|j: int|
                        0 <= j < q && p != j && #[trigger] same_group(p as int, j, b.s())
                            && b.values()[p as int] != 0 ==> b.values()[p as int] != b.values()[j],
                decreases len - q,
            {
                let cq = b.cell_at(q);
                if q != p && (cq.row == cp.row || cq.col == cp.col || cq.square == cp.square)
                    && cq.value == cp.value {
                    proof {
                        assert(cell_ok(b.cells()[p as int], p as int, b.s()));
                        assert(cell_ok(b.cells()[q as int], q as int, b.s()));
                        assert(same_group(p as int, q as int, b.s()));
                        assert(b.values()[p as int] == cp.value as int);
                        assert(b.values()[q as int] == cq.value as int);
                        assert(!consistent(b.values(), b.s()));
                    }
                    return false;
                }
                proof {
                    if p as int != q as int && same_group(p as int, q as int, b.s()) {
                        assert(cell_ok(b.cells()[p as int], p as int, b.s()));
                        assert(cell_ok(b.cells()[q as int], q as int, b.s()));
                        assert(cq.row == cp.row || cq.col == cp.col || cq.square == cp.square);
                        assert(b.values()[p as int] != b.values()[q as int]);
                    }
                }
                q += 1;
            }
        }
        proof {
            if b.values()[p as int] == 0 {
                assert forall|j: int|
                    0 <= j < len && p as int != j && #[trigger] same_group(p as int, j, b.s())
                        && b.values()[p as int] != 0 implies b.values()[p as int]
                    != b.values()[j] by {}
            }
        }
        p += 1;
    }
    proof {
        assert(consistent(b.values(), b.s()));
    }
    true
}

impl SudokuBoard {
    /// Builds a board from its textual form.
    ///
    /// Succeeds exactly when the text is a well-formed puzzle whose
    /// pre-filled cells satisfy the Sudoku invariant; the board then holds
    /// the encoded values, row-major, with the encoded square size.
    /// A malformed text is refused as `InvalidPuzzle`; a well-formed text
    /// whose pre-filled cells clash is refused as `InconsistentPuzzle`.
    #[verifier::loop_isolation(false)]
    #[verifier::rlimit(60)]
    pub fn new(s: &str) -> (r: Result<SudokuBoard, PuzzleError>)
        ensures
            match r {
                Ok(b) => {
                    &&& good_puzzle(s@)
                    &&& b.wf()
                    &&& b.s() == puzzle_square_size(s@)
                    &&& b.values() == puzzle_values(s@)
                    &&& consistent(b.values(), b.s())
                },
                Err(e) => match e {
                    PuzzleError::InvalidPuzzle => !good_puzzle(s@),
                    PuzzleError::InconsistentPuzzle => good_puzzle(s@) && !consistent(
                        puzzle_values(s@),
                        puzzle_square_size(s@),
                    ),
                },
            },
    {
        let total = s.unicode_len();
        let groups = split_ranges(s, 0, total, ';');
        proof {
            assert(s@.subrange(0, total as int) =~= s@);
            lemma_split_len(s@, ';');
        }
        let ghost groups_spec = split_on(s@, ';');
        let n = groups.len();
        if n > 0x3fff_ffff {
            return Err(PuzzleError::InvalidPuzzle);
        }
        if n.checked_mul(n).is_none() {
            return Err(PuzzleError::InvalidPuzzle);
        }
        let mut t: usize = 1;
        while t * t < n
            invariant
                1 <= t <= 0x8000,
                t * t <= 0x4000_0000,
                n <= 0x3fff_ffff,
                forall|m: int| 1 <= m < t ==> !is_square_side(m, n as int),
            decreases 0x8000 - t,
        {
            proof {
                assert(t < 0x8000) by (nonlinear_arith)
                    requires
                        t * t < n,
                        n <= 0x3fff_ffff,
                        t >= 1,
                ;
            }
            t += 1;
            proof {
                assert(t * t <= 0x4000_0000) by (nonlinear_arith)
                    requires
                        t <= 0x8000,
                ;
            }
        }
        if t * t != n {
            proof {
                assert forall|m: int| !is_square_side(m, n as int) by {
                    if is_square_side(m, n as int) {
                        if m >= t {
                            assert(m <= t) by (nonlinear_arith)
                                requires
                                    m >= 1,
                                    t >= 1,
                                    m * m == n,
                                    t * t >= n,
                            ;
                        }
                    }
                }
            }
            return Err(PuzzleError::InvalidPuzzle);
        }
        let sq = t;
        proof {
            assert(is_square_side(sq as int, n as int));
            assert(dims_ok(n as int));
        }
        let ghost rows_spec = groups_spec.map_values(|g: Seq<char>| row_values(g));
        let mut cells: Vec<Cell> = Vec::new();
        let mut gi: usize = 0;
        while gi < n
            invariant
                gi <= n,
                cells@.len() == gi * n,
                forall|g: int| 0 <= g < gi ==> row_ok(#[trigger] groups_spec[g], n as int),
                forall|idx: int|
                    0 <= idx < cells@.len() ==> cell_ok(#[trigger] cells@[idx], idx, sq as int),
                values_of(cells@) == concat_rows(rows_spec.take(gi as int)),
            decreases n - gi,
        {
            let gr = groups[gi];
            let ghost gseq = groups_spec[gi as int];
            let toks = split_ranges(s, gr.0, gr.1, ' ');
            proof {
                assert(s@.subrange(gr.0 as int, gr.1 as int) == gseq);
            }
            if toks.len() != n {
                proof {
                    assert(!row_ok(gseq, n as int));
                }
                return Err(PuzzleError::InvalidPuzzle);
            }
            let ghost cells_row0 = cells@;
            let mut ti: usize = 0;
            while ti < n
                invariant
                    ti <= n,
                    gi < n,
                    cells_row0.len() == gi * n,
                    cells@.len() == gi * n + ti,
                    cells@ == cells_row0 + cells@.subrange(cells_row0.len() as int, cells@.len() as int),
                    forall|tj: int|
                        0 <= tj < ti ==> token_ok(#[trigger] split_on(gseq, ' ')[tj], n as int),
                    forall|idx: int|
                        0 <= idx < cells@.len() ==> cell_ok(#[trigger] cells@[idx], idx, sq as int),
                    values_of(cells@) == concat_rows(rows_spec.take(gi as int)) + row_values(
                        gseq,
                    ).take(ti as int),
                decreases n - ti,
            {
                let tr = toks[ti];
                let parsed = parse_token(s, tr.0, tr.1, n);
                proof {
                    assert(s@.subrange(tr.0 as int, tr.1 as int) == split_on(gseq, ' ')[ti as int]);
                }
                if parsed.is_none() {
                    proof {
                        assert(!token_ok(split_on(gseq, ' ')[ti as int], n as int));
                        assert(!row_ok(gseq, n as int));
                    }
                    return Err(PuzzleError::InvalidPuzzle);
                }
                let v = parsed.unwrap();
                proof {
                    vstd::arithmetic::div_mod::lemma_fundamental_div_mod(gi as int, sq as int);
                    vstd::arithmetic::div_mod::lemma_fundamental_div_mod(ti as int, sq as int);
                    assert(sq as int * (gi as int / sq as int) <= gi as int && ti as int
                        / sq as int <= ti as int);
                }
                let sqnum = sq * (gi / sq) + ti / sq;
                let ghost cells0 = cells@;
                cells.push(Cell::new(v, gi as i32, ti as i32, sqnum as i32));
                proof {
                    let idx = cells0.len() as int;
                    vstd::arithmetic::div_mod::lemma_fundamental_div_mod_converse(
                        idx,
                        n as int,
                        gi as int,
                        ti as int,
                    );
                    assert(row_of(idx, n as int) == gi as int);
                    assert(col_of(idx, n as int) == ti as int);
                    assert(square_of(idx, sq as int) == sqnum as int);
                    assert(cell_ok(cells@[idx], idx, sq as int));
                    assert(row_values(gseq)[ti as int] == num_val(split_on(gseq, ' ')[ti as int]));
                    assert(row_values(gseq).take(ti + 1) =~= row_values(gseq).take(
                        ti as int,
                    ).push(v as int));
                    assert(values_of(cells@) =~= values_of(cells0).push(v as int));
                    assert(cells@ =~= cells_row0 + cells@.subrange(
                        cells_row0.len() as int,
                        cells@.len() as int,
                    ));
                }
                ti += 1;
            }
            proof {
                assert(row_ok(gseq, n as int));
                assert(row_values(gseq).take(n as int) =~= row_values(gseq));
                assert(rows_spec.take(gi + 1) =~= rows_spec.take(gi as int).push(
                    row_values(gseq),
                ));
                assert(concat_rows(rows_spec.take(gi + 1)) == concat_rows(
                    rows_spec.take(gi as int),
                ) + row_values(gseq)) by {
                    let pfx = rows_spec.take(gi + 1);
                    assert(pfx.drop_last() =~= rows_spec.take(gi as int));
                    assert(pfx.last() == row_values(gseq));
                }
                assert((gi + 1) * n == gi * n + n) by (nonlinear_arith);
            }
            gi += 1;
        }
        proof {
            assert(good_puzzle(s@));
            assert(rows_spec.take(n as int) =~= rows_spec);
            assert(values_of(cells@) == puzzle_values(s@));
            assert(n * n == (sq * sq) * (sq * sq)) by (nonlinear_arith)
                requires
                    n == sq * sq,
            ;
        }
        let b = SudokuBoard::from_parts(cells, sq as i32);
        proof {
            assert(board_ok(b.cells(), b.s()));
            lemma_square_side_unique(
                puzzle_square_size(s@),
                sq as int,
                n as int,
            );
        }
        if !check_consistent(&b) {
            return Err(PuzzleError::InconsistentPuzzle);
        }
        Ok(b)
    }
}

} // verus!
