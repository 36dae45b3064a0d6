//! Text rendering of boards and run results: `M` for a mine, `.` for an open
//! cell, `x` for a closed one; results as tab-separated counts under a totals
//! line.  The text is assembled as ASCII bytes and proved against character
//! sequences.

use vstd::prelude::*;
use crate::board::{Board, Square, grid_wf};
use crate::trials::counts_view;

verus! {

/// The bytes, read as characters.
pub open spec fn chars_of(v: Seq<u8>) -> Seq<char> {
    v.map_values(|b: u8| b as char)
}

proof fn lemma_chars_of_push(v: Seq<u8>, b: u8)
    ensures
        chars_of(v.push(b)) =~= chars_of(v).push(b as char),
{
    assert(chars_of(v.push(b)).len() == v.len() + 1);
    assert forall|i: int| 0 <= i < v.len() + 1 implies chars_of(v.push(b))[i] == chars_of(v).push(
        b as char,
    )[i] by {
        if i < v.len() {
            assert(v.push(b)[i] == v[i]);
        } else {
            assert(v.push(b)[i] == b);
        }
    }
}

/// The character a cell is drawn as.
pub open spec fn square_char(s: Square) -> char {
    match s {
        Square::Mine => 'M',
        Square::Open => '.',
        Square::Closed => 'x',
    }
}

/// One row of cells, drawn without its line break.
pub open spec fn row_chars(r: Seq<Square>) -> Seq<char> {
    r.map_values(|s: Square| square_char(s))
}

proof fn lemma_row_chars_take(r: Seq<Square>, j: int)
    requires
        0 <= j < r.len(),
    ensures
        row_chars(r.take(j + 1)) =~= row_chars(r.take(j)).push(square_char(r[j])),
{
    assert forall|t: int| 0 <= t < j + 1 implies row_chars(r.take(j + 1))[t] == row_chars(
        r.take(j),
    ).push(square_char(r[j]))[t] by {
        assert(r.take(j + 1)[t] == r[t]);
        if t < j {
            assert(r.take(j)[t] == r[t]);
        }
    }
}

/// The whole board, one line per row.
pub open spec fn board_text(g: Seq<Seq<Square>>) -> Seq<char>
    decreases g.len(),
{
    if g.len() == 0 {
        Seq::empty()
    } else {
        board_text(g.drop_last()) + row_chars(g.last()) + seq!['\n']
    }
}

/// Draw the board: `M` for a mine, `.` for an open cell, `x` for a closed
/// one, each row ended by a line break.
#[verifier::loop_isolation(false)]
pub fn display(b: &Board) -> (r: String)
    requires
        grid_wf(b@),
    ensures
        r@ == board_text(b@),
{
    let n = b.rows();
    let m = b.cols();
    let mut out: Vec<u8> = Vec::new();
    for i in 0..n
        invariant
            chars_of(out@) =~= board_text(b@.take(i as int)),
            forall|t: int| 0 <= t < out@.len() ==> #[trigger] out@[t] < 128,
    {
        for j in 0..m
            invariant
                chars_of(out@) =~= board_text(b@.take(i as int)) + row_chars(
                    b@[i as int].take(j as int),
                ),
                forall|t: int| 0 <= t < out@.len() ==> #[trigger] out@[t] < 128,
        {
            let ghost before = out@;
            let c = match b.get(i, j) {
                Square::Mine => 77u8,
                Square::Open => 46u8,
                Square::Closed => 120u8,
            };
            out.push(c);
            proof {
                lemma_chars_of_push(before, c);
                lemma_row_chars_take(b@[i as int], j as int);
                assert(c as char == square_char(b@[i as int][j as int]));
            }
        }
        let ghost before = out@;
        out.push(10u8);
        proof {
            lemma_chars_of_push(before, 10u8);
            assert(b@[i as int].take(m as int) =~= b@[i as int]);
            let g1 = b@.take(i + 1);
            assert(g1.drop_last() =~= b@.take(i as int));
            assert(g1.last() == b@[i as int]);
            assert(chars_of(out@) =~= board_text(b@.take(i + 1)));
        }
    }
    proof {
        assert(b@.take(n as int) =~= b@);
    }
    ascii_string(&out)
}

/// Relies on String::from_utf8: bytes below 128 are ASCII, so the conversion
/// cannot fail and yields exactly one character per byte.
#[verifier::external_body]
fn ascii_string(v: &Vec<u8>) -> (r: String)
    requires
        forall|t: int| 0 <= t < v@.len() ==> #[trigger] v@[t] < 128,
    ensures
        r@ == chars_of(v@),
{
    String::from_utf8(v.clone()).unwrap_or_default()
}

/// The decimal digits of a number, most significant first.
pub open spec fn dec_chars(n: nat) -> Seq<char>
    decreases n,
{
    if n < 10 {
        seq![((48 + n) as u8) as char]
    } else {
        dec_chars(n / 10).push(((48 + n % 10) as u8) as char)
    }
}

proof fn lemma_push_reverse<A>(s: Seq<A>, x: A)
    ensures
        s.push(x).reverse() =~= seq![x] + s.reverse(),
{
    let l = s.push(x).reverse();
    let r = seq![x] + s.reverse();
    assert forall|i: int| 0 <= i < l.len() implies l[i] == r[i] by {
        if i == 0 {
            assert(l[0] == s.push(x)[s.len() as int]);
        } else {
            assert(l[i] == s.push(x)[s.len() - i]);
            assert(s.push(x)[s.len() - i] == s[s.len() - i]);
            assert(r[i] == s.reverse()[i - 1]);
        }
    }
}

/// Append the decimal digits of `n`.
#[verifier::loop_isolation(false)]
fn push_decimal(out: &mut Vec<u8>, n: usize)
    requires
        forall|t: int| 0 <= t < old(out)@.len() ==> #[trigger] old(out)@[t] < 128,
    ensures
        chars_of(final(out)@) =~= chars_of(old(out)@) + dec_chars(n as nat),
        forall|t: int| 0 <= t < final(out)@.len() ==> #[trigger] final(out)@[t] < 128,
{
    let mut tmp: Vec<u8> = Vec::new();
    let mut v = n;
    while v >= 10
        invariant
            dec_chars(n as nat) =~= dec_chars(v as nat) + chars_of(tmp@).reverse(),
            forall|t: int| 0 <= t < tmp@.len() ==> #[trigger] tmp@[t] < 128,
        decreases v,
    {
        let ghost before = tmp@;
        let d = 48 + (v % 10) as u8;
        tmp.push(d);
        proof {
            lemma_chars_of_push(before, d);
            lemma_push_reverse(chars_of(before), d as char);
            assert(dec_chars(v as nat) == dec_chars((v as nat) / 10).push(d as char));
            assert((v / 10) as nat == (v as nat) / 10);
            assert(dec_chars(n as nat) =~= dec_chars((v / 10) as nat) + (seq![d as char]
                + chars_of(before).reverse()));
        }
        v = v / 10;
    }
    let ghost mid = out@;
    let d0 = 48 + (v % 10) as u8;
    out.push(d0);
    proof {
        lemma_chars_of_push(mid, d0);
        assert(v % 10 == v);
        assert(dec_chars(v as nat) =~= seq![d0 as char]);
    }
    let len = tmp.len();
    let mut t: usize = 0;
    while t < len
        invariant
            len == tmp@.len(),
            t <= len,
            chars_of(out@) =~= chars_of(old(out)@) + dec_chars(v as nat) + chars_of(
                tmp@,
            ).reverse().take(t as int),
            forall|u: int| 0 <= u < out@.len() ==> #[trigger] out@[u] < 128,
        decreases len - t,
    {
        let ghost before = out@;
        let d = tmp[len - 1 - t];
        out.push(d);
        proof {
            lemma_chars_of_push(before, d);
            let rev = chars_of(tmp@).reverse();
            assert(rev[t as int] == chars_of(tmp@)[len - 1 - t]);
            assert(rev.take(t + 1) =~= rev.take(t as int).push(rev[t as int]));
        }
        t = t + 1;
    }
    proof {
        let rev = chars_of(tmp@).reverse();
        assert(rev.take(len as int) =~= rev);
        assert(chars_of(out@) =~= chars_of(old(out)@) + (dec_chars(v as nat) + rev));
    }
}

/// One row of counts, tab-separated.
pub open spec fn counts_row_text(r: Seq<int>) -> Seq<char>
    decreases r.len(),
{
    if r.len() == 0 {
        Seq::empty()
    } else if r.len() == 1 {
        dec_chars(r[0] as nat)
    } else {
        counts_row_text(r.drop_last()) + seq!['\t'] + dec_chars(r.last() as nat)
    }
}

/// The count rows, one line each, without a trailing break.
pub open spec fn counts_text(cs: Seq<Seq<int>>) -> Seq<char>
    decreases cs.len(),
{
    if cs.len() == 0 {
        Seq::empty()
    } else if cs.len() == 1 {
        counts_row_text(cs[0])
    } else {
        counts_text(cs.drop_last()) + seq!['\n'] + counts_row_text(cs.last())
    }
}

/// What a whole run result is drawn as: a totals line, then the matrix.
pub open spec fn result_text(cs: Seq<Seq<int>>, total: int) -> Seq<char> {
    seq!['T', 'o', 't', 'a', 'l', ':', ' '] + dec_chars(total as nat) + seq!['\n'] + counts_text(
        cs,
    )
}

/// Draw a run result: the solved total, then the per-cell counts,
/// tab-separated within a row, one line per row.
#[verifier::loop_isolation(false)]
#[verifier::rlimit(100)]
pub fn pretty_output(a: (Vec<Vec<usize>>, usize)) -> (r: String)
    ensures
        r@ == result_text(counts_view(a.0@), a.1 as int),
{
    let (counts, total) = a;
    let mut out: Vec<u8> = Vec::new();
    out.push(84u8);
    out.push(111u8);
    out.push(116u8);
    out.push(97u8);
    out.push(108u8);
    out.push(58u8);
    out.push(32u8);
    proof {
        assert(chars_of(out@) =~= seq!['T', 'o', 't', 'a', 'l', ':', ' ']);
    }
    push_decimal(&mut out, total);
    out.push(10u8);
    proof {
        lemma_chars_of_push(out@.drop_last(), 10u8);
        assert(out@.drop_last().push(10u8) =~= out@);
        assert(chars_of(out@) =~= seq!['T', 'o', 't', 'a', 'l', ':', ' '] + dec_chars(
            total as nat,
        ) + seq!['\n']);
    }
    let ghost pre = chars_of(out@);
    let n = counts.len();
    for i in 0..n
        invariant
            chars_of(out@) =~= pre + counts_text(counts_view(counts@).take(i as int)),
            forall|t: int| 0 <= t < out@.len() ==> #[trigger] out@[t] < 128,
    {
        if i > 0 {
            let ghost before = out@;
            out.push(10u8);
            proof {
                lemma_chars_of_push(before, 10u8);
            }
        }
        let row_len = counts[i].len();
        for j in 0..row_len
            invariant
                i < n,
                n == counts@.len(),
                row_len == counts@[i as int]@.len(),
                chars_of(out@) =~= pre + counts_text(counts_view(counts@).take(i as int)) + (if i
                    > 0 {
                    seq!['\n']
                } else {
                    Seq::<char>::empty()
                }) + counts_row_text(counts_view(counts@)[i as int].take(j as int)),
                forall|t: int| 0 <= t < out@.len() ==> #[trigger] out@[t] < 128,
        {
            if j > 0 {
                let ghost before = out@;
                out.push(9u8);
                proof {
                    lemma_chars_of_push(before, 9u8);
                }
            }
            push_decimal(&mut out, counts[i][j]);
            proof {
                let rv = counts_view(counts@)[i as int];
                assert(rv[j as int] == counts@[i as int]@[j as int] as int);
                assert(rv[j as int] >= 0);
                let tk = rv.take(j + 1);
                assert(tk.drop_last() =~= rv.take(j as int));
                assert(tk.last() == rv[j as int]);
                if j == 0 {
                    assert(tk.len() == 1);
                    assert(counts_row_text(tk) == dec_chars(tk[0] as nat));
                } else {
                    assert(counts_row_text(tk) == counts_row_text(rv.take(j as int))
                        + seq!['\t'] + dec_chars(rv[j as int] as nat));
                }
            }
        }
        proof {
            let cv = counts_view(counts@);
            assert(cv[i as int].take(row_len as int) =~= cv[i as int]);
            let tk = cv.take(i + 1);
            assert(tk.drop_last() =~= cv.take(i as int));
            assert(tk.last() == cv[i as int]);
            if i == 0 {
                assert(tk.len() == 1);
                assert(counts_text(tk) == counts_row_text(cv[0]));
            } else {
                assert(counts_text(tk) == counts_text(cv.take(i as int)) + seq!['\n']
                    + counts_row_text(cv[i as int]));
            }
            assert(chars_of(out@) =~= pre + counts_text(tk));
        }
    }
    proof {
        assert(counts_view(counts@).take(n as int) =~= counts_view(counts@));
    }
    ascii_string(&out)
}

} // verus!
