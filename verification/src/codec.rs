//! The clipboard text format: every cell emitted as a literal `true` or
//! `false` token followed by a comma, with a newline after each row, and a
//! validating decoder that refuses input of the wrong shape without touching
//! the grid.
//!
//! The format is plain ASCII, so the codec works on UTF-8 bytes; turning the
//! bytes into an owned string for a clipboard, and back, is the caller's
//! concern.

use vstd::prelude::*;

use crate::grid::Grid;

verus! {

/// Why decoding refused its input.
#[derive(Debug, Clone, Copy, PartialEq, Eq, Structural)]
pub enum DecodeError {
    /// The input's token count differs from the grid's cell count; carries
    /// the grid's count and the input's count.
    LengthMismatch { expected: usize, found: usize },
    /// A token is neither `true` nor `false` once surrounding whitespace is
    /// removed.
    InvalidToken,
}

/// The byte `,`.
pub const COMMA: u8 = 44;

/// The byte `\n`.
pub const NEWLINE: u8 = 10;

/// The bytes of the token `true`.
pub open spec fn true_bytes() -> Seq<u8> {
    seq![116u8, 114u8, 117u8, 101u8]
}

/// The bytes of the token `false`.
pub open spec fn false_bytes() -> Seq<u8> {
    seq![102u8, 97u8, 108u8, 115u8, 101u8]
}

/// The token a cell value is written as.
pub open spec fn token_bytes(b: bool) -> Seq<u8> {
    if b {
        true_bytes()
    } else {
        false_bytes()
    }
}

/// ASCII whitespace: space, tab, line feed, carriage return.
pub open spec fn is_space(c: u8) -> bool {
    c == 32 || c == 9 || c == 10 || c == 13
}

/// One encoded row: each cell's token followed by a comma.
pub open spec fn encode_row(row: Seq<bool>) -> Seq<u8>
    decreases row.len(),
{
    if row.len() == 0 {
        Seq::empty()
    } else {
        token_bytes(row.first()) + seq![COMMA] + encode_row(row.skip(1))
    }
}

/// The whole encoding: rows of `w` cells separated by newlines; the final
/// row, like every row, ends with a comma.
pub open spec fn encode_rows(cells: Seq<bool>, w: int) -> Seq<u8>
    decreases cells.len(),
{
    if w <= 0 || cells.len() <= w {
        encode_row(cells)
    } else {
        encode_row(cells.take(w)) + seq![NEWLINE] + encode_rows(cells.skip(w), w)
    }
}

/// The input with leading whitespace removed.
pub open spec fn trim_leading(s: Seq<u8>) -> Seq<u8>
    decreases s.len(),
{
    if s.len() > 0 && is_space(s.first()) {
        trim_leading(s.skip(1))
    } else {
        s
    }
}

/// The input with trailing whitespace removed.
pub open spec fn trim_trailing(s: Seq<u8>) -> Seq<u8>
    decreases s.len(),
{
    if s.len() > 0 && is_space(s.last()) {
        trim_trailing(s.drop_last())
    } else {
        s
    }
}

/// The input with whitespace removed from both ends.
pub open spec fn trim_spec(s: Seq<u8>) -> Seq<u8> {
    trim_trailing(trim_leading(s))
}

/// What the decoder tokenizes: the input with surrounding whitespace and
/// then one optional trailing comma removed.
pub open spec fn strip_spec(s: Seq<u8>) -> Seq<u8> {
    let t = trim_spec(s);
    if t.len() > 0 && t.last() == COMMA {
        t.drop_last()
    } else {
        t
    }
}

/// The input split at every comma; a string without commas is one token, so
/// the result always holds at least one token.
pub open spec fn split_commas(s: Seq<u8>) -> Seq<Seq<u8>>
    decreases s.len(),
{
    if s.len() == 0 {
        seq![Seq::empty()]
    } else if s.first() == COMMA {
        seq![Seq::<u8>::empty()] + split_commas(s.skip(1))
    } else {
        let rest = split_commas(s.skip(1));
        seq![seq![s.first()] + rest.first()] + rest.skip(1)
    }
}

/// The cell a token stands for: `true` or `false` once surrounding
/// whitespace is removed, anything else refused.
pub open spec fn token_value(t: Seq<u8>) -> Option<bool> {
    if trim_spec(t) == true_bytes() {
        Some(true)
    } else if trim_spec(t) == false_bytes() {
        Some(false)
    } else {
        None
    }
}

/// How the decoder sees its input: the tokens of the stripped text, in
/// order.
pub open spec fn input_tokens(input: Seq<u8>) -> Seq<Seq<u8>> {
    split_commas(strip_spec(input))
}

/// Writes the grid out as text: each cell `true` or `false` followed by a
/// comma, a newline after every row but the last.
pub fn encode(g: &Grid) -> (out: Vec<u8>)
    requires
        g.wf(),
    ensures
        out@ == encode_rows(g@.cells, g@.width as int),
{
    let w = g.width();
    let h = g.height();
    let n = g.cell_count();
    let ghost cells = g@.cells;
    let mut out: Vec<u8> = Vec::new();
    for y in 0..h
        invariant
            g.wf(),
            w == g@.width,
            h == g@.height,
            n == g@.cells.len(),
            cells == g@.cells,
            y < h ==> out@ == (if y == 0 {
                Seq::<u8>::empty()
            } else {
                encode_rows(cells.take(y * w), w as int) + seq![NEWLINE]
            }),
            y == h ==> out@ == encode_rows(cells, w as int),
    {
        proof {
            assert((y as int + 1) * (w as int) == y as int * (w as int) + w as int)
                by (nonlinear_arith);
            assert((y as int + 1) * (w as int) <= h as int * (w as int)) by (nonlinear_arith)
                requires y as int + 1 <= h as int, 0 <= w as int;
            assert(h as int * (w as int) == w as int * (h as int)) by (nonlinear_arith);
        }
        let ghost row = cells.subrange(y * w, y * w + w);
        let ghost prefix = if y == 0 {
            Seq::<u8>::empty()
        } else {
            encode_rows(cells.take(y * w), w as int) + seq![NEWLINE]
        };
        proof {
            assert(prefix + encode_row(row.take(0)) =~= prefix);
        }
        for x in 0..w
            invariant
                g.wf(),
                w == g@.width,
                h == g@.height,
                n == g@.cells.len(),
                cells == g@.cells,
                y < h,
                row == cells.subrange(y * w, y * w + w),
                y * w + w <= n,
                out@ == prefix + encode_row(row.take(x as int)),
        {
            let cell = g.get(y * w + x);
            if cell {
                out.push(116);
                out.push(114);
                out.push(117);
                out.push(101);
            } else {
                out.push(102);
                out.push(97);
                out.push(108);
                out.push(115);
                out.push(101);
            }
            out.push(COMMA);
            proof {
                assert(row[x as int] == cells[y * w + x]);
                lemma_encode_row_snoc(row.take(x as int), row[x as int]);
                assert(row.take(x as int).push(row[x as int]) =~= row.take(x + 1));
                assert(out@ =~= prefix + encode_row(row.take(x + 1)));
            }
        }
        if y + 1 < h {
            out.push(NEWLINE);
        }
        proof {
            assert(row.take(w as int) =~= row);
            assert((y as int + 1) * (w as int) == y as int * (w as int) + w as int)
                by (nonlinear_arith);
            let ghost upto = cells.take((y + 1) * w);
            if y == 0 {
                assert(upto =~= row);
                assert(encode_rows(upto, w as int) == encode_row(upto));
            } else {
                vstd::arithmetic::div_mod::lemma_mod_multiples_basic(y as int + 1, w as int);
                assert((y as int + 1) * (w as int) >= 2 * (w as int)) by (nonlinear_arith)
                    requires y as int >= 1, w as int >= 0;
                lemma_encode_rows_snoc(upto, w as int);
                assert(upto.take(y * w) =~= cells.take(y * w));
                assert(upto.skip(y * w) =~= row);
            }
            if y + 1 < h {
                assert(out@ =~= encode_rows(upto, w as int) + seq![NEWLINE]);
            } else {
                assert(upto =~= cells);
                assert(out@ =~= encode_rows(cells, w as int));
            }
        }
    }
    out
}

/// Encoding one more cell at the end of a row appends its token and a comma.
proof fn lemma_encode_row_snoc(row: Seq<bool>, b: bool)
    ensures
        encode_row(row.push(b)) == encode_row(row) + token_bytes(b) + seq![COMMA],
    decreases row.len(),
{
    if row.len() == 0 {
        assert(row.push(b).first() == b);
        assert(row.push(b).skip(1) =~= Seq::<bool>::empty());
        assert(encode_row(row.push(b)) == token_bytes(b) + seq![COMMA] + encode_row(
            Seq::<bool>::empty(),
        ));
        assert(encode_row(row.push(b)) =~= encode_row(row) + token_bytes(b) + seq![COMMA]);
    } else {
        assert(row.push(b).first() == row.first());
        assert(row.push(b).skip(1) =~= row.skip(1).push(b));
        lemma_encode_row_snoc(row.skip(1), b);
        assert(encode_row(row.push(b)) == token_bytes(row.first()) + seq![COMMA] + (encode_row(
            row.skip(1),
        ) + token_bytes(b) + seq![COMMA]));
        assert(encode_row(row.push(b)) =~= encode_row(row) + token_bytes(b) + seq![COMMA]);
    }
}

/// A string without commas splits into itself as the only token.
proof fn lemma_split_no_comma(a: Seq<u8>)
    requires
        forall|k: int| 0 <= k < a.len() ==> a[k] != COMMA,
    ensures
        split_commas(a) == seq![a],
    decreases a.len(),
{
    if a.len() == 0 {
        assert(a =~= Seq::<u8>::empty());
        assert(split_commas(a) =~= seq![a]);
    } else {
        lemma_split_no_comma(a.skip(1));
        let rest = split_commas(a.skip(1));
        assert(rest.first() == a.skip(1));
        assert(rest.skip(1) =~= Seq::<Seq<u8>>::empty());
        assert(seq![a.first()] + a.skip(1) =~= a);
        assert(split_commas(a) =~= seq![a]);
    }
}

/// Splitting at the first comma: a comma-free prefix becomes the first
/// token, and the rest splits on its own.
proof fn lemma_split_comma_prefix(a: Seq<u8>, b: Seq<u8>)
    requires
        forall|k: int| 0 <= k < a.len() ==> a[k] != COMMA,
    ensures
        split_commas(a + seq![COMMA] + b) == seq![a] + split_commas(b),
    decreases a.len(),
{
    let s = a + seq![COMMA] + b;
    if a.len() == 0 {
        assert(s.first() == COMMA);
        assert(s.skip(1) =~= b);
        assert(split_commas(s) == seq![Seq::<u8>::empty()] + split_commas(b));
        assert(a =~= Seq::<u8>::empty());
        assert(split_commas(s) =~= seq![a] + split_commas(b));
    } else {
        assert(s.first() == a.first());
        assert(s.first() != COMMA);
        assert(s.skip(1) =~= a.skip(1) + seq![COMMA] + b);
        lemma_split_comma_prefix(a.skip(1), b);
        let rest = split_commas(s.skip(1));
        assert(rest == seq![a.skip(1)] + split_commas(b));
        assert(rest.first() == a.skip(1));
        assert(rest.skip(1) =~= split_commas(b));
        assert(seq![s.first()] + rest.first() =~= a);
        assert(split_commas(s) =~= seq![a] + split_commas(b));
    }
}

/// Finds the bounds of the input once surrounding whitespace is removed.
fn trim_bounds(s: &[u8]) -> (r: (usize, usize))
    ensures
        r.0 <= r.1 <= s@.len(),
        s@.subrange(r.0 as int, r.1 as int) == trim_spec(s@),
        r.1 > r.0 ==> !is_space(s@[r.1 - 1]),
{
    let n = s.len();
    let mut lo: usize = 0;
    proof {
        assert(s@.skip(0) =~= s@);
    }
    while lo < n && is_space_exec(s[lo])
        invariant
            lo <= n,
            n == s@.len(),
            trim_leading(s@) == trim_leading(s@.skip(lo as int)),
        decreases n - lo,
    {
        proof {
            assert(s@.skip(lo as int).first() == s@[lo as int]);
            assert(s@.skip(lo as int).skip(1) =~= s@.skip(lo as int + 1));
        }
        lo = lo + 1;
    }
    proof {
        if lo < n {
            assert(s@.skip(lo as int).first() == s@[lo as int]);
        } else {
            assert(s@.skip(lo as int).len() == 0);
        }
        assert(trim_leading(s@) == s@.skip(lo as int));
        assert(s@.subrange(lo as int, n as int) =~= s@.skip(lo as int));
    }
    let mut hi: usize = n;
    while hi > lo && is_space_exec(s[hi - 1])
        invariant
            lo <= hi <= n,
            n == s@.len(),
            trim_leading(s@) == s@.skip(lo as int),
            trim_trailing(s@.skip(lo as int)) == trim_trailing(
                s@.subrange(lo as int, hi as int),
            ),
        decreases hi,
    {
        proof {
            let t = s@.subrange(lo as int, hi as int);
            assert(t.last() == s@[hi - 1]);
            assert(t.drop_last() =~= s@.subrange(lo as int, hi as int - 1));
        }
        hi = hi - 1;
    }
    proof {
        assert(s@.subrange(lo as int, hi as int).len() == hi - lo);
        if hi > lo {
            assert(s@.subrange(lo as int, hi as int).last() == s@[hi - 1]);
        }
        assert(trim_trailing(s@.subrange(lo as int, hi as int)) == s@.subrange(
            lo as int,
            hi as int,
        ));
        assert(s@.subrange(lo as int, n as int) =~= s@.skip(lo as int));
    }
    (lo, hi)
}

/// One byte's whitespace test.
fn is_space_exec(c: u8) -> (r: bool)
    ensures
        r == is_space(c),
{
    c == 32 || c == 9 || c == 10 || c == 13
}

/// Finds the bounds of what the decoder tokenizes: surrounding whitespace
/// and then one trailing comma removed.
fn strip_bounds(s: &[u8]) -> (r: (usize, usize))
    ensures
        r.0 <= r.1 <= s@.len(),
        s@.subrange(r.0 as int, r.1 as int) == strip_spec(s@),
{
    let (lo, hi) = trim_bounds(s);
    if hi > lo && s[hi - 1] == COMMA {
        proof {
            let t = s@.subrange(lo as int, hi as int);
            assert(t.last() == s@[hi - 1]);
            assert(t.drop_last() =~= s@.subrange(lo as int, hi as int - 1));
        }
        (lo, hi - 1)
    } else {
        proof {
            let t = s@.subrange(lo as int, hi as int);
            if t.len() > 0 {
                assert(t.last() == s@[hi - 1]);
            }
        }
        (lo, hi)
    }
}

/// Splits `s[lo..hi]` at every comma into owned tokens.
fn split_commas_exec(s: &[u8], lo: usize, hi: usize) -> (tokens: Vec<Vec<u8>>)
    requires
        lo <= hi <= s@.len(),
    ensures
        tokens@.map_values(|t: Vec<u8>| t@) == split_commas(s@.subrange(lo as int, hi as int)),
{
    let ghost stripped = s@.subrange(lo as int, hi as int);
    let mut tokens: Vec<Vec<u8>> = Vec::new();
    let mut cur: Vec<u8> = Vec::new();
    let mut j: usize = lo;
    proof {
        assert(cur@ + stripped.skip(0) =~= stripped);
        assert(tokens@.map_values(|t: Vec<u8>| t@) + split_commas(stripped) =~= split_commas(
            stripped,
        ));
    }
    while j < hi
        invariant
            lo <= j <= hi <= s@.len(),
            stripped == s@.subrange(lo as int, hi as int),
            forall|k: int| 0 <= k < cur@.len() ==> cur@[k] != COMMA,
            split_commas(stripped) == tokens@.map_values(|t: Vec<u8>| t@) + split_commas(
                cur@ + stripped.skip(j - lo),
            ),
        decreases hi - j,
    {
        let c = s[j];
        proof {
            assert(stripped.skip(j - lo).first() == s@[j as int]);
            assert(stripped.skip(j - lo).skip(1) =~= stripped.skip(j + 1 - lo));
        }
        if c == COMMA {
            proof {
                assert(cur@ + stripped.skip(j - lo) =~= cur@ + seq![COMMA] + stripped.skip(
                    j + 1 - lo,
                ));
                lemma_split_comma_prefix(cur@, stripped.skip(j + 1 - lo));
            }
            let ghost toks0 = tokens@;
            let ghost curv = cur@;
            let done = cur;
            cur = Vec::new();
            tokens.push(done);
            proof {
                assert(tokens@ == toks0.push(done));
                assert(tokens@.map_values(|t: Vec<u8>| t@) =~= toks0.map_values(|t: Vec<u8>| t@)
                    + seq![curv]);
                assert(cur@ + stripped.skip(j + 1 - lo) =~= stripped.skip(j + 1 - lo));
            }
        } else {
            let ghost curv = cur@;
            cur.push(c);
            proof {
                assert(cur@ + stripped.skip(j + 1 - lo) =~= curv + stripped.skip(j - lo));
            }
        }
        j = j + 1;
    }
    proof {
        assert(cur@ + stripped.skip(hi - lo) =~= cur@);
        lemma_split_no_comma(cur@);
    }
    let ghost toks0 = tokens@;
    let ghost curv = cur@;
    tokens.push(cur);
    proof {
        assert(tokens@.map_values(|t: Vec<u8>| t@) =~= toks0.map_values(|t: Vec<u8>| t@)
            + seq![curv]);
        assert(tokens@.map_values(|t: Vec<u8>| t@) =~= split_commas(stripped));
    }
    tokens
}

/// Reads one token's cell value: `true` or `false` once surrounding
/// whitespace is removed, anything else refused.
fn token_value_exec(t: &[u8]) -> (r: Option<bool>)
    ensures
        r == token_value(t@),
{
    let (lo, hi) = trim_bounds(t);
    let ghost trimmed = trim_spec(t@);
    proof {
        assert(trimmed.len() == hi - lo);
        assert(forall|k: int|
            0 <= k < trimmed.len() ==> trimmed[k] == t@[lo + k]);
    }
    if hi - lo == 4 {
        if t[lo] == 116 && t[lo + 1] == 114 && t[lo + 2] == 117 && t[lo + 3] == 101 {
            proof {
                assert(trimmed =~= true_bytes());
            }
            Some(true)
        } else {
            proof {
                if trimmed == true_bytes() {
                    assert(t@[lo as int] == 116 && t@[lo + 1] == 114 && t@[lo + 2] == 117
                        && t@[lo + 3] == 101);
                }
            }
            None
        }
    } else if hi - lo == 5 {
        if t[lo] == 102 && t[lo + 1] == 97 && t[lo + 2] == 108 && t[lo + 3] == 115 && t[lo + 4]
            == 101 {
            proof {
                assert(trimmed =~= false_bytes());
            }
            Some(false)
        } else {
            proof {
                if trimmed == false_bytes() {
                    assert(t@[lo as int] == 102 && t@[lo + 1] == 97 && t@[lo + 2] == 108
                        && t@[lo + 3] == 115 && t@[lo + 4] == 101);
                }
            }
            None
        }
    } else {
        None
    }
}

/// Reads every token's cell value, refusing the lot if any one token is
/// invalid.
fn parse_tokens(tokens: &Vec<Vec<u8>>) -> (r: Option<Vec<bool>>)
    ensures
        r is Some <==> (forall|i: int|
            0 <= i < tokens@.len() ==> token_value(tokens@[i]@) is Some),
        r is None ==> (exists|i: int|
            0 <= i < tokens@.len() && token_value(#[trigger] tokens@[i]@) is None),
        r is Some ==> {
            &&& r->0@.len() == tokens@.len()
            &&& forall|i: int|
                0 <= i < tokens@.len() ==> r->0@[i] == token_value(tokens@[i]@)->0
        },
{
    let mut values: Vec<bool> = Vec::new();
    let n = tokens.len();
    for i in 0..n
        invariant
            n == tokens@.len(),
            values@.len() == i,
            forall|k: int| 0 <= k < i ==> token_value(tokens@[k]@) is Some,
            forall|k: int| 0 <= k < i ==> values@[k] == token_value(tokens@[k]@)->0,
    {
        match token_value_exec(tokens[i].as_slice()) {
            Some(b) => {
                values.push(b);
            },
            None => {
                assert(token_value(tokens@[i as int]@) is None);
                return None;
            },
        }
    }
    Some(values)
}

/// Reads text produced by [`encode`] (or typed by hand) back into the grid.
///
/// The input is tokenized by stripping surrounding whitespace and one
/// trailing comma, then splitting at every comma. The grid is touched only
/// when the token count equals the grid's cell count and every token,
/// whitespace aside, is exactly `true` or `false`; otherwise the matching
/// error reports why and the grid keeps its cells.
pub fn decode(g: &mut Grid, input: &[u8]) -> (r: Result<(), DecodeError>)
    ensures
        final(g)@.width == old(g)@.width,
        final(g)@.height == old(g)@.height,
        ({
            let toks = input_tokens(input@);
            &&& (toks.len() != old(g)@.cells.len() ==> {
                &&& r == Result::<(), DecodeError>::Err(
                    DecodeError::LengthMismatch {
                        expected: old(g)@.cells.len() as usize,
                        found: toks.len() as usize,
                    },
                )
                &&& final(g)@.cells == old(g)@.cells
            })
            &&& ((toks.len() == old(g)@.cells.len() && (exists|i: int|
                0 <= i < toks.len() && token_value(toks[i]) is None)) ==> {
                &&& r == Result::<(), DecodeError>::Err(DecodeError::InvalidToken)
                &&& final(g)@.cells == old(g)@.cells
            })
            &&& ((toks.len() == old(g)@.cells.len() && (forall|i: int|
                0 <= i < toks.len() ==> token_value(toks[i]) is Some)) ==> {
                &&& r is Ok
                &&& final(g)@.cells.len() == old(g)@.cells.len()
                &&& forall|i: int|
                    0 <= i < toks.len() ==> final(g)@.cells[i] == token_value(toks[i])->0
            })
        }),
{
    let ghost toks = input_tokens(input@);
    let (lo, hi) = strip_bounds(input);
    let tokens = split_commas_exec(input, lo, hi);
    proof {
        assert(toks.len() == tokens@.len());
        assert forall|i: int| 0 <= i < toks.len() implies toks[i] == tokens@[i]@ by {
            assert(tokens@.map_values(|t: Vec<u8>| t@)[i] == tokens@[i]@);
        }
    }
    let expected = g.cell_count();
    if tokens.len() != expected {
        return Err(DecodeError::LengthMismatch { expected, found: tokens.len() });
    }
    match parse_tokens(&tokens) {
        None => {
            proof {
                let k = choose|k: int|
                    0 <= k < tokens@.len() && token_value(#[trigger] tokens@[k]@) is None;
                assert(token_value(toks[k]) is None);
            }
            Err(DecodeError::InvalidToken)
        },
        Some(values) => {
            g.replace_cells(values);
            Ok(())
        },
    }
}

/// Splitting an encoding at its final row: the earlier rows, a newline, and
/// the last row.
proof fn lemma_encode_rows_snoc(cells: Seq<bool>, w: int)
    requires
        0 < w,
        w < cells.len(),
        cells.len() as int % w == 0,
    ensures
        encode_rows(cells, w) == encode_rows(cells.take(cells.len() - w), w) + seq![NEWLINE]
            + encode_row(cells.skip(cells.len() - w)),
    decreases cells.len(),
{
    let n = cells.len() as int;
    vstd::arithmetic::div_mod::lemma_mod_sub_multiples_vanish(n, w);
    if n - w <= w {
        assert(n - w == w) by {
            if n - w < w {
                vstd::arithmetic::div_mod::lemma_small_mod((n - w) as nat, w as nat);
            }
        }
        assert(encode_rows(cells, w) == encode_row(cells.take(w)) + seq![NEWLINE] + encode_rows(
            cells.skip(w),
            w,
        ));
        assert(encode_rows(cells.take(n - w), w) == encode_row(cells.take(n - w)));
    } else {
        assert(encode_rows(cells, w) == encode_row(cells.take(w)) + seq![NEWLINE] + encode_rows(
            cells.skip(w),
            w,
        ));
        lemma_encode_rows_snoc(cells.skip(w), w);
        assert(cells.skip(w).take(cells.skip(w).len() - w) =~= cells.take(n - w).skip(w));
        assert(cells.skip(w).skip(cells.skip(w).len() - w) =~= cells.skip(n - w));
        assert(cells.take(n - w).take(w) =~= cells.take(w));
        assert(encode_rows(cells.take(n - w), w) == encode_row(cells.take(n - w).take(w))
            + seq![NEWLINE] + encode_rows(cells.take(n - w).skip(w), w));
        assert(encode_rows(cells, w) =~= encode_rows(cells.take(n - w), w) + seq![NEWLINE]
            + encode_row(cells.skip(n - w)));
    }
}

/// No comma anywhere in the bytes.
pub open spec fn comma_free(t: Seq<u8>) -> bool {
    forall|k: int| 0 <= k < t.len() ==> t[k] != COMMA
}

/// The raw text a cell contributes between commas: its token, with the
/// newline that ends the previous row stuck to the front at each row start.
spec fn raw_token(cells: Seq<bool>, w: int, i: int) -> Seq<u8> {
    if i > 0 && i % w == 0 {
        seq![NEWLINE] + token_bytes(cells[i])
    } else {
        token_bytes(cells[i])
    }
}

/// Every cell's raw text, in order.
spec fn raw_tokens(cells: Seq<bool>, w: int) -> Seq<Seq<u8>> {
    Seq::new(cells.len(), |i: int| raw_token(cells, w, i))
}

/// The given pieces joined with a comma after each one.
spec fn token_list(items: Seq<Seq<u8>>) -> Seq<u8>
    decreases items.len(),
{
    if items.len() == 0 {
        Seq::empty()
    } else {
        items.first() + seq![COMMA] + token_list(items.skip(1))
    }
}

/// A cell's token is short, holds no comma, and neither starts nor ends
/// with whitespace.
proof fn lemma_token_bytes_shape(b: bool)
    ensures
        token_bytes(b).len() > 0,
        comma_free(token_bytes(b)),
        !is_space(token_bytes(b).first()),
        !is_space(token_bytes(b).last()),
{
}

/// Whitespace trimming gives a cell's raw text back as its bare token.
proof fn lemma_trim_raw_token(cells: Seq<bool>, w: int, i: int)
    ensures
        trim_spec(raw_token(cells, w, i)) == token_bytes(cells[i]),
        token_value(raw_token(cells, w, i)) == Some(cells[i]),
{
    let t = token_bytes(cells[i]);
    lemma_token_bytes_shape(cells[i]);
    assert(trim_leading(t) == t);
    assert(trim_trailing(t) == t);
    if i > 0 && i % w == 0 {
        let r = seq![NEWLINE] + t;
        assert(r.first() == NEWLINE);
        assert(r.skip(1) =~= t);
        assert(trim_leading(r) == trim_leading(t));
    }
    if cells[i] {
        assert(trim_spec(raw_token(cells, w, i)) == true_bytes());
    } else {
        assert(trim_spec(raw_token(cells, w, i)) != true_bytes());
        assert(trim_spec(raw_token(cells, w, i)) == false_bytes());
    }
}

/// Joining two runs of pieces one after the other.
proof fn lemma_token_list_concat(a: Seq<Seq<u8>>, b: Seq<Seq<u8>>)
    ensures
        token_list(a + b) == token_list(a) + token_list(b),
    decreases a.len(),
{
    if a.len() == 0 {
        assert(a + b =~= b);
        assert(token_list(a) + token_list(b) =~= token_list(b));
    } else {
        assert((a + b).first() == a.first());
        assert((a + b).skip(1) =~= a.skip(1) + b);
        lemma_token_list_concat(a.skip(1), b);
        assert(token_list(a + b) =~= token_list(a) + token_list(b));
    }
}

/// One row's encoding is its tokens joined with commas.
proof fn lemma_encode_row_as_tokens(row: Seq<bool>)
    ensures
        encode_row(row) == token_list(row.map_values(|b: bool| token_bytes(b))),
    decreases row.len(),
{
    let items = row.map_values(|b: bool| token_bytes(b));
    if row.len() == 0 {
        assert(encode_row(row) =~= token_list(items));
    } else {
        lemma_encode_row_as_tokens(row.skip(1));
        assert(items.first() == token_bytes(row.first()));
        assert(items.skip(1) =~= row.skip(1).map_values(|b: bool| token_bytes(b)));
        assert(encode_row(row) =~= token_list(items));
    }
}

/// The whole encoding is every cell's raw text joined with commas.
proof fn lemma_encode_as_tokens(cells: Seq<bool>, w: int)
    requires
        0 < w,
        cells.len() as int % w == 0,
    ensures
        encode_rows(cells, w) == token_list(raw_tokens(cells, w)),
    decreases cells.len(),
{
    let raw = raw_tokens(cells, w);
    if cells.len() == 0 {
        assert(raw =~= Seq::<Seq<u8>>::empty());
        assert(encode_rows(cells, w) =~= token_list(raw));
    } else if cells.len() <= w {
        lemma_encode_row_as_tokens(cells);
        assert forall|i: int| 0 <= i < cells.len() implies raw[i] == cells.map_values(
            |b: bool| token_bytes(b),
        )[i] by {
            if i > 0 {
                vstd::arithmetic::div_mod::lemma_small_mod(i as nat, w as nat);
            }
        }
        assert(raw =~= cells.map_values(|b: bool| token_bytes(b)));
    } else {
        let rest = cells.skip(w);
        vstd::arithmetic::div_mod::lemma_mod_sub_multiples_vanish(cells.len() as int, w);
        assert(rest.len() as int % w == 0);
        lemma_encode_as_tokens(rest, w);
        lemma_encode_row_as_tokens(cells.take(w));
        let row_items = cells.take(w).map_values(|b: bool| token_bytes(b));
        let rt = raw_tokens(rest, w);
        // the first row's raw text is its bare tokens
        assert forall|i: int| 0 <= i < w implies raw[i] == row_items[i] by {
            if i > 0 {
                vstd::arithmetic::div_mod::lemma_small_mod(i as nat, w as nat);
            }
        }
        // past the first row, the raw text follows the remainder's, with a
        // newline stuck to the remainder's first token
        let marked = seq![seq![NEWLINE] + rt.first()] + rt.skip(1);
        assert forall|j: int| 0 <= j < rest.len() implies raw[w + j] == marked[j] by {
            vstd::arithmetic::div_mod::lemma_mod_multiples_vanish(1, j, w);
            assert((w + j) % w == j % w);
            assert(cells[w + j] == rest[j]);
            if j > 0 {
                vstd::arithmetic::div_mod::lemma_mod_bound(j, w);
                assert(raw_token(cells, w, w + j) == raw_token(rest, w, j));
            } else {
                vstd::arithmetic::div_mod::lemma_mod_multiples_basic(1, w);
                assert(w % w == 0);
                assert(raw[w + j] == seq![NEWLINE] + token_bytes(rest[0]));
                assert(rt.first() == raw_token(rest, w, 0));
            }
        }
        assert(raw =~= row_items + marked);
        lemma_token_list_concat(row_items, marked);
        // a newline on the first piece moves out front when the pieces join
        assert(rt.len() > 0);
        assert(marked.first() == seq![NEWLINE] + rt.first());
        assert(marked.skip(1) =~= rt.skip(1));
        assert(token_list(marked) =~= seq![NEWLINE] + token_list(rt));
        assert(encode_rows(cells, w) =~= token_list(raw));
    }
}

/// A nonempty run of joined pieces ends with a comma.
proof fn lemma_token_list_last(items: Seq<Seq<u8>>)
    requires
        items.len() >= 1,
    ensures
        token_list(items).len() >= 1,
        token_list(items).last() == COMMA,
    decreases items.len(),
{
    if items.len() == 1 {
        assert(token_list(items.skip(1)) == Seq::<u8>::empty());
        assert(token_list(items).last() == COMMA);
    } else {
        lemma_token_list_last(items.skip(1));
        let tail = token_list(items.skip(1));
        assert(token_list(items).last() == tail.last());
    }
}

/// Splitting joined comma-free pieces, once the final comma is dropped,
/// recovers exactly the pieces.
proof fn lemma_split_token_list(items: Seq<Seq<u8>>)
    requires
        items.len() >= 1,
        forall|i: int| 0 <= i < items.len() ==> comma_free(#[trigger] items[i]),
    ensures
        split_commas(token_list(items).drop_last()) == items,
    decreases items.len(),
{
    if items.len() == 1 {
        assert(token_list(items.skip(1)) == Seq::<u8>::empty());
        assert(token_list(items).drop_last() =~= items.first());
        assert(comma_free(items[0]));
        lemma_split_no_comma(items.first());
        assert(seq![items.first()] =~= items);
    } else {
        lemma_token_list_last(items.skip(1));
        let tail = token_list(items.skip(1));
        assert(token_list(items).drop_last() =~= items.first() + seq![COMMA] + tail.drop_last());
        assert(comma_free(items[0]));
        lemma_split_comma_prefix(items.first(), tail.drop_last());
        lemma_split_token_list(items.skip(1));
        assert(seq![items.first()] + items.skip(1) =~= items);
    }
}

/// Encoding a grid and tokenizing the text as the decoder does gives one
/// token per cell, each reading back as that cell's value: decoding an
/// unedited encoding restores the grid exactly.
pub proof fn lemma_encode_decode_round_trip(cells: Seq<bool>, w: int, h: int)
    requires
        0 < w,
        0 < h,
        cells.len() == w * h,
    ensures
        ({
            let toks = input_tokens(encode_rows(cells, w));
            &&& toks.len() == cells.len()
            &&& forall|i: int| 0 <= i < cells.len() ==> token_value(#[trigger] toks[i]) == Some(
                cells[i],
            )
        }),
{
    let e = encode_rows(cells, w);
    let raw = raw_tokens(cells, w);
    assert(cells.len() >= 1 && cells.len() >= w) by (nonlinear_arith)
        requires 0 < w, 0 < h, cells.len() == w * h;
    assert(cells.len() as int % w == 0) by {
        vstd::arithmetic::div_mod::lemma_mod_multiples_basic(h, w);
        assert(w * h == h * w) by (nonlinear_arith);
    }
    lemma_encode_as_tokens(cells, w);
    assert forall|i: int| 0 <= i < raw.len() implies comma_free(#[trigger] raw[i]) by {
        lemma_token_bytes_shape(cells[i]);
        assert(forall|k: int| 0 <= k < raw[i].len() ==> raw[i][k] != COMMA);
    }
    // the encoding needs no trimming: it starts with a token byte and ends
    // with a comma
    lemma_token_list_last(raw);
    assert(raw.first() == raw_token(cells, w, 0));
    lemma_token_bytes_shape(cells[0]);
    assert(e.first() == token_bytes(cells[0]).first());
    assert(!is_space(e.first()));
    assert(trim_leading(e) == e);
    assert(e.last() == COMMA);
    assert(!is_space(e.last()));
    assert(trim_trailing(e) == e);
    assert(strip_spec(e) == e.drop_last());
    lemma_split_token_list(raw);
    assert forall|i: int| 0 <= i < cells.len() implies token_value(
        #[trigger] input_tokens(e)[i],
    ) == Some(cells[i]) by {
        lemma_trim_raw_token(cells, w, i);
    }
}

} // verus!
