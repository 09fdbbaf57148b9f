//! The tokenizer: a single left-to-right scan of the input text, producing a
//! flat token sequence, and a post-pass that folds bracketed token runs into
//! array-literal tokens.

use vstd::prelude::*;
use vstd::string::StrSliceExecFns;

use crate::token::{
    func_from, lemma_tokens_view_concat, lemma_tokens_view_push, lemma_tokens_view_subrange,
    op_of_char, token_view, tokens_view, Function, Operator, Token, TokenView,
};

verus! {

/// A failure of the lexical scan or of the array-folding post-pass.
#[derive(Clone, Copy, PartialEq, Eq, Structural, Debug)]
pub enum SyntaxError {
    /// No recognizer matches at this character position of the input text.
    Unrecognized { pos: usize },
    /// The `OpenBracket` at this index of the token sequence has no matching
    /// `CloseBracket` after it.
    UnmatchedBracket { index: usize },
}

/// A decimal digit.
pub open spec fn is_digit_char(c: char) -> bool {
    '0' as u32 <= c as u32 && c as u32 <= '9' as u32
}

/// A character that may stand in a numeric literal: a digit or a decimal
/// point. A point is accepted anywhere in the run, even several times; the
/// scan does not insist on a single well-placed point.
pub open spec fn is_number_char(c: char) -> bool {
    is_digit_char(c) || c == '.'
}

/// The first position at or after `pos` that does not continue a numeric
/// run, so the run itself is `s[pos .. number_run_end(s, pos)]`.
pub open spec fn number_run_end(s: Seq<char>, pos: int) -> int
    decreases s.len() - pos,
{
    if pos < s.len() && is_number_char(s[pos]) {
        number_run_end(s, pos + 1)
    } else {
        pos
    }
}

/// The position of the last `"` before `end`, or `-1` if there is none.
pub open spec fn last_quote_before(s: Seq<char>, end: int) -> int
    decreases end,
{
    if end <= 0 {
        -1
    } else if s[end - 1] == '"' {
        end - 1
    } else {
        last_quote_before(s, end - 1)
    }
}

/// Prefix one token onto the outcome of scanning the rest of the input;
/// a failure passes through unchanged.
pub open spec fn prepend_token(t: TokenView, r: Result<Seq<TokenView>, int>) -> Result<
    Seq<TokenView>,
    int,
> {
    match r {
        Ok(ts) => Ok(seq![t] + ts),
        Err(p) => Err(p),
    }
}

/// The scan from position `pos` to the end of the input. At each position the
/// recognizers are tried in a fixed priority order: numeric literal, string
/// literal, operator symbol, function keyword, whitespace. A string literal
/// extends to the last `"` anywhere in the input, not the nearest one. When
/// nothing matches, the scan fails with the offending position.
pub open spec fn spec_scan(s: Seq<char>, pos: int) -> Result<Seq<TokenView>, int>
    decreases s.len() - pos
        via spec_scan_decreases
{
    if pos >= s.len() {
        Ok(Seq::empty())
    } else {
        let c = s[pos];
        if is_number_char(c) {
            let e = number_run_end(s, pos);
            prepend_token(TokenView::Number(s.subrange(pos, e)), spec_scan(s, e))
        } else if c == '"' {
            let q = last_quote_before(s, s.len() as int);
            prepend_token(TokenView::Str(s.subrange(pos, q + 1)), spec_scan(s, q + 1))
        } else {
            match op_of_char(c) {
                Some(op) => prepend_token(TokenView::Operator(op), spec_scan(s, pos + 1)),
                None => match func_from(s, pos) {
                    Some((f, l)) => prepend_token(
                        TokenView::Function(f),
                        spec_scan(s, pos + l),
                    ),
                    None => if c == ' ' || c == '\t' {
                        spec_scan(s, pos + 1)
                    } else {
                        Err(pos)
                    },
                },
            }
        }
    }
}

#[via_fn]
proof fn spec_scan_decreases(s: Seq<char>, pos: int) {
    if pos < s.len() {
        if is_number_char(s[pos]) {
            lemma_number_run_end(s, pos);
        } else if s[pos] == '"' {
            lemma_last_quote_before(s, s.len() as int);
            if 0 <= pos {
                if last_quote_before(s, s.len() as int) < pos {
                    assert(s[pos] != '"');
                }
            }
        }
    }
}

/// Bounds and character content of a numeric run: it starts at `pos`, stops
/// at or before the end of the input, consists of number characters, and is
/// maximal.
pub proof fn lemma_number_run_end(s: Seq<char>, pos: int)
    requires
        pos <= s.len(),
    ensures
        pos <= number_run_end(s, pos) <= s.len(),
        forall|k: int| pos <= k < number_run_end(s, pos) ==> is_number_char(s[k]),
        number_run_end(s, pos) < s.len() ==> !is_number_char(s[number_run_end(s, pos)]),
        pos < s.len() && is_number_char(s[pos]) ==> number_run_end(s, pos) >= pos + 1,
    decreases s.len() - pos,
{
    if pos < s.len() && is_number_char(s[pos]) {
        lemma_number_run_end(s, pos + 1);
    }
}

/// The last quote lies before `end`, is itself a quote, and no quote follows
/// it before `end`.
pub proof fn lemma_last_quote_before(s: Seq<char>, end: int)
    requires
        0 <= end,
    ensures
        -1 <= last_quote_before(s, end) < end,
        last_quote_before(s, end) >= 0 ==> s[last_quote_before(s, end)] == '"',
        forall|k: int| last_quote_before(s, end) < k < end ==> s[k] != '"',
    decreases end,
{
    if end > 0 && s[end - 1] != '"' {
        lemma_last_quote_before(s, end - 1);
    }
}

/// Prefix a sequence of already-scanned tokens onto the outcome of scanning
/// the rest of the input.
pub open spec fn prepend_tokens(pre: Seq<TokenView>, r: Result<Seq<TokenView>, int>) -> Result<
    Seq<TokenView>,
    int,
> {
    match r {
        Ok(ts) => Ok(pre + ts),
        Err(p) => Err(p),
    }
}

/// Emitting one more token commutes with prefixing it to the remaining scan.
proof fn lemma_prepend_shift(pre: Seq<TokenView>, t: TokenView, r: Result<Seq<TokenView>, int>)
    ensures
        prepend_tokens(pre.push(t), r) == prepend_tokens(pre, prepend_token(t, r)),
{
    match r {
        Ok(ts) => {
            assert(pre.push(t) + ts =~= pre + (seq![t] + ts));
        },
        Err(_) => {},
    }
}

/// Whether `c` may stand in a numeric literal.
fn exec_is_number_char(c: char) -> (b: bool)
    ensures
        b == is_number_char(c),
{
    let u = c as u32;
    ('0' as u32 <= u && u <= '9' as u32) || c == '.'
}

/// The end of the numeric run that starts at `pos`.
fn find_number_run_end(s: &str, pos: usize) -> (e: usize)
    requires
        pos < s@.len(),
        is_number_char(s@[pos as int]),
    ensures
        e as int == number_run_end(s@, pos as int),
        pos < e <= s@.len(),
{
    let n = s.unicode_len();
    let mut e = pos;
    while e < n && exec_is_number_char(s.get_char(e))
        invariant
            n as nat == s@.len(),
            pos <= e <= n,
            number_run_end(s@, pos as int) == number_run_end(s@, e as int),
        decreases n - e,
    {
        e = e + 1;
    }
    proof {
        lemma_number_run_end(s@, pos as int);
    }
    e
}

/// The position of the last `"` in the text, if there is one.
fn last_quote_index(s: &str) -> (r: Option<usize>)
    ensures
        match r {
            Some(i) => i as int == last_quote_before(s@, s@.len() as int) && i < s@.len(),
            None => last_quote_before(s@, s@.len() as int) == -1,
        },
{
    let n = s.unicode_len();
    let mut j = n;
    while j > 0
        invariant
            j <= n,
            n as nat == s@.len(),
            last_quote_before(s@, n as int) == last_quote_before(s@, j as int),
        decreases j,
    {
        if s.get_char(j - 1) == '"' {
            return Some(j - 1);
        }
        j = j - 1;
    }
    None
}

/// An `OpenBracket` operator token.
pub open spec fn is_open_bracket(t: TokenView) -> bool {
    t matches TokenView::Operator(Operator::OpenBracket)
}

/// A `CloseBracket` operator token.
pub open spec fn is_close_bracket(t: TokenView) -> bool {
    t matches TokenView::Operator(Operator::CloseBracket)
}

/// The index of the last `OpenBracket` before `end`, or `-1` if there is
/// none.
pub open spec fn last_open_bracket(ts: Seq<TokenView>, end: int) -> int
    decreases end,
{
    if end <= 0 {
        -1
    } else if is_open_bracket(ts[end - 1]) {
        end - 1
    } else {
        last_open_bracket(ts, end - 1)
    }
}

/// The index of the first `CloseBracket` at or after `i`, or the length of
/// the sequence if there is none.
pub open spec fn first_close_bracket(ts: Seq<TokenView>, i: int) -> int
    decreases ts.len() - i,
{
    if i >= ts.len() {
        i
    } else if is_close_bracket(ts[i]) {
        i
    } else {
        first_close_bracket(ts, i + 1)
    }
}

/// The array-folding post-pass. Repeatedly take the rightmost remaining
/// `OpenBracket` — so that innermost brackets fold first — find its nearest
/// following `CloseBracket`, and replace the whole span by a single `Array`
/// token wrapping the tokens strictly between them. An `OpenBracket` with no
/// following `CloseBracket` is a failure, reported with its index.
pub open spec fn spec_fold(ts: Seq<TokenView>) -> Result<Seq<TokenView>, int>
    decreases ts.len()
        via spec_fold_decreases
{
    let i = last_open_bracket(ts, ts.len() as int);
    if i < 0 {
        Ok(ts)
    } else {
        let j = first_close_bracket(ts, i + 1);
        if j >= ts.len() {
            Err(i)
        } else {
            spec_fold(
                ts.subrange(0, i) + seq![TokenView::Array(ts.subrange(i + 1, j))] + ts.subrange(
                    j + 1,
                    ts.len() as int,
                ),
            )
        }
    }
}

#[via_fn]
proof fn spec_fold_decreases(ts: Seq<TokenView>) {
    lemma_last_open_bracket(ts, ts.len() as int);
    let i = last_open_bracket(ts, ts.len() as int);
    if 0 <= i {
        lemma_first_close_bracket(ts, i + 1);
    }
}

/// The last open bracket lies before `end`, is itself an `OpenBracket`, and
/// no `OpenBracket` follows it before `end`.
pub proof fn lemma_last_open_bracket(ts: Seq<TokenView>, end: int)
    requires
        0 <= end,
    ensures
        -1 <= last_open_bracket(ts, end) < end,
        last_open_bracket(ts, end) >= 0 ==> is_open_bracket(ts[last_open_bracket(ts, end)]),
        forall|k: int| last_open_bracket(ts, end) < k < end ==> !is_open_bracket(ts[k]),
    decreases end,
{
    if end > 0 && !is_open_bracket(ts[end - 1]) {
        lemma_last_open_bracket(ts, end - 1);
    }
}

/// The first close bracket lies at or after `i`, is itself a `CloseBracket`
/// when it lies inside the sequence, and no `CloseBracket` stands between.
pub proof fn lemma_first_close_bracket(ts: Seq<TokenView>, i: int)
    requires
        0 <= i <= ts.len(),
    ensures
        i <= first_close_bracket(ts, i) <= ts.len(),
        first_close_bracket(ts, i) < ts.len() ==> is_close_bracket(ts[first_close_bracket(ts, i)]),
        forall|k: int| i <= k < first_close_bracket(ts, i) ==> !is_close_bracket(ts[k]),
    decreases ts.len() - i,
{
    if i < ts.len() && !is_close_bracket(ts[i]) {
        lemma_first_close_bracket(ts, i + 1);
    }
}

/// The index of the last `OpenBracket` token, if there is one.
fn find_last_open_bracket(tokens: &Vec<Token>) -> (r: Option<usize>)
    ensures
        match r {
            Some(i) => i as int == last_open_bracket(tokens_view(tokens@), tokens@.len() as int)
                && i < tokens@.len(),
            None => last_open_bracket(tokens_view(tokens@), tokens@.len() as int) == -1,
        },
{
    proof {
        crate::token::lemma_tokens_view_index(tokens@);
    }
    let ghost vs = tokens_view(tokens@);
    let n = tokens.len();
    let mut j = n;
    while j > 0
        invariant
            j <= n == tokens@.len(),
            vs == tokens_view(tokens@),
            vs.len() == tokens@.len(),
            forall|k: int| 0 <= k < tokens@.len() ==> vs[k] == token_view(tokens@[k]),
            last_open_bracket(vs, n as int) == last_open_bracket(vs, j as int),
        decreases j,
    {
        if matches!(&tokens[j - 1], Token::Operator(Operator::OpenBracket)) {
            return Some(j - 1);
        }
        j = j - 1;
    }
    None
}

/// The index of the first `CloseBracket` token at or after `from`, if any.
fn find_first_close_bracket(tokens: &Vec<Token>, from: usize) -> (r: Option<usize>)
    requires
        from <= tokens@.len(),
    ensures
        match r {
            Some(j) => j as int == first_close_bracket(tokens_view(tokens@), from as int) && from
                <= j < tokens@.len(),
            None => first_close_bracket(tokens_view(tokens@), from as int) == tokens@.len(),
        },
{
    proof {
        crate::token::lemma_tokens_view_index(tokens@);
    }
    let ghost vs = tokens_view(tokens@);
    let n = tokens.len();
    let mut j = from;
    while j < n
        invariant
            from <= j <= n == tokens@.len(),
            vs == tokens_view(tokens@),
            vs.len() == tokens@.len(),
            forall|k: int| 0 <= k < tokens@.len() ==> vs[k] == token_view(tokens@[k]),
            first_close_bracket(vs, from as int) == first_close_bracket(vs, j as int),
        decreases n - j,
    {
        if matches!(&tokens[j], Token::Operator(Operator::CloseBracket)) {
            return Some(j);
        }
        j = j + 1;
    }
    None
}

/// Fold bracketed token runs into `Array` tokens, rightmost open bracket
/// first, exactly as `spec_fold` describes. Fails when some `OpenBracket`
/// has no matching `CloseBracket`, naming that token's index.
pub fn fold_arrays(tokens: Vec<Token>) -> (r: Result<Vec<Token>, SyntaxError>)
    ensures
        match r {
            Ok(v) => spec_fold(tokens_view(tokens@)) == Ok::<Seq<TokenView>, int>(
                tokens_view(v@),
            ),
            Err(e) => e matches SyntaxError::UnmatchedBracket { index } && spec_fold(
                tokens_view(tokens@),
            ) == Err::<Seq<TokenView>, int>(index as int),
        },
{
    let mut work = tokens;
    loop
        invariant
            spec_fold(tokens_view(work@)) == spec_fold(tokens_view(tokens@)),
        decreases work@.len(),
    {
        let ghost w = work@;
        let ghost vs = tokens_view(w);
        proof {
            crate::token::lemma_tokens_view_index(w);
        }
        let i = match find_last_open_bracket(&work) {
            Some(i) => i,
            None => {
                return Ok(work);
            },
        };
        let wlen = work.len();
        proof {
            assert(i < wlen);
        }
        let j = match find_first_close_bracket(&work, i + 1) {
            Some(j) => j,
            None => {
                return Err(SyntaxError::UnmatchedBracket { index: i });
            },
        };
        // Move the tokens strictly between the brackets into the new array,
        // then replace the bracketed span by the one `Array` token.
        let ghost len = w.len() as int;
        let mut inner: Vec<Token> = Vec::new();
        let count = j - i - 1;
        let mut t: usize = 0;
        proof {
            assert(work@ =~= w.subrange(0, i + 1) + w.subrange(i + 1, len));
            assert(inner@ =~= w.subrange(i + 1, i + 1));
        }
        while t < count
            invariant
                t <= count,
                count as int == j - i - 1,
                i as int + 1 <= j as int,
                (j as int) < len,
                w.len() as int == len,
                work@ == w.subrange(0, i as int + 1) + w.subrange(i as int + 1 + t as int, len),
                inner@ == w.subrange(i as int + 1, i as int + 1 + t as int),
            decreases count - t,
        {
            let x = work.remove(i + 1);
            inner.push(x);
            proof {
                assert(work@ =~= w.subrange(0, i as int + 1) + w.subrange(
                    i as int + 1 + t as int + 1,
                    len,
                ));
                assert(x == w[i as int + 1 + t as int]);
                assert(inner@ =~= w.subrange(i as int + 1, i as int + 1 + t as int + 1));
            }
            t = t + 1;
        }
        // The open bracket now stands at `i` and the close bracket right
        // after it; drop both and put the folded array in their place.
        let _open = work.remove(i);
        let _close = work.remove(i);
        work.insert(i, Token::Array(inner));
        proof {
            assert(inner@ == w.subrange(i as int + 1, j as int));
            assert(work@ =~= w.subrange(0, i as int) + seq![Token::Array(inner)] + w.subrange(
                j as int + 1,
                len,
            ));
            lemma_tokens_view_concat(
                w.subrange(0, i as int) + seq![Token::Array(inner)],
                w.subrange(j as int + 1, len),
            );
            lemma_tokens_view_concat(w.subrange(0, i as int), seq![Token::Array(inner)]);
            lemma_tokens_view_subrange(w, 0, i as int);
            lemma_tokens_view_subrange(w, j as int + 1, len);
            lemma_tokens_view_subrange(w, i as int + 1, j as int);
            crate::token::lemma_tokens_view_index(seq![Token::Array(inner)]);
            assert(tokens_view(seq![Token::Array(inner)]) =~= seq![
                TokenView::Array(tokens_view(inner@)),
            ]);
            assert(tokens_view(work@) == vs.subrange(0, i as int) + seq![
                TokenView::Array(vs.subrange(i as int + 1, j as int)),
            ] + vs.subrange(j as int + 1, vs.len() as int));
            assert(spec_fold(tokens_view(work@)) == spec_fold(tokens_view(tokens@)));
        }
    }
}

/// Scan one line of input into its token sequence.
///
/// The scan succeeds exactly when `spec_scan` does, and then returns exactly
/// the tokens that `spec_scan` names; otherwise it reports the first position
/// where no recognizer matches.
pub fn tokenize(input: &str) -> (r: Result<Vec<Token>, SyntaxError>)
    ensures
        match r {
            Ok(v) => spec_scan(input@, 0) == Ok::<Seq<TokenView>, int>(tokens_view(v@)),
            Err(e) => e matches SyntaxError::Unrecognized { pos } && spec_scan(input@, 0)
                == Err::<Seq<TokenView>, int>(pos as int),
        },
{
    let ghost s = input@;
    let n = input.unicode_len();
    let mut tokens: Vec<Token> = Vec::new();
    let mut pos: usize = 0;
    while pos < n
        invariant
            n as nat == s.len(),
            s == input@,
            pos <= n,
            spec_scan(s, 0) == prepend_tokens(tokens_view(tokens@), spec_scan(s, pos as int)),
        decreases n - pos,
    {
        let ghost old_tokens = tokens@;
        let ghost p = pos as int;
        let c = input.get_char(pos);
        if exec_is_number_char(c) {
            let e = find_number_run_end(input, pos);
            let text = input.substring_char(pos, e).to_owned();
            proof {
                lemma_tokens_view_push(old_tokens, Token::Number(text));
                lemma_prepend_shift(
                    tokens_view(old_tokens),
                    TokenView::Number(s.subrange(p, e as int)),
                    spec_scan(s, e as int),
                );
            }
            tokens.push(Token::Number(text));
            pos = e;
        } else if c == '"' {
            let q = match last_quote_index(input) {
                Some(q) => q,
                None => {
                    // The character at `pos` is itself a quote, so the text
                    // holds at least one.
                    proof {
                        lemma_last_quote_before(s, s.len() as int);
                    }
                    0
                },
            };
            proof {
                lemma_last_quote_before(s, s.len() as int);
                if (q as int) < p {
                    assert(s[p] != '"');
                }
            }
            let text = input.substring_char(pos, q + 1).to_owned();
            proof {
                lemma_tokens_view_push(old_tokens, Token::Str(text));
                lemma_prepend_shift(
                    tokens_view(old_tokens),
                    TokenView::Str(s.subrange(p, q + 1)),
                    spec_scan(s, q + 1),
                );
            }
            tokens.push(Token::Str(text));
            pos = q + 1;
        } else {
            match Operator::from_string(input, pos) {
                Some((op, len)) => {
                    proof {
                        lemma_tokens_view_push(old_tokens, Token::Operator(op));
                        lemma_prepend_shift(
                            tokens_view(old_tokens),
                            TokenView::Operator(op),
                            spec_scan(s, p + 1),
                        );
                    }
                    tokens.push(Token::Operator(op));
                    pos = pos + len;
                },
                None => {
                    match Function::from_string(input, pos) {
                        Some((f, len)) => {
                            proof {
                                lemma_tokens_view_push(old_tokens, Token::Function(f));
                                lemma_prepend_shift(
                                    tokens_view(old_tokens),
                                    TokenView::Function(f),
                                    spec_scan(s, p + len as int),
                                );
                            }
                            tokens.push(Token::Function(f));
                            pos = pos + len;
                        },
                        None => {
                            if c == ' ' || c == '\t' {
                                pos = pos + 1;
                            } else {
                                return Err(SyntaxError::Unrecognized { pos });
                            }
                        },
                    }
                },
            }
        }
    }
    Ok(tokens)
}

} // verus!
