//! Token types for the expression reader: the punctuation operators, the
//! function keywords, and the tagged token union that the tokenizer produces
//! and the shunting-yard converter consumes.

use vstd::prelude::*;
use vstd::string::StrSliceExecFns;

verus! {

/// A punctuation token: an arithmetic operator, a grouping symbol, or the
/// argument separator.
#[derive(Clone, Copy, PartialEq, Eq, Structural, Debug)]
pub enum Operator {
    Plus,
    Minus,
    Times,
    DividedBy,
    OpenParen,
    CloseParen,
    OpenBracket,
    CloseBracket,
    Comma,
}

/// A function keyword, or the synthetic `Wrap(n)` marker that only the
/// converter emits, meaning "collect the last `n` emitted values into one
/// array value".
#[derive(Clone, Copy, PartialEq, Eq, Structural, Debug)]
pub enum Function {
    Range,
    Floor,
    Ceil,
    Wrap(usize),
}

/// A lexical token. `Number` and `Str` keep the literal text they were read
/// from: a number as its digit-and-dot run, a string with its delimiting
/// quotes, so that both round-trip to the original source text.
#[derive(PartialEq, Eq, Debug)]
pub enum Token {
    Number(String),
    Str(String),
    Array(Vec<Token>),
    Operator(Operator),
    Function(Function),
}

/// The mathematical model of a `Token`: literal text becomes a sequence of
/// characters, and an array literal becomes the sequence of its elements'
/// models.
pub enum TokenView {
    Number(Seq<char>),
    Str(Seq<char>),
    Array(Seq<TokenView>),
    Operator(Operator),
    Function(Function),
}

/// The model of one token.
pub open spec fn token_view(t: Token) -> TokenView
    decreases t,
{
    match t {
        Token::Number(s) => TokenView::Number(s@),
        Token::Str(s) => TokenView::Str(s@),
        Token::Array(elems) => TokenView::Array(tokens_view(elems@)),
        Token::Operator(op) => TokenView::Operator(op),
        Token::Function(f) => TokenView::Function(f),
    }
}

/// The model of a token sequence, element by element.
pub open spec fn tokens_view(ts: Seq<Token>) -> Seq<TokenView>
    decreases ts,
{
    if ts.len() == 0 {
        Seq::empty()
    } else {
        seq![token_view(ts[0])] + tokens_view(ts.drop_first())
    }
}

/// `tokens_view` is the element-wise model: it keeps the length, and the
/// model of element `i` stands at position `i`.
pub proof fn lemma_tokens_view_index(ts: Seq<Token>)
    ensures
        tokens_view(ts).len() == ts.len(),
        forall|i: int| 0 <= i < ts.len() ==> tokens_view(ts)[i] == token_view(ts[i]),
    decreases ts.len(),
{
    if ts.len() > 0 {
        lemma_tokens_view_index(ts.drop_first());
        assert forall|i: int| 0 <= i < ts.len() implies tokens_view(ts)[i] == token_view(
            ts[i],
        ) by {
            if i > 0 {
                assert(tokens_view(ts)[i] == tokens_view(ts.drop_first())[i - 1]);
                assert(ts.drop_first()[i - 1] == ts[i]);
            }
        }
    }
}

/// The model of a token sequence grows element-wise under `push`.
pub proof fn lemma_tokens_view_push(ts: Seq<Token>, t: Token)
    ensures
        tokens_view(ts.push(t)) == tokens_view(ts).push(token_view(t)),
{
    lemma_tokens_view_index(ts.push(t));
    lemma_tokens_view_index(ts);
    assert(tokens_view(ts.push(t)) =~= tokens_view(ts).push(token_view(t)));
}

/// The model of a concatenation is the concatenation of the models.
pub proof fn lemma_tokens_view_concat(a: Seq<Token>, b: Seq<Token>)
    ensures
        tokens_view(a + b) == tokens_view(a) + tokens_view(b),
{
    lemma_tokens_view_index(a + b);
    lemma_tokens_view_index(a);
    lemma_tokens_view_index(b);
    assert(tokens_view(a + b) =~= tokens_view(a) + tokens_view(b));
}

/// The model of a subrange is the subrange of the model.
pub proof fn lemma_tokens_view_subrange(ts: Seq<Token>, a: int, b: int)
    requires
        0 <= a <= b <= ts.len(),
    ensures
        tokens_view(ts.subrange(a, b)) == tokens_view(ts).subrange(a, b),
{
    lemma_tokens_view_index(ts.subrange(a, b));
    lemma_tokens_view_index(ts);
    assert(tokens_view(ts.subrange(a, b)) =~= tokens_view(ts).subrange(a, b));
}

/// Dropping the last token drops the last element of the model, and the last
/// elements correspond.
pub proof fn lemma_tokens_view_drop_last(ts: Seq<Token>)
    requires
        ts.len() > 0,
    ensures
        tokens_view(ts.drop_last()) == tokens_view(ts).drop_last(),
        tokens_view(ts).last() == token_view(ts.last()),
{
    lemma_tokens_view_index(ts.drop_last());
    lemma_tokens_view_index(ts);
    assert(tokens_view(ts.drop_last()) =~= tokens_view(ts).drop_last());
}

/// The binding strength of an arithmetic operator; grouping symbols and the
/// comma bind not at all.
pub open spec fn spec_prec(op: Operator) -> u8 {
    match op {
        Operator::Plus => 1,
        Operator::Minus => 1,
        Operator::Times => 2,
        Operator::DividedBy => 2,
        _ => 0,
    }
}

/// The operator recognized at one character, if any.
pub open spec fn op_of_char(c: char) -> Option<Operator> {
    if c == '+' {
        Some(Operator::Plus)
    } else if c == '-' {
        Some(Operator::Minus)
    } else if c == '*' {
        Some(Operator::Times)
    } else if c == '/' {
        Some(Operator::DividedBy)
    } else if c == '(' {
        Some(Operator::OpenParen)
    } else if c == ')' {
        Some(Operator::CloseParen)
    } else if c == '[' {
        Some(Operator::OpenBracket)
    } else if c == ']' {
        Some(Operator::CloseBracket)
    } else if c == ',' {
        Some(Operator::Comma)
    } else {
        None
    }
}

/// What `Operator::from_string` recognizes at position `pos` of `s`: the
/// single-character operator there, consuming one character.
pub open spec fn op_from(s: Seq<char>, pos: int) -> Option<(Operator, usize)> {
    if 0 <= pos < s.len() {
        match op_of_char(s[pos]) {
            Some(op) => Some((op, 1usize)),
            None => None,
        }
    } else {
        None
    }
}

impl Operator {
    /// The precedence used by the converter: `*` and `/` bind tighter than
    /// `+` and `-`; everything else has no precedence.
    pub fn prec(&self) -> (p: u8)
        ensures
            p == spec_prec(*self),
    {
        match *self {
            Operator::Plus => 1,
            Operator::Minus => 1,
            Operator::Times => 2,
            Operator::DividedBy => 2,
            _ => 0,
        }
    }

    /// Recognize the one-character operator at position `pos` of `s`, with
    /// the number of characters consumed.
    pub fn from_string(s: &str, pos: usize) -> (r: Option<(Operator, usize)>)
        ensures
            r == op_from(s@, pos as int),
    {
        if pos >= s.unicode_len() {
            return None;
        }
        let c = s.get_char(pos);
        match c {
            '+' => Some((Operator::Plus, 1)),
            '-' => Some((Operator::Minus, 1)),
            '*' => Some((Operator::Times, 1)),
            '/' => Some((Operator::DividedBy, 1)),
            '(' => Some((Operator::OpenParen, 1)),
            ')' => Some((Operator::CloseParen, 1)),
            '[' => Some((Operator::OpenBracket, 1)),
            ']' => Some((Operator::CloseBracket, 1)),
            ',' => Some((Operator::Comma, 1)),
            _ => None,
        }
    }
}

/// What `Function::from_string` recognizes at position `pos` of `s`: one of
/// the fixed keywords, by exact prefix, with the number of characters it
/// consumes.
pub open spec fn func_from(s: Seq<char>, pos: int) -> Option<(Function, usize)> {
    if 0 <= pos && pos + 5 <= s.len() && s.subrange(pos, pos + 5) == seq!['r', 'a', 'n', 'g', 'e'] {
        Some((Function::Range, 5usize))
    } else if 0 <= pos && pos + 5 <= s.len() && s.subrange(pos, pos + 5) == seq![
        'f',
        'l',
        'o',
        'o',
        'r',
    ] {
        Some((Function::Floor, 5usize))
    } else if 0 <= pos && pos + 4 <= s.len() && s.subrange(pos, pos + 4) == seq!['c', 'e', 'i', 'l'] {
        Some((Function::Ceil, 4usize))
    } else {
        None
    }
}

impl Function {
    /// Recognize a function keyword at position `pos` of `s`, with the number
    /// of characters consumed.
    pub fn from_string(s: &str, pos: usize) -> (r: Option<(Function, usize)>)
        ensures
            r == func_from(s@, pos as int),
    {
        let n = s.unicode_len();
        if pos < n && n - pos >= 5 && s.get_char(pos) == 'r' && s.get_char(pos + 1) == 'a'
            && s.get_char(pos + 2) == 'n' && s.get_char(pos + 3) == 'g' && s.get_char(pos + 4)
            == 'e' {
            proof {
                assert(s@.subrange(pos as int, pos + 5) =~= seq!['r', 'a', 'n', 'g', 'e']);
            }
            Some((Function::Range, 5))
        } else if pos < n && n - pos >= 5 && s.get_char(pos) == 'f' && s.get_char(pos + 1) == 'l'
            && s.get_char(pos + 2) == 'o' && s.get_char(pos + 3) == 'o' && s.get_char(pos + 4)
            == 'r' {
            proof {
                assert(s@.subrange(pos as int, pos + 5) =~= seq!['f', 'l', 'o', 'o', 'r']);
                assert(s@.subrange(pos as int, pos + 5)[0] == 'f');
            }
            Some((Function::Floor, 5))
        } else if pos < n && n - pos >= 4 && s.get_char(pos) == 'c' && s.get_char(pos + 1) == 'e'
            && s.get_char(pos + 2) == 'i' && s.get_char(pos + 3) == 'l' {
            proof {
                assert(s@.subrange(pos as int, pos + 4) =~= seq!['c', 'e', 'i', 'l']);
                if pos + 5 <= s@.len() {
                    assert(s@.subrange(pos as int, pos + 5)[0] == 'c');
                }
            }
            Some((Function::Ceil, 4))
        } else {
            proof {
                if pos + 5 <= s@.len() {
                    assert(s@.subrange(pos as int, pos + 5)[0] == s@[pos as int]);
                    assert(s@.subrange(pos as int, pos + 5)[1] == s@[pos as int + 1]);
                    assert(s@.subrange(pos as int, pos + 5)[2] == s@[pos as int + 2]);
                    assert(s@.subrange(pos as int, pos + 5)[3] == s@[pos as int + 3]);
                    assert(s@.subrange(pos as int, pos + 5)[4] == s@[pos as int + 4]);
                }
                if pos + 4 <= s@.len() {
                    assert(s@.subrange(pos as int, pos + 4)[0] == s@[pos as int]);
                    assert(s@.subrange(pos as int, pos + 4)[1] == s@[pos as int + 1]);
                    assert(s@.subrange(pos as int, pos + 4)[2] == s@[pos as int + 2]);
                    assert(s@.subrange(pos as int, pos + 4)[3] == s@[pos as int + 3]);
                }
            }
            None
        }
    }
}

} // verus!
