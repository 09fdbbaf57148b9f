//! Canonical text for tokens: the operator symbols, the function keywords,
//! the `wrap<n>` marker, and a bracketed rendering of array literals — the
//! compute part of displaying a token; printing itself is a caller's affair.

use vstd::prelude::*;
use vstd::string::{StrSliceExecFns, StringExecFns};

use crate::token::{token_view, tokens_view, Function, Operator, Token, TokenView};

verus! {

/// The canonical one-character text of an operator.
pub open spec fn op_symbol(op: Operator) -> Seq<char> {
    match op {
        Operator::Plus => seq!['+'],
        Operator::Minus => seq!['-'],
        Operator::Times => seq!['*'],
        Operator::DividedBy => seq!['/'],
        Operator::OpenParen => seq!['('],
        Operator::CloseParen => seq![')'],
        Operator::OpenBracket => seq!['['],
        Operator::CloseBracket => seq![']'],
        Operator::Comma => seq![','],
    }
}

/// The character of one decimal digit.
pub open spec fn digit_char(d: int) -> char {
    if d == 0 {
        '0'
    } else if d == 1 {
        '1'
    } else if d == 2 {
        '2'
    } else if d == 3 {
        '3'
    } else if d == 4 {
        '4'
    } else if d == 5 {
        '5'
    } else if d == 6 {
        '6'
    } else if d == 7 {
        '7'
    } else if d == 8 {
        '8'
    } else {
        '9'
    }
}

/// The decimal digits of a number, most significant first.
pub open spec fn spec_digits(n: int) -> Seq<char>
    decreases n,
{
    if n < 10 {
        seq![digit_char(n)]
    } else {
        spec_digits(n / 10).push(digit_char(n % 10))
    }
}

/// The canonical text of a function keyword or a `Wrap` marker.
pub open spec fn func_text(f: Function) -> Seq<char> {
    match f {
        Function::Range => seq!['r', 'a', 'n', 'g', 'e'],
        Function::Floor => seq!['f', 'l', 'o', 'o', 'r'],
        Function::Ceil => seq!['c', 'e', 'i', 'l'],
        Function::Wrap(n) => seq!['w', 'r', 'a', 'p', '<'] + spec_digits(n as int) + seq!['>'],
    }
}

/// The canonical text of one token: literal text for numbers and strings,
/// the symbol or keyword for operators and functions, and a bracketed
/// comma-separated rendering for an array literal.
pub open spec fn token_text(t: TokenView) -> Seq<char>
    decreases t,
{
    match t {
        TokenView::Number(s) => s,
        TokenView::Str(s) => s,
        TokenView::Array(elems) => seq!['['] + items_text(elems) + seq![']'],
        TokenView::Operator(op) => op_symbol(op),
        TokenView::Function(f) => func_text(f),
    }
}

/// The texts of a run of tokens, separated by comma and space.
pub open spec fn items_text(ts: Seq<TokenView>) -> Seq<char>
    decreases ts,
{
    if ts.len() == 0 {
        Seq::empty()
    } else if ts.len() == 1 {
        token_text(ts[0])
    } else {
        token_text(ts[0]) + seq![',', ' '] + items_text(ts.drop_first())
    }
}

/// A string literal's value: the text with its delimiting quotes stripped.
pub open spec fn strip_quotes(s: Seq<char>) -> Seq<char> {
    if s.len() >= 2 && s[0] == '"' && s[s.len() - 1] == '"' {
        s.subrange(1, s.len() - 1)
    } else {
        s
    }
}

/// The text of one decimal digit.
fn digit_string(d: usize) -> (r: String)
    requires
        d < 10,
    ensures
        r@ == seq![digit_char(d as int)],
{
    match d {
        0 => {
            proof {
                reveal_strlit("0");
                assert("0"@ =~= seq![digit_char(0)]);
            }
            "0".to_owned()
        },
        1 => {
            proof {
                reveal_strlit("1");
                assert("1"@ =~= seq![digit_char(1)]);
            }
            "1".to_owned()
        },
        2 => {
            proof {
                reveal_strlit("2");
                assert("2"@ =~= seq![digit_char(2)]);
            }
            "2".to_owned()
        },
        3 => {
            proof {
                reveal_strlit("3");
                assert("3"@ =~= seq![digit_char(3)]);
            }
            "3".to_owned()
        },
        4 => {
            proof {
                reveal_strlit("4");
                assert("4"@ =~= seq![digit_char(4)]);
            }
            "4".to_owned()
        },
        5 => {
            proof {
                reveal_strlit("5");
                assert("5"@ =~= seq![digit_char(5)]);
            }
            "5".to_owned()
        },
        6 => {
            proof {
                reveal_strlit("6");
                assert("6"@ =~= seq![digit_char(6)]);
            }
            "6".to_owned()
        },
        7 => {
            proof {
                reveal_strlit("7");
                assert("7"@ =~= seq![digit_char(7)]);
            }
            "7".to_owned()
        },
        8 => {
            proof {
                reveal_strlit("8");
                assert("8"@ =~= seq![digit_char(8)]);
            }
            "8".to_owned()
        },
        _ => {
            proof {
                reveal_strlit("9");
                assert("9"@ =~= seq![digit_char(9)]);
            }
            "9".to_owned()
        },
    }
}

/// The decimal text of a number.
fn digits_string(n: usize) -> (r: String)
    ensures
        r@ == spec_digits(n as int),
    decreases n,
{
    if n < 10 {
        digit_string(n)
    } else {
        let mut s = digits_string(n / 10);
        let d = digit_string(n % 10);
        s.append(d.as_str());
        proof {
            assert(spec_digits(n as int) =~= spec_digits(n as int / 10) + seq![
                digit_char(n as int % 10),
            ]);
        }
        s
    }
}

/// Appending one more token extends the comma-separated text on the right.
proof fn lemma_items_text_snoc(ts: Seq<TokenView>, t: TokenView)
    ensures
        items_text(ts.push(t)) == if ts.len() == 0 {
            token_text(t)
        } else {
            items_text(ts) + seq![',', ' '] + token_text(t)
        },
    decreases ts.len(),
{
    let e = ts.push(t);
    if ts.len() == 0 {
        assert(e[0] == t);
    } else if ts.len() == 1 {
        assert(e.drop_first() =~= seq![t]);
        assert(seq![t][0] == t);
        assert(items_text(seq![t]) == token_text(t));
        assert(items_text(e) == token_text(e[0]) + seq![',', ' '] + items_text(e.drop_first()));
        assert(e[0] == ts[0]);
        assert(items_text(ts) == token_text(ts[0]));
    } else {
        assert(e.drop_first() =~= ts.drop_first().push(t));
        lemma_items_text_snoc(ts.drop_first(), t);
        assert(items_text(e) =~= items_text(ts) + seq![',', ' '] + token_text(t));
    }
}

/// The bracketed, comma-separated text of a token sequence, as a session
/// displays a tokenizer's or the converter's output.
pub fn render_tokens(tokens: &Vec<Token>) -> (r: String)
    ensures
        r@ == seq!['['] + items_text(tokens_view(tokens@)) + seq![']'],
    decreases *tokens,
{
    let ghost vs = tokens_view(tokens@);
    proof {
        crate::token::lemma_tokens_view_index(tokens@);
        reveal_strlit("[");
        reveal_strlit("]");
        reveal_strlit(", ");
        assert("["@ =~= seq!['[']);
        assert("]"@ =~= seq![']']);
        assert(", "@ =~= seq![',', ' ']);
    }
    let mut s = "[".to_owned();
    let n = tokens.len();
    let mut i: usize = 0;
    proof {
        assert(vs.take(0) =~= Seq::<TokenView>::empty());
        assert(s@ =~= seq!['['] + items_text(vs.take(0)));
    }
    while i < n
        invariant
            i <= n,
            n == tokens@.len(),
            vs == tokens_view(tokens@),
            vs.len() == n,
            forall|k: int| 0 <= k < n ==> vs[k] == token_view(tokens@[k]),
            s@ == seq!['['] + items_text(vs.take(i as int)),
            "["@ == seq!['['],
            "]"@ == seq![']'],
            ", "@ == seq![',', ' '],
        decreases n - i,
    {
        let e = &tokens[i];
        proof {
            assert(decreases_to!(*tokens => tokens@[i as int]));
        }
        let es = e.to_string();
        if i > 0 {
            s.append(", ");
        }
        s.append(es.as_str());
        proof {
            lemma_items_text_snoc(vs.take(i as int), vs[i as int]);
            assert(vs.take(i as int + 1) =~= vs.take(i as int).push(vs[i as int]));
            assert(s@ =~= seq!['['] + items_text(vs.take(i as int + 1)));
        }
        i = i + 1;
    }
    s.append("]");
    proof {
        assert(vs.take(n as int) =~= vs);
        assert(s@ =~= seq!['['] + items_text(vs) + seq![']']);
    }
    s
}

impl Token {
    /// The canonical text of this token: the literal text of a number or
    /// string, the symbol of an operator, the keyword of a function, a
    /// bracketed rendering of an array.
    pub fn to_string(&self) -> (r: String)
        ensures
            r@ == token_text(token_view(*self)),
        decreases *self,
    {
        match self {
            Token::Number(s) => s.clone(),
            Token::Str(s) => s.clone(),
            Token::Array(elems) => {
                proof {
                    assert(decreases_to!(*self => *elems));
                }
                render_tokens(elems)
            },
            Token::Operator(op) => op.to_string(),
            Token::Function(f) => f.to_string(),
        }
    }

    /// The value of a string literal token: its text with the delimiting
    /// quotes stripped. Any other token has no string value.
    pub fn str_value(&self) -> (r: Option<String>)
        ensures
            match *self {
                Token::Str(s) => r matches Some(v) && v@ == strip_quotes(s@),
                _ => r is None,
            },
    {
        match self {
            Token::Str(s) => {
                let n = s.as_str().unicode_len();
                if n >= 2 && s.as_str().get_char(0) == '"' && s.as_str().get_char(n - 1) == '"' {
                    Some(s.as_str().substring_char(1, n - 1).to_owned())
                } else {
                    Some(s.clone())
                }
            },
            _ => None,
        }
    }
}

impl Operator {
    /// The canonical one-character text of this operator.
    pub fn to_string(&self) -> (r: String)
        ensures
            r@ == op_symbol(*self),
    {
        match *self {
            Operator::Plus => {
                proof {
                    reveal_strlit("+");
                    assert("+"@ =~= seq!['+']);
                }
                "+".to_owned()
            },
            Operator::Minus => {
                proof {
                    reveal_strlit("-");
                    assert("-"@ =~= seq!['-']);
                }
                "-".to_owned()
            },
            Operator::Times => {
                proof {
                    reveal_strlit("*");
                    assert("*"@ =~= seq!['*']);
                }
                "*".to_owned()
            },
            Operator::DividedBy => {
                proof {
                    reveal_strlit("/");
                    assert("/"@ =~= seq!['/']);
                }
                "/".to_owned()
            },
            Operator::OpenParen => {
                proof {
                    reveal_strlit("(");
                    assert("("@ =~= seq!['(']);
                }
                "(".to_owned()
            },
            Operator::CloseParen => {
                proof {
                    reveal_strlit(")");
                    assert(")"@ =~= seq![')']);
                }
                ")".to_owned()
            },
            Operator::OpenBracket => {
                proof {
                    reveal_strlit("[");
                    assert("["@ =~= seq!['[']);
                }
                "[".to_owned()
            },
            Operator::CloseBracket => {
                proof {
                    reveal_strlit("]");
                    assert("]"@ =~= seq![']']);
                }
                "]".to_owned()
            },
            Operator::Comma => {
                proof {
                    reveal_strlit(",");
                    assert(","@ =~= seq![',']);
                }
                ",".to_owned()
            },
        }
    }
}

impl Function {
    /// The canonical text of this function keyword, or `wrap<n>` for the
    /// synthetic marker.
    pub fn to_string(&self) -> (r: String)
        ensures
            r@ == func_text(*self),
    {
        match *self {
            Function::Range => {
                proof {
                    reveal_strlit("range");
                    assert("range"@ =~= seq!['r', 'a', 'n', 'g', 'e']);
                }
                "range".to_owned()
            },
            Function::Floor => {
                proof {
                    reveal_strlit("floor");
                    assert("floor"@ =~= seq!['f', 'l', 'o', 'o', 'r']);
                }
                "floor".to_owned()
            },
            Function::Ceil => {
                proof {
                    reveal_strlit("ceil");
                    assert("ceil"@ =~= seq!['c', 'e', 'i', 'l']);
                }
                "ceil".to_owned()
            },
            Function::Wrap(n) => {
                proof {
                    reveal_strlit("wrap<");
                    reveal_strlit(">");
                    assert("wrap<"@ =~= seq!['w', 'r', 'a', 'p', '<']);
                    assert(">"@ =~= seq!['>']);
                }
                let mut s = "wrap<".to_owned();
                let ds = digits_string(n);
                s.append(ds.as_str());
                s.append(">");
                proof {
                    assert(s@ =~= func_text(Function::Wrap(n)));
                }
                s
            },
        }
    }
}

} // verus!
