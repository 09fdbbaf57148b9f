use shunting::render::render_tokens;
use shunting::token::{Function, Operator, Token};
use shunting::tokenizer::{fold_arrays, tokenize, SyntaxError};

fn num(s: &str) -> Token {
    Token::Number(s.to_string())
}

fn op(o: Operator) -> Token {
    Token::Operator(o)
}

#[test]
fn operator_precedences() {
    assert_eq!(Operator::Plus.prec(), 1);
    assert_eq!(Operator::Minus.prec(), 1);
    assert_eq!(Operator::Times.prec(), 2);
    assert_eq!(Operator::DividedBy.prec(), 2);
    assert_eq!(Operator::OpenParen.prec(), 0);
    assert_eq!(Operator::CloseParen.prec(), 0);
    assert_eq!(Operator::OpenBracket.prec(), 0);
    assert_eq!(Operator::CloseBracket.prec(), 0);
    assert_eq!(Operator::Comma.prec(), 0);
}

#[test]
fn operator_from_string_recognizes_each_symbol() {
    assert_eq!(Operator::from_string("+", 0), Some((Operator::Plus, 1)));
    assert_eq!(Operator::from_string("-", 0), Some((Operator::Minus, 1)));
    assert_eq!(Operator::from_string("*", 0), Some((Operator::Times, 1)));
    assert_eq!(Operator::from_string("/", 0), Some((Operator::DividedBy, 1)));
    assert_eq!(Operator::from_string("(", 0), Some((Operator::OpenParen, 1)));
    assert_eq!(Operator::from_string(")", 0), Some((Operator::CloseParen, 1)));
    assert_eq!(Operator::from_string("[", 0), Some((Operator::OpenBracket, 1)));
    assert_eq!(Operator::from_string("]", 0), Some((Operator::CloseBracket, 1)));
    assert_eq!(Operator::from_string(",", 0), Some((Operator::Comma, 1)));
    assert_eq!(Operator::from_string("x", 0), None);
    assert_eq!(Operator::from_string("1+2", 1), Some((Operator::Plus, 1)));
    assert_eq!(Operator::from_string("", 0), None);
}

#[test]
fn function_from_string_recognizes_each_keyword() {
    assert_eq!(Function::from_string("range", 0), Some((Function::Range, 5)));
    assert_eq!(Function::from_string("floor(2)", 0), Some((Function::Floor, 5)));
    assert_eq!(Function::from_string("ceil", 0), Some((Function::Ceil, 4)));
    assert_eq!(Function::from_string("1+ceil", 2), Some((Function::Ceil, 4)));
    assert_eq!(Function::from_string("rang", 0), None);
    assert_eq!(Function::from_string("cei", 0), None);
    assert_eq!(Function::from_string("", 0), None);
}

#[test]
fn operator_text_round_trips() {
    assert_eq!(Operator::Plus.to_string(), "+");
    assert_eq!(Operator::Minus.to_string(), "-");
    assert_eq!(Operator::Times.to_string(), "*");
    assert_eq!(Operator::DividedBy.to_string(), "/");
    assert_eq!(Operator::OpenParen.to_string(), "(");
    assert_eq!(Operator::CloseParen.to_string(), ")");
    assert_eq!(Operator::OpenBracket.to_string(), "[");
    assert_eq!(Operator::CloseBracket.to_string(), "]");
    assert_eq!(Operator::Comma.to_string(), ",");
}

#[test]
fn function_text_includes_wrap_count() {
    assert_eq!(Function::Range.to_string(), "range");
    assert_eq!(Function::Floor.to_string(), "floor");
    assert_eq!(Function::Ceil.to_string(), "ceil");
    assert_eq!(Function::Wrap(0).to_string(), "wrap<0>");
    assert_eq!(Function::Wrap(3).to_string(), "wrap<3>");
    assert_eq!(Function::Wrap(105).to_string(), "wrap<105>");
}

#[test]
fn token_text_matches_source_forms() {
    assert_eq!(num("12.5").to_string(), "12.5");
    assert_eq!(Token::Str("\"hi\"".to_string()).to_string(), "\"hi\"");
    assert_eq!(op(Operator::Times).to_string(), "*");
    assert_eq!(Token::Function(Function::Wrap(2)).to_string(), "wrap<2>");
    assert_eq!(Token::Array(vec![num("1"), num("2")]).to_string(), "[1, 2]");
    assert_eq!(Token::Array(vec![]).to_string(), "[]");
}

#[test]
fn str_value_strips_only_delimiting_quotes() {
    assert_eq!(
        Token::Str("\"a b\"".to_string()).str_value(),
        Some("a b".to_string())
    );
    assert_eq!(num("1").str_value(), None);
    assert_eq!(op(Operator::Plus).str_value(), None);
}

#[test]
fn render_whole_sequence_like_a_session() {
    let tokens = tokenize("3+4").unwrap();
    assert_eq!(render_tokens(&tokens), "[3, +, 4]");
    assert_eq!(render_tokens(&vec![]), "[]");
}

#[test]
fn folding_builds_an_array_token() {
    let tokens = tokenize("[1,2]").unwrap();
    let folded = fold_arrays(tokens).unwrap();
    assert_eq!(
        folded,
        vec![Token::Array(vec![num("1"), op(Operator::Comma), num("2")])]
    );
}

#[test]
fn folding_nests_innermost_first() {
    let tokens = tokenize("[1,[2],3]").unwrap();
    let folded = fold_arrays(tokens).unwrap();
    assert_eq!(
        folded,
        vec![Token::Array(vec![
            num("1"),
            op(Operator::Comma),
            Token::Array(vec![num("2")]),
            op(Operator::Comma),
            num("3"),
        ])]
    );
}

#[test]
fn folding_keeps_surrounding_tokens() {
    let tokens = tokenize("1+[2]").unwrap();
    let folded = fold_arrays(tokens).unwrap();
    assert_eq!(
        folded,
        vec![num("1"), op(Operator::Plus), Token::Array(vec![num("2")])]
    );
}

#[test]
fn folding_reports_an_unmatched_open_bracket() {
    let tokens = tokenize("[1").unwrap();
    assert_eq!(
        fold_arrays(tokens),
        Err(SyntaxError::UnmatchedBracket { index: 0 })
    );
}

#[test]
fn folding_leaves_a_lone_close_bracket() {
    // Only an open bracket without a closer fails the fold; a stray closer
    // is left for the converter to reject.
    let tokens = tokenize("]").unwrap();
    assert_eq!(fold_arrays(tokens).unwrap(), vec![op(Operator::CloseBracket)]);
}

#[test]
fn folded_arrays_render_bracketed() {
    let folded = fold_arrays(tokenize("[1,[2]]").unwrap()).unwrap();
    assert_eq!(folded[0].to_string(), "[1, ,, [2]]");
}
