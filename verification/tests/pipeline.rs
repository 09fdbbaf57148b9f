use shunting::converter::{convert, convert_strict, EvaluationError};
use shunting::token::{Function, Operator, Token};
use shunting::tokenizer::{tokenize, SyntaxError};

fn num(s: &str) -> Token {
    Token::Number(s.to_string())
}

fn op(o: Operator) -> Token {
    Token::Operator(o)
}

fn func(f: Function) -> Token {
    Token::Function(f)
}

fn rpn_of(input: &str) -> Vec<Token> {
    convert(&tokenize(input).unwrap()).unwrap()
}

#[test]
fn decimal_literal_is_one_number_token() {
    let tokens = tokenize("12.5").unwrap();
    assert_eq!(tokens, vec![num("12.5")]);
}

#[test]
fn quoted_string_is_one_str_token() {
    let tokens = tokenize("\"foo\"").unwrap();
    assert_eq!(tokens, vec![Token::Str("\"foo\"".to_string())]);
    assert_eq!(tokens[0].str_value(), Some("foo".to_string()));
    assert_eq!(tokens[0].to_string(), "\"foo\"".to_string());
}

#[test]
fn multiplication_binds_tighter() {
    assert_eq!(
        rpn_of("3+4*2"),
        vec![num("3"), num("4"), num("2"), op(Operator::Times), op(Operator::Plus)]
    );
}

#[test]
fn parens_override_precedence() {
    assert_eq!(
        rpn_of("(3+4)*2"),
        vec![num("3"), num("4"), op(Operator::Plus), num("2"), op(Operator::Times)]
    );
}

#[test]
fn function_attaches_after_its_argument() {
    assert_eq!(rpn_of("floor(3.7)"), vec![num("3.7"), func(Function::Floor)]);
}

#[test]
fn array_collapses_to_values_plus_wrap() {
    assert_eq!(
        rpn_of("[1,2,3]"),
        vec![num("1"), num("2"), num("3"), func(Function::Wrap(3))]
    );
}

#[test]
fn equal_precedence_pops_left_to_right() {
    assert_eq!(
        rpn_of("8-2-3"),
        vec![num("8"), num("2"), op(Operator::Minus), num("3"), op(Operator::Minus)]
    );
}

#[test]
fn division_and_addition_mix() {
    assert_eq!(
        rpn_of("2*3+4"),
        vec![num("2"), num("3"), op(Operator::Times), num("4"), op(Operator::Plus)]
    );
}

#[test]
fn function_inside_expression() {
    assert_eq!(
        rpn_of("1+floor(2.5)"),
        vec![num("1"), num("2.5"), func(Function::Floor), op(Operator::Plus)]
    );
}

#[test]
fn function_arguments_flatten_before_keyword() {
    assert_eq!(rpn_of("range(1,5)"), vec![num("1"), num("5"), func(Function::Range)]);
}

#[test]
fn array_elements_count_emitted_items() {
    // The two elements `1+2` and `3` emit four RPN items in all, so the
    // collect marker is wrap<4>.
    assert_eq!(
        rpn_of("[1+2,3]"),
        vec![num("1"), num("2"), op(Operator::Plus), num("3"), func(Function::Wrap(4))]
    );
}

#[test]
fn nested_brackets_emit_nested_wraps() {
    assert_eq!(
        rpn_of("[[1]]"),
        vec![num("1"), func(Function::Wrap(1)), func(Function::Wrap(1))]
    );
}

#[test]
fn whitespace_is_skipped() {
    assert_eq!(tokenize("1 +\t2").unwrap(), vec![num("1"), op(Operator::Plus), num("2")]);
}

#[test]
fn empty_input_yields_empty_sequences() {
    assert_eq!(tokenize("").unwrap(), vec![]);
    assert_eq!(convert(&vec![]).unwrap(), vec![]);
}

#[test]
fn open_grouping_is_closed_implicitly_at_end_of_input() {
    // A grouping left open at end of input is drained, opener and all, into
    // the output instead of being rejected.
    assert_eq!(
        rpn_of("(1+2"),
        vec![num("1"), num("2"), op(Operator::Plus), op(Operator::OpenParen)]
    );
}

#[test]
fn lone_close_paren_is_rejected() {
    assert_eq!(
        convert(&tokenize(")").unwrap()),
        Err(EvaluationError::MismatchedParens)
    );
}

#[test]
fn lone_close_bracket_is_rejected() {
    assert_eq!(
        convert(&tokenize("]").unwrap()),
        Err(EvaluationError::MismatchedBracket)
    );
}

#[test]
fn comma_outside_any_grouping_is_rejected() {
    assert_eq!(
        convert(&tokenize("1,2").unwrap()),
        Err(EvaluationError::MisplacedComma)
    );
}

#[test]
fn close_paren_over_open_bracket_is_rejected() {
    assert_eq!(
        convert(&tokenize("[1)").unwrap()),
        Err(EvaluationError::MismatchedParens)
    );
}

#[test]
fn prefolded_array_input_is_a_distinct_error() {
    let tokens = vec![Token::Array(vec![num("1")])];
    assert_eq!(convert(&tokens), Err(EvaluationError::ArrayInInput));
}

#[test]
fn unrecognized_character_names_its_position() {
    assert_eq!(tokenize("@"), Err(SyntaxError::Unrecognized { pos: 0 }));
    assert_eq!(tokenize("1 + x"), Err(SyntaxError::Unrecognized { pos: 4 }));
}

#[test]
fn multiple_decimal_points_are_accepted_laxly() {
    // The scan takes a maximal run of digits and points without insisting on
    // a single well-placed point.
    assert_eq!(tokenize("1.2.3").unwrap(), vec![num("1.2.3")]);
    assert_eq!(tokenize(".5").unwrap(), vec![num(".5")]);
}

#[test]
fn string_scan_takes_the_last_quote() {
    // A known limitation kept on purpose: the literal extends to the last
    // quote anywhere in the remaining input, so two quoted strings on one
    // line become a single token.
    assert_eq!(
        tokenize("\"a\" \"b\"").unwrap(),
        vec![Token::Str("\"a\" \"b\"".to_string())]
    );
}

#[test]
fn same_input_same_output() {
    let a = tokenize("(3+4)*[1,2]").unwrap();
    let b = tokenize("(3+4)*[1,2]").unwrap();
    assert_eq!(a, b);
    assert_eq!(convert(&a).unwrap(), convert(&b).unwrap());
}

#[test]
fn strict_policy_rejects_pending_groupings() {
    assert_eq!(
        convert_strict(&tokenize("(1+2").unwrap()),
        Err(EvaluationError::UnclosedGrouping)
    );
    assert_eq!(
        convert_strict(&tokenize("[1").unwrap()),
        Err(EvaluationError::UnclosedGrouping)
    );
    assert_eq!(
        convert_strict(&tokenize(")").unwrap()),
        Err(EvaluationError::MismatchedParens)
    );
}

#[test]
fn strict_policy_agrees_on_closed_inputs() {
    let tokens = tokenize("3+4*2").unwrap();
    assert_eq!(convert_strict(&tokens), convert(&tokens));
    let grouped = tokenize("(3+4)*[1,2]").unwrap();
    assert_eq!(convert_strict(&grouped), convert(&grouped));
    // Pending operators are no grouping: they drain under both policies.
    let pending = tokenize("1+").unwrap();
    assert_eq!(convert_strict(&pending), convert(&pending));
}

#[test]
fn well_formed_mixed_groupings_convert() {
    assert_eq!(
        rpn_of("(1+2)*[3,4]"),
        vec![
            num("1"),
            num("2"),
            op(Operator::Plus),
            num("3"),
            num("4"),
            func(Function::Wrap(2)),
            op(Operator::Times),
        ]
    );
}
