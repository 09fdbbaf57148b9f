//! Structural laws of the converter: the conversion succeeds exactly on the
//! token sequences whose closers and commas all find a pending opener, so a
//! well-formed input is never rejected and an input with an unmatched
//! closer or a stray comma never yields a partial RPN sequence.

use vstd::prelude::*;

use crate::converter::{
    conv_run, conv_step, drain, init_state, is_open_bracket, is_open_paren, is_opener,
    pop_ge_prec, pop_to_bracket, pop_to_opener, pop_to_paren, spec_convert, spec_convert_strict,
    ConvState, EvaluationError,
};
use crate::token::{func_from, op_of_char, spec_prec, Function, Operator, TokenView};
use crate::tokenizer::{
    is_number_char, last_quote_before, lemma_last_quote_before, lemma_number_run_end,
    number_run_end, spec_scan,
};

verus! {

/// The grouping symbol an opener token stands for.
pub open spec fn opener_sym(t: TokenView) -> Operator {
    if is_open_paren(t) {
        Operator::OpenParen
    } else {
        Operator::OpenBracket
    }
}

/// The grouping symbols among the pending stack entries, in stack order.
pub open spec fn openers_of(ops: Seq<TokenView>) -> Seq<Operator>
    decreases ops.len(),
{
    if ops.len() == 0 {
        Seq::empty()
    } else if is_opener(ops.last()) {
        openers_of(ops.drop_last()).push(opener_sym(ops.last()))
    } else {
        openers_of(ops.drop_last())
    }
}

/// The index of the topmost stack entry equal to the operator token `w`, or
/// `-1` if there is none.
pub open spec fn last_match(ops: Seq<TokenView>, w: Operator) -> int
    decreases ops.len(),
{
    if ops.len() == 0 {
        -1
    } else if ops.last() == TokenView::Operator(w) {
        ops.len() - 1
    } else {
        last_match(ops.drop_last(), w)
    }
}

/// The index of the topmost opener on the stack, or `-1` if there is none.
pub open spec fn last_opener(ops: Seq<TokenView>) -> int
    decreases ops.len(),
{
    if ops.len() == 0 {
        -1
    } else if is_opener(ops.last()) {
        ops.len() - 1
    } else {
        last_opener(ops.drop_last())
    }
}

/// The index of the topmost grouping symbol equal to `w`, or `-1`.
pub open spec fn last_sym(g: Seq<Operator>, w: Operator) -> int
    decreases g.len(),
{
    if g.len() == 0 {
        -1
    } else if g.last() == w {
        g.len() - 1
    } else {
        last_sym(g.drop_last(), w)
    }
}

/// How one token changes the pending grouping symbols, by the converter's
/// own lenient matching discipline: an opener is remembered; a `)` closes
/// the topmost pending `(` and discards any openers above it; a `]` does the
/// same with the topmost `[`; a `,` merely needs some pending opener; a
/// pre-folded `Array` token is refused outright; every other token leaves
/// the groupings alone. `None` marks the failures the converter reports.
pub open spec fn grouping_step(g: Seq<Operator>, t: TokenView) -> Option<Seq<Operator>> {
    match t {
        TokenView::Array(_) => None,
        TokenView::Operator(op) => match op {
            Operator::OpenParen => Some(g.push(Operator::OpenParen)),
            Operator::OpenBracket => Some(g.push(Operator::OpenBracket)),
            Operator::CloseParen => {
                let m = last_sym(g, Operator::OpenParen);
                if m < 0 {
                    None
                } else {
                    Some(g.take(m))
                }
            },
            Operator::CloseBracket => {
                let m = last_sym(g, Operator::OpenBracket);
                if m < 0 {
                    None
                } else {
                    Some(g.take(m))
                }
            },
            Operator::Comma => if g.len() == 0 {
                None
            } else {
                Some(g)
            },
            _ => Some(g),
        },
        _ => Some(g),
    }
}

/// Run the grouping discipline over the tokens from position `i` on.
pub open spec fn grouping_run(ts: Seq<TokenView>, i: int, g: Seq<Operator>) -> Option<Seq<Operator>>
    decreases ts.len() - i,
{
    if i < 0 || i >= ts.len() {
        Some(g)
    } else {
        match grouping_step(g, ts[i]) {
            Some(g2) => grouping_run(ts, i + 1, g2),
            None => None,
        }
    }
}

/// Every `)`, `]` and `,` in the sequence finds its opener, and no
/// pre-folded `Array` token appears. Openers left unclosed at the end are
/// allowed: the converter closes them implicitly at end of input.
pub open spec fn groupings_matched(ts: Seq<TokenView>) -> bool {
    grouping_run(ts, 0, Seq::empty()) is Some
}

/// How one token changes the pending grouping symbols under strict proper
/// nesting: a closer must match the topmost opener exactly, and a comma
/// needs an open grouping.
pub open spec fn nested_step(g: Seq<Operator>, t: TokenView) -> Option<Seq<Operator>> {
    match t {
        TokenView::Array(_) => None,
        TokenView::Operator(op) => match op {
            Operator::OpenParen => Some(g.push(Operator::OpenParen)),
            Operator::OpenBracket => Some(g.push(Operator::OpenBracket)),
            Operator::CloseParen => if g.len() > 0 && g.last() == Operator::OpenParen {
                Some(g.drop_last())
            } else {
                None
            },
            Operator::CloseBracket => if g.len() > 0 && g.last() == Operator::OpenBracket {
                Some(g.drop_last())
            } else {
                None
            },
            Operator::Comma => if g.len() == 0 {
                None
            } else {
                Some(g)
            },
            _ => Some(g),
        },
        _ => Some(g),
    }
}

/// Run the strict nesting discipline over the tokens from position `i` on.
pub open spec fn nested_run(ts: Seq<TokenView>, i: int, g: Seq<Operator>) -> Option<Seq<Operator>>
    decreases ts.len() - i,
{
    if i < 0 || i >= ts.len() {
        Some(g)
    } else {
        match nested_step(g, ts[i]) {
            Some(g2) => nested_run(ts, i + 1, g2),
            None => None,
        }
    }
}

/// A well-formed token sequence: parens and brackets properly nested, every
/// comma inside some grouping, no pre-folded `Array` token. Groupings left
/// open at end of input are allowed.
pub open spec fn well_grouped(ts: Seq<TokenView>) -> bool {
    nested_run(ts, 0, Seq::empty()) is Some
}

/// Pushing one entry extends the grouping symbols exactly when the entry is
/// an opener.
proof fn lemma_openers_push(ops: Seq<TokenView>, t: TokenView)
    ensures
        openers_of(ops.push(t)) == if is_opener(t) {
            openers_of(ops).push(opener_sym(t))
        } else {
            openers_of(ops)
        },
{
    assert(ops.push(t).drop_last() =~= ops);
    assert(ops.push(t).last() == t);
}

/// What popping to an `OpenParen` does to the stack: it succeeds exactly
/// when some `OpenParen` is pending, and then cuts the stack back to just
/// below the topmost one.
proof fn lemma_pop_to_paren_char(rpn: Seq<TokenView>, ops: Seq<TokenView>)
    ensures
        match pop_to_paren(rpn, ops) {
            Ok(ro) => 0 <= last_match(ops, Operator::OpenParen) < ops.len() && ro.1 == ops.take(
                last_match(ops, Operator::OpenParen),
            ),
            Err(e) => last_match(ops, Operator::OpenParen) < 0 && e
                == EvaluationError::MismatchedParens,
        },
    decreases ops.len(),
{
    if ops.len() == 0 {
    } else if is_open_paren(ops.last()) {
        assert(ops.last() == TokenView::Operator(Operator::OpenParen));
        assert(ops.take(ops.len() - 1) =~= ops.drop_last());
    } else {
        assert(ops.last() != TokenView::Operator(Operator::OpenParen));
        lemma_pop_to_paren_char(rpn.push(ops.last()), ops.drop_last());
        let k = last_match(ops.drop_last(), Operator::OpenParen);
        if 0 <= k {
            assert(ops.take(k) =~= ops.drop_last().take(k));
        }
    }
}

/// What popping to an `OpenBracket` does to the stack, likewise.
proof fn lemma_pop_to_bracket_char(rpn: Seq<TokenView>, ops: Seq<TokenView>)
    ensures
        match pop_to_bracket(rpn, ops) {
            Ok(ro) => 0 <= last_match(ops, Operator::OpenBracket) < ops.len() && ro.1 == ops.take(
                last_match(ops, Operator::OpenBracket),
            ),
            Err(e) => last_match(ops, Operator::OpenBracket) < 0 && e
                == EvaluationError::MismatchedBracket,
        },
    decreases ops.len(),
{
    if ops.len() == 0 {
    } else if is_open_bracket(ops.last()) {
        assert(ops.last() == TokenView::Operator(Operator::OpenBracket));
        assert(ops.take(ops.len() - 1) =~= ops.drop_last());
    } else {
        assert(ops.last() != TokenView::Operator(Operator::OpenBracket));
        lemma_pop_to_bracket_char(rpn.push(ops.last()), ops.drop_last());
        let k = last_match(ops.drop_last(), Operator::OpenBracket);
        if 0 <= k {
            assert(ops.take(k) =~= ops.drop_last().take(k));
        }
    }
}

/// What popping to any opener does to the stack: it succeeds exactly when
/// some opener is pending, and then cuts the stack back to end at the
/// topmost one, which stays.
proof fn lemma_pop_to_opener_char(rpn: Seq<TokenView>, ops: Seq<TokenView>)
    ensures
        match pop_to_opener(rpn, ops) {
            Ok(ro) => 0 <= last_opener(ops) < ops.len() && ro.1 == ops.take(last_opener(ops) + 1),
            Err(e) => last_opener(ops) < 0 && e == EvaluationError::MisplacedComma,
        },
    decreases ops.len(),
{
    if ops.len() == 0 {
    } else if is_opener(ops.last()) {
        assert(ops.take(ops.len() as int) =~= ops);
    } else {
        lemma_pop_to_opener_char(rpn.push(ops.last()), ops.drop_last());
        let k = last_opener(ops.drop_last());
        if 0 <= k {
            assert(ops.take(k + 1) =~= ops.drop_last().take(k + 1));
        }
    }
}

/// Popping by precedence never pops an opener or a function, so it leaves
/// the grouping symbols alone.
proof fn lemma_pop_ge_prec_openers(rpn: Seq<TokenView>, ops: Seq<TokenView>, p: u8)
    requires
        p >= 1,
    ensures
        openers_of(pop_ge_prec(rpn, ops, p).1) == openers_of(ops),
    decreases ops.len(),
{
    if ops.len() > 0 {
        match ops.last() {
            TokenView::Operator(o2) => {
                if p <= spec_prec(o2) {
                    assert(!is_opener(ops.last()));
                    lemma_pop_ge_prec_openers(rpn.push(ops.last()), ops.drop_last(), p);
                }
            },
            _ => {},
        }
    }
}

/// The topmost `OpenParen` on the stack and the topmost `(` among the
/// grouping symbols exist together, and cutting the stack back to the former
/// cuts the symbols back to the latter.
proof fn lemma_cut_paren_openers(ops: Seq<TokenView>)
    ensures
        (last_match(ops, Operator::OpenParen) >= 0 <==> last_sym(
            openers_of(ops),
            Operator::OpenParen,
        ) >= 0),
        last_match(ops, Operator::OpenParen) >= 0 ==> openers_of(
            ops.take(last_match(ops, Operator::OpenParen)),
        ) == openers_of(ops).take(last_sym(openers_of(ops), Operator::OpenParen)),
        last_sym(openers_of(ops), Operator::OpenParen) < openers_of(ops).len(),
        last_match(ops, Operator::OpenParen) < ops.len(),
    decreases ops.len(),
{
    let g = openers_of(ops);
    if ops.len() == 0 {
    } else {
        let d = ops.drop_last();
        lemma_cut_paren_openers(d);
        let gd = openers_of(d);
        if ops.last() == TokenView::Operator(Operator::OpenParen) {
            assert(is_opener(ops.last()));
            assert(g == gd.push(Operator::OpenParen));
            assert(g.last() == Operator::OpenParen);
            assert(last_sym(g, Operator::OpenParen) == g.len() - 1);
            assert(ops.take(ops.len() - 1) =~= d);
            assert(g.take(g.len() - 1) =~= gd);
        } else if is_opener(ops.last()) {
            assert(g == gd.push(Operator::OpenBracket));
            assert(g.last() != Operator::OpenParen);
            assert(g.drop_last() =~= gd);
            let k = last_match(d, Operator::OpenParen);
            let m = last_sym(gd, Operator::OpenParen);
            assert(last_match(ops, Operator::OpenParen) == k);
            assert(last_sym(g, Operator::OpenParen) == m);
            if k >= 0 {
                assert(ops.take(k) =~= d.take(k));
                assert(m < gd.len());
                assert(g.take(m) =~= gd.take(m));
            }
        } else {
            assert(g == gd);
            let k = last_match(d, Operator::OpenParen);
            assert(last_match(ops, Operator::OpenParen) == k);
            if k >= 0 {
                assert(ops.take(k) =~= d.take(k));
            }
        }
    }
}

/// The same correspondence for the topmost `OpenBracket` and `[`.
proof fn lemma_cut_bracket_openers(ops: Seq<TokenView>)
    ensures
        (last_match(ops, Operator::OpenBracket) >= 0 <==> last_sym(
            openers_of(ops),
            Operator::OpenBracket,
        ) >= 0),
        last_match(ops, Operator::OpenBracket) >= 0 ==> openers_of(
            ops.take(last_match(ops, Operator::OpenBracket)),
        ) == openers_of(ops).take(last_sym(openers_of(ops), Operator::OpenBracket)),
        last_sym(openers_of(ops), Operator::OpenBracket) < openers_of(ops).len(),
        last_match(ops, Operator::OpenBracket) < ops.len(),
    decreases ops.len(),
{
    let g = openers_of(ops);
    if ops.len() == 0 {
    } else {
        let d = ops.drop_last();
        lemma_cut_bracket_openers(d);
        let gd = openers_of(d);
        if ops.last() == TokenView::Operator(Operator::OpenBracket) {
            assert(is_opener(ops.last()));
            assert(g == gd.push(Operator::OpenBracket));
            assert(last_sym(g, Operator::OpenBracket) == g.len() - 1);
            assert(ops.take(ops.len() - 1) =~= d);
            assert(g.take(g.len() - 1) =~= gd);
        } else if is_opener(ops.last()) {
            assert(g == gd.push(Operator::OpenParen));
            assert(g.last() != Operator::OpenBracket);
            assert(g.drop_last() =~= gd);
            let k = last_match(d, Operator::OpenBracket);
            let m = last_sym(gd, Operator::OpenBracket);
            assert(last_match(ops, Operator::OpenBracket) == k);
            assert(last_sym(g, Operator::OpenBracket) == m);
            if k >= 0 {
                assert(ops.take(k) =~= d.take(k));
                assert(m < gd.len());
                assert(g.take(m) =~= gd.take(m));
            }
        } else {
            assert(g == gd);
            let k = last_match(ops, Operator::OpenBracket);
            if k >= 0 {
                assert(ops.take(k) =~= d.take(k));
            }
        }
    }
}

/// An opener is pending exactly when some grouping symbol is, and leaving
/// the topmost opener in place leaves the grouping symbols unchanged.
proof fn lemma_opener_exists(ops: Seq<TokenView>)
    ensures
        (last_opener(ops) >= 0 <==> openers_of(ops).len() > 0),
        last_opener(ops) >= 0 ==> openers_of(ops.take(last_opener(ops) + 1)) == openers_of(ops),
        last_opener(ops) < ops.len(),
    decreases ops.len(),
{
    if ops.len() > 0 {
        let d = ops.drop_last();
        lemma_opener_exists(d);
        if is_opener(ops.last()) {
            assert(ops.take(ops.len() as int) =~= ops);
        } else {
            let k = last_opener(d);
            if k >= 0 {
                assert(ops.take(k + 1) =~= d.take(k + 1));
            }
        }
    }
}

/// One converter step fails exactly when the grouping discipline fails, and
/// on success the pending grouping symbols follow the discipline.
proof fn lemma_step_groupings(st: ConvState, t: TokenView)
    ensures
        match conv_step(st, t) {
            Ok(st2) => grouping_step(openers_of(st.ops), t) == Some(openers_of(st2.ops)),
            Err(_) => grouping_step(openers_of(st.ops), t) is None,
        },
{
    let g = openers_of(st.ops);
    match t {
        TokenView::Number(_) => {},
        TokenView::Str(_) => {},
        TokenView::Array(_) => {},
        TokenView::Operator(op) => match op {
            Operator::Comma => {
                lemma_pop_to_opener_char(st.rpn, st.ops);
                lemma_opener_exists(st.ops);
            },
            Operator::OpenParen => {
                lemma_openers_push(st.ops, t);
                assert(opener_sym(t) == Operator::OpenParen);
            },
            Operator::CloseParen => {
                lemma_pop_to_paren_char(st.rpn, st.ops);
                lemma_cut_paren_openers(st.ops);
                match pop_to_paren(st.rpn, st.ops) {
                    Ok(ro) => {
                        // A pending function attached after the group leaves
                        // the grouping symbols alone.
                        if ro.1.len() > 0 && ro.1.last() matches TokenView::Function(_) {
                            assert(!is_opener(ro.1.last()));
                            assert(openers_of(ro.1.drop_last()) == openers_of(ro.1));
                        }
                    },
                    Err(_) => {},
                }
            },
            Operator::OpenBracket => {
                lemma_openers_push(st.ops, t);
                assert(opener_sym(t) == Operator::OpenBracket);
            },
            Operator::CloseBracket => {
                lemma_pop_to_bracket_char(st.rpn, st.ops);
                lemma_cut_bracket_openers(st.ops);
            },
            _ => {
                lemma_pop_ge_prec_openers(st.rpn, st.ops, spec_prec(op));
                let ops2 = pop_ge_prec(st.rpn, st.ops, spec_prec(op)).1;
                lemma_openers_push(ops2, t);
                assert(!is_opener(t));
            },
        },
        TokenView::Function(_) => {
            lemma_openers_push(st.ops, t);
            assert(!is_opener(t));
        },
    }
}

/// Running the converter from a state whose pending grouping symbols are `g`
/// succeeds exactly when the grouping discipline run from `g` does.
proof fn lemma_run_groupings(ts: Seq<TokenView>, i: int, st: ConvState, g: Seq<Operator>)
    requires
        0 <= i <= ts.len(),
        openers_of(st.ops) == g,
    ensures
        (conv_run(ts, i, st) is Ok) <==> (grouping_run(ts, i, g) is Some),
    decreases ts.len() - i,
{
    if i < ts.len() {
        lemma_step_groupings(st, ts[i]);
        match conv_step(st, ts[i]) {
            Ok(st2) => {
                match grouping_step(g, ts[i]) {
                    Some(g2) => {
                        lemma_run_groupings(ts, i + 1, st2, g2);
                    },
                    None => {},
                }
            },
            Err(_) => {},
        }
    }
}

/// The conversion succeeds exactly when every `)`, `]` and `,` of the input
/// finds a pending opener under the converter's matching discipline, and no
/// pre-folded `Array` token appears; on success the whole pending stack is
/// drained into the output, so none of it is left behind.
pub proof fn lemma_convert_ok_iff_groupings_matched(ts: Seq<TokenView>)
    ensures
        (spec_convert(ts) is Ok) <==> groupings_matched(ts),
{
    assert(openers_of(init_state().ops) =~= Seq::<Operator>::empty());
    lemma_run_groupings(ts, 0, init_state(), Seq::empty());
}

/// Proper nesting is accepted step by step by the lenient discipline, with
/// the same pending grouping symbols.
proof fn lemma_nested_implies_matched(ts: Seq<TokenView>, i: int, g: Seq<Operator>)
    requires
        0 <= i <= ts.len(),
        nested_run(ts, i, g) is Some,
    ensures
        grouping_run(ts, i, g) is Some,
    decreases ts.len() - i,
{
    if i < ts.len() {
        match nested_step(g, ts[i]) {
            Some(g2) => {
                assert(grouping_step(g, ts[i]) == Some(g2)) by {
                    match ts[i] {
                        TokenView::Operator(op) => match op {
                            Operator::CloseParen => {
                                assert(g.len() > 0 && g.last() == Operator::OpenParen);
                                assert(last_sym(g, Operator::OpenParen) == g.len() - 1);
                                assert(g.take(g.len() - 1) =~= g.drop_last());
                            },
                            Operator::CloseBracket => {
                                assert(g.len() > 0 && g.last() == Operator::OpenBracket);
                                assert(last_sym(g, Operator::OpenBracket) == g.len() - 1);
                                assert(g.take(g.len() - 1) =~= g.drop_last());
                            },
                            _ => {},
                        },
                        _ => {},
                    }
                }
                lemma_nested_implies_matched(ts, i + 1, g2);
            },
            None => {},
        }
    }
}

/// For every well-formed input — parens and brackets properly nested, every
/// comma inside a grouping, no pre-folded `Array` token — the conversion
/// succeeds: it never reports a structural error, and its own pending stack
/// is drained empty into the RPN output at end of input.
pub proof fn lemma_well_grouped_converts(ts: Seq<TokenView>)
    requires
        well_grouped(ts),
    ensures
        spec_convert(ts) is Ok,
{
    lemma_nested_implies_matched(ts, 0, Seq::empty());
    lemma_convert_ok_iff_groupings_matched(ts);
}

/// Any input with an unmatched `)` or `]`, or a `,` outside every grouping —
/// one the matching discipline refuses — is rejected whole: the conversion
/// reports an error and emits no partial RPN sequence.
pub proof fn lemma_unmatched_grouping_rejected(ts: Seq<TokenView>)
    requires
        !groupings_matched(ts),
    ensures
        spec_convert(ts) is Err,
{
    lemma_convert_ok_iff_groupings_matched(ts);
}

/// No `Array` token anywhere: the sequence is flat.
pub open spec fn flat(ts: Seq<TokenView>) -> bool {
    forall|i: int| 0 <= i < ts.len() ==> !(#[trigger] ts[i] matches TokenView::Array(_))
}

/// No synthetic `Wrap` marker anywhere.
pub open spec fn wrap_free(ts: Seq<TokenView>) -> bool {
    forall|i: int|
        0 <= i < ts.len() ==> !(#[trigger] ts[i] matches TokenView::Function(Function::Wrap(_)))
}

proof fn lemma_flat_push(ts: Seq<TokenView>, t: TokenView)
    requires
        flat(ts),
        !(t matches TokenView::Array(_)),
    ensures
        flat(ts.push(t)),
{
    assert forall|i: int| 0 <= i < ts.push(t).len() implies !(#[trigger] ts.push(t)[i]
        matches TokenView::Array(_)) by {
        if i < ts.len() {
            assert(ts.push(t)[i] == ts[i]);
        } else {
            assert(ts.push(t)[i] == t);
        }
    }
}

proof fn lemma_flat_drop_last(ts: Seq<TokenView>)
    requires
        flat(ts),
        ts.len() > 0,
    ensures
        flat(ts.drop_last()),
{
    assert forall|i: int| 0 <= i < ts.drop_last().len() implies !(#[trigger] ts.drop_last()[i]
        matches TokenView::Array(_)) by {
        assert(ts.drop_last()[i] == ts[i]);
    }
}

proof fn lemma_pop_to_paren_flat(rpn: Seq<TokenView>, ops: Seq<TokenView>)
    requires
        flat(rpn),
        flat(ops),
    ensures
        pop_to_paren(rpn, ops) matches Ok(ro) ==> flat(ro.0) && flat(ro.1),
    decreases ops.len(),
{
    if ops.len() == 0 {
    } else if is_open_paren(ops.last()) {
        lemma_flat_drop_last(ops);
    } else {
        lemma_flat_push(rpn, ops.last());
        lemma_flat_drop_last(ops);
        lemma_pop_to_paren_flat(rpn.push(ops.last()), ops.drop_last());
    }
}

proof fn lemma_pop_to_bracket_flat(rpn: Seq<TokenView>, ops: Seq<TokenView>)
    requires
        flat(rpn),
        flat(ops),
    ensures
        pop_to_bracket(rpn, ops) matches Ok(ro) ==> flat(ro.0) && flat(ro.1),
    decreases ops.len(),
{
    if ops.len() == 0 {
    } else if is_open_bracket(ops.last()) {
        lemma_flat_drop_last(ops);
    } else {
        lemma_flat_push(rpn, ops.last());
        lemma_flat_drop_last(ops);
        lemma_pop_to_bracket_flat(rpn.push(ops.last()), ops.drop_last());
    }
}

proof fn lemma_pop_to_opener_flat(rpn: Seq<TokenView>, ops: Seq<TokenView>)
    requires
        flat(rpn),
        flat(ops),
    ensures
        pop_to_opener(rpn, ops) matches Ok(ro) ==> flat(ro.0) && flat(ro.1),
    decreases ops.len(),
{
    if ops.len() == 0 {
    } else if is_opener(ops.last()) {
    } else {
        lemma_flat_push(rpn, ops.last());
        lemma_flat_drop_last(ops);
        lemma_pop_to_opener_flat(rpn.push(ops.last()), ops.drop_last());
    }
}

proof fn lemma_pop_ge_prec_flat(rpn: Seq<TokenView>, ops: Seq<TokenView>, p: u8)
    requires
        flat(rpn),
        flat(ops),
    ensures
        flat(pop_ge_prec(rpn, ops, p).0),
        flat(pop_ge_prec(rpn, ops, p).1),
    decreases ops.len(),
{
    if ops.len() > 0 {
        match ops.last() {
            TokenView::Operator(o2) => {
                if p <= spec_prec(o2) {
                    lemma_flat_push(rpn, ops.last());
                    lemma_flat_drop_last(ops);
                    lemma_pop_ge_prec_flat(rpn.push(ops.last()), ops.drop_last(), p);
                }
            },
            _ => {},
        }
    }
}

/// One converter step keeps both the output and the stack free of `Array`
/// tokens.
proof fn lemma_step_flat(st: ConvState, t: TokenView)
    requires
        flat(st.rpn),
        flat(st.ops),
    ensures
        conv_step(st, t) matches Ok(st2) ==> flat(st2.rpn) && flat(st2.ops),
{
    match t {
        TokenView::Number(_) => {
            lemma_flat_push(st.rpn, t);
        },
        TokenView::Str(_) => {
            lemma_flat_push(st.rpn, t);
        },
        TokenView::Array(_) => {},
        TokenView::Operator(op) => match op {
            Operator::Comma => {
                lemma_pop_to_opener_flat(st.rpn, st.ops);
            },
            Operator::OpenParen => {
                lemma_flat_push(st.ops, t);
            },
            Operator::CloseParen => {
                lemma_pop_to_paren_flat(st.rpn, st.ops);
                match pop_to_paren(st.rpn, st.ops) {
                    Ok(ro) => {
                        if ro.1.len() > 0 && ro.1.last() matches TokenView::Function(_) {
                            lemma_flat_push(ro.0, ro.1.last());
                            lemma_flat_drop_last(ro.1);
                        }
                    },
                    Err(_) => {},
                }
            },
            Operator::OpenBracket => {
                lemma_flat_push(st.ops, t);
            },
            Operator::CloseBracket => {
                lemma_pop_to_bracket_flat(st.rpn, st.ops);
                match pop_to_bracket(st.rpn, st.ops) {
                    Ok(ro) => {
                        let n = if st.counts.len() > 0 {
                            st.counts.last()
                        } else {
                            0
                        };
                        lemma_flat_push(ro.0, TokenView::Function(Function::Wrap(n as usize)));
                    },
                    Err(_) => {},
                }
            },
            _ => {
                lemma_pop_ge_prec_flat(st.rpn, st.ops, spec_prec(op));
                lemma_flat_push(pop_ge_prec(st.rpn, st.ops, spec_prec(op)).1, t);
            },
        },
        TokenView::Function(_) => {
            lemma_flat_push(st.ops, t);
        },
    }
}

proof fn lemma_run_flat(ts: Seq<TokenView>, i: int, st: ConvState)
    requires
        0 <= i <= ts.len(),
        flat(st.rpn),
        flat(st.ops),
    ensures
        conv_run(ts, i, st) matches Ok(st2) ==> flat(st2.rpn) && flat(st2.ops),
    decreases ts.len() - i,
{
    if i < ts.len() {
        lemma_step_flat(st, ts[i]);
        match conv_step(st, ts[i]) {
            Ok(st2) => {
                lemma_run_flat(ts, i + 1, st2);
            },
            Err(_) => {},
        }
    }
}

/// The RPN output is flat: it never holds an `Array` token. An array in the
/// expression appears in it only as its elements followed by a `Wrap`
/// marker.
pub proof fn lemma_rpn_output_flat(ts: Seq<TokenView>)
    ensures
        spec_convert(ts) matches Ok(out) ==> flat(out),
{
    lemma_run_flat(ts, 0, init_state());
    match conv_run(ts, 0, init_state()) {
        Ok(st) => {
            assert forall|i: int| 0 <= i < drain(st).len() implies !(#[trigger] drain(st)[i]
                matches TokenView::Array(_)) by {
                if i < st.rpn.len() {
                    assert(drain(st)[i] == st.rpn[i]);
                } else {
                    let j = i - st.rpn.len();
                    assert(drain(st)[i] == st.ops.reverse()[j]);
                    assert(st.ops.reverse()[j] == st.ops[st.ops.len() - 1 - j]);
                }
            }
        },
        Err(_) => {},
    }
}

/// The tokenizer's scan never produces an `Array` token nor a synthetic
/// `Wrap` marker: arrays exist for it only as bracketed token runs, and
/// `Wrap` belongs to the converter's output alone.
pub proof fn lemma_scan_output_plain(s: Seq<char>, pos: int)
    requires
        0 <= pos,
    ensures
        spec_scan(s, pos) matches Ok(out) ==> flat(out) && wrap_free(out),
    decreases s.len() - pos,
{
    if pos >= s.len() {
    } else {
        let c = s[pos];
        if is_number_char(c) {
            lemma_number_run_end(s, pos);
            lemma_scan_output_plain(s, number_run_end(s, pos));
            lemma_prepend_plain(TokenView::Number(s.subrange(pos, number_run_end(s, pos))), s,
                number_run_end(s, pos));
        } else if c == '"' {
            lemma_last_quote_before(s, s.len() as int);
            let q = last_quote_before(s, s.len() as int);
            if q < pos {
                assert(s[pos] != '"');
            }
            lemma_scan_output_plain(s, q + 1);
            lemma_prepend_plain(TokenView::Str(s.subrange(pos, q + 1)), s, q + 1);
        } else {
            match op_of_char(c) {
                Some(op) => {
                    lemma_scan_output_plain(s, pos + 1);
                    lemma_prepend_plain(TokenView::Operator(op), s, pos + 1);
                },
                None => match func_from(s, pos) {
                    Some((f, l)) => {
                        lemma_scan_output_plain(s, pos + l);
                        lemma_prepend_plain(TokenView::Function(f), s, pos + l);
                    },
                    None => {
                        if c == ' ' || c == '\t' {
                            lemma_scan_output_plain(s, pos + 1);
                        }
                    },
                },
            }
        }
    }
}

/// Prefixing one plain token onto a plain scan outcome keeps it plain.
proof fn lemma_prepend_plain(t: TokenView, s: Seq<char>, pos: int)
    requires
        !(t matches TokenView::Array(_)),
        !(t matches TokenView::Function(Function::Wrap(_))),
        spec_scan(s, pos) matches Ok(out) ==> flat(out) && wrap_free(out),
    ensures
        crate::tokenizer::prepend_token(t, spec_scan(s, pos)) matches Ok(out2) ==> flat(out2)
            && wrap_free(out2),
{
    match spec_scan(s, pos) {
        Ok(out) => {
            let out2 = seq![t] + out;
            assert forall|i: int| 0 <= i < out2.len() implies !(#[trigger] out2[i]
                matches TokenView::Array(_)) && !(out2[i] matches TokenView::Function(
                Function::Wrap(_),
            )) by {
                if i == 0 {
                    assert(out2[i] == t);
                } else {
                    assert(out2[i] == out[i - 1]);
                }
            }
        },
        Err(_) => {},
    }
}

/// When the strict end-of-input policy accepts an input, the lenient one
/// agrees with it exactly: the two policies differ only on inputs that end
/// with a grouping still open.
pub proof fn lemma_strict_agrees_with_lenient(ts: Seq<TokenView>)
    requires
        spec_convert_strict(ts) is Ok,
    ensures
        spec_convert(ts) == spec_convert_strict(ts),
{
}

/// Parsing is deterministic: the token sequence and the RPN sequence are
/// functions of the input alone, since the contracts of `tokenize` and
/// `convert` equate their results with `spec_scan` and `spec_convert`, and
/// those are mathematical functions: equal inputs give equal outcomes.
pub proof fn lemma_pipeline_deterministic(
    a: Seq<char>,
    b: Seq<char>,
    ta: Seq<TokenView>,
    tb: Seq<TokenView>,
)
    requires
        a == b,
        ta == tb,
    ensures
        crate::tokenizer::spec_scan(a, 0) == crate::tokenizer::spec_scan(b, 0),
        spec_convert(ta) == spec_convert(tb),
{
}

} // verus!
