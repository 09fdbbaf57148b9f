//! The shunting-yard converter: rewrites an infix token sequence into
//! reverse-Polish order using one pending operator/function stack, handling
//! precedence, parenthesized grouping, function-call attachment, and
//! bracketed array construction.

use vstd::prelude::*;

use crate::token::{
    lemma_tokens_view_drop_last, lemma_tokens_view_index, lemma_tokens_view_push, spec_prec,
    token_view, tokens_view, Function, Operator, Token, TokenView,
};

verus! {

/// A structural failure of the conversion.
#[derive(Clone, Copy, PartialEq, Eq, Structural, Debug)]
pub enum EvaluationError {
    /// A `CloseParen` with no matching `OpenParen` anywhere on the operator
    /// stack.
    MismatchedParens,
    /// A `CloseBracket` with no matching `OpenBracket` anywhere on the
    /// operator stack.
    MismatchedBracket,
    /// A `Comma` while no grouping is open.
    MisplacedComma,
    /// An `Array` token in the converter's input. Arrays reach the converter
    /// as bracketed token runs; a pre-folded `Array` is a caller's mistake,
    /// distinguishable from the user-facing structural errors.
    ArrayInInput,
    /// A grouping still open at end of input; only the strict conversion
    /// reports it, the lenient one closes the grouping implicitly.
    UnclosedGrouping,
}

/// The converter's working state: the RPN output built so far, the pending
/// operator/function stack, and one element counter per open array bracket.
pub struct ConvState {
    pub rpn: Seq<TokenView>,
    pub ops: Seq<TokenView>,
    pub counts: Seq<int>,
}

/// An `OpenParen` operator token.
pub open spec fn is_open_paren(t: TokenView) -> bool {
    t matches TokenView::Operator(Operator::OpenParen)
}

/// An `OpenBracket` operator token.
pub open spec fn is_open_bracket(t: TokenView) -> bool {
    t matches TokenView::Operator(Operator::OpenBracket)
}

/// A token that opens a grouping: `OpenParen` or `OpenBracket`.
pub open spec fn is_opener(t: TokenView) -> bool {
    is_open_paren(t) || is_open_bracket(t)
}

/// Pop pending entries into the output until an `OpenParen` appears on top
/// of the stack; drop that `OpenParen`. Fails when the stack runs out first.
pub open spec fn pop_to_paren(rpn: Seq<TokenView>, ops: Seq<TokenView>) -> Result<
    (Seq<TokenView>, Seq<TokenView>),
    EvaluationError,
>
    decreases ops.len(),
{
    if ops.len() == 0 {
        Err(EvaluationError::MismatchedParens)
    } else if is_open_paren(ops.last()) {
        Ok((rpn, ops.drop_last()))
    } else {
        pop_to_paren(rpn.push(ops.last()), ops.drop_last())
    }
}

/// Pop pending entries into the output until an `OpenBracket` appears on top
/// of the stack; drop that `OpenBracket`. Fails when the stack runs out
/// first.
pub open spec fn pop_to_bracket(rpn: Seq<TokenView>, ops: Seq<TokenView>) -> Result<
    (Seq<TokenView>, Seq<TokenView>),
    EvaluationError,
>
    decreases ops.len(),
{
    if ops.len() == 0 {
        Err(EvaluationError::MismatchedBracket)
    } else if is_open_bracket(ops.last()) {
        Ok((rpn, ops.drop_last()))
    } else {
        pop_to_bracket(rpn.push(ops.last()), ops.drop_last())
    }
}

/// Pop pending entries into the output until some opener is on top of the
/// stack, leaving the opener in place. Fails when the stack runs out first.
pub open spec fn pop_to_opener(rpn: Seq<TokenView>, ops: Seq<TokenView>) -> Result<
    (Seq<TokenView>, Seq<TokenView>),
    EvaluationError,
>
    decreases ops.len(),
{
    if ops.len() == 0 {
        Err(EvaluationError::MisplacedComma)
    } else if is_opener(ops.last()) {
        Ok((rpn, ops))
    } else {
        pop_to_opener(rpn.push(ops.last()), ops.drop_last())
    }
}

/// Pop operators whose precedence is at least `p` into the output; any
/// non-operator entry — an opener, whose precedence is zero anyway, or a
/// pending function — stops the popping.
pub open spec fn pop_ge_prec(rpn: Seq<TokenView>, ops: Seq<TokenView>, p: u8) -> (
    Seq<TokenView>,
    Seq<TokenView>,
)
    decreases ops.len(),
{
    if ops.len() == 0 {
        (rpn, ops)
    } else {
        match ops.last() {
            TokenView::Operator(o2) => if p <= spec_prec(o2) {
                pop_ge_prec(rpn.push(ops.last()), ops.drop_last(), p)
            } else {
                (rpn, ops)
            },
            _ => (rpn, ops),
        }
    }
}

/// One `CloseParen`: close the parenthesized group, then attach the pending
/// function, if one governs it.
pub open spec fn close_paren_step(st: ConvState) -> Result<ConvState, EvaluationError> {
    match pop_to_paren(st.rpn, st.ops) {
        Ok((rpn2, ops2)) => if ops2.len() > 0 && ops2.last() matches TokenView::Function(_) {
            Ok(ConvState { rpn: rpn2.push(ops2.last()), ops: ops2.drop_last(), counts: st.counts })
        } else {
            Ok(ConvState { rpn: rpn2, ops: ops2, counts: st.counts })
        },
        Err(e) => Err(e),
    }
}

/// One `CloseBracket`: close the bracketed group, retire its element
/// counter, and emit the `Wrap` marker that collects the array's elements.
pub open spec fn close_bracket_step(st: ConvState) -> Result<ConvState, EvaluationError> {
    match pop_to_bracket(st.rpn, st.ops) {
        Ok((rpn2, ops2)) => {
            let n = if st.counts.len() > 0 {
                st.counts.last()
            } else {
                0
            };
            let counts2 = if st.counts.len() > 0 {
                st.counts.drop_last()
            } else {
                st.counts
            };
            Ok(
                ConvState {
                    rpn: rpn2.push(TokenView::Function(Function::Wrap(n as usize))),
                    ops: ops2,
                    counts: counts2,
                },
            )
        },
        Err(e) => Err(e),
    }
}

/// The converter's dispatch on one token, before the element counters are
/// brought up to date.
pub open spec fn conv_step_core(st: ConvState, t: TokenView) -> Result<ConvState, EvaluationError> {
    match t {
        TokenView::Number(_) => Ok(
            ConvState { rpn: st.rpn.push(t), ops: st.ops, counts: st.counts },
        ),
        TokenView::Str(_) => Ok(ConvState { rpn: st.rpn.push(t), ops: st.ops, counts: st.counts }),
        TokenView::Array(_) => Err(EvaluationError::ArrayInInput),
        TokenView::Operator(op) => match op {
            Operator::Comma => match pop_to_opener(st.rpn, st.ops) {
                Ok((rpn2, ops2)) => Ok(ConvState { rpn: rpn2, ops: ops2, counts: st.counts }),
                Err(e) => Err(e),
            },
            Operator::OpenParen => Ok(
                ConvState { rpn: st.rpn, ops: st.ops.push(t), counts: st.counts },
            ),
            Operator::CloseParen => close_paren_step(st),
            Operator::OpenBracket => Ok(
                ConvState { rpn: st.rpn, ops: st.ops.push(t), counts: st.counts.push(0) },
            ),
            Operator::CloseBracket => close_bracket_step(st),
            _ => {
                let (rpn2, ops2) = pop_ge_prec(st.rpn, st.ops, spec_prec(op));
                Ok(ConvState { rpn: rpn2, ops: ops2.push(t), counts: st.counts })
            },
        },
        TokenView::Function(_) => Ok(
            ConvState { rpn: st.rpn, ops: st.ops.push(t), counts: st.counts },
        ),
    }
}

/// After a token is processed, the innermost element counter, if one is
/// active, grows by the number of output items the token's step emitted.
pub open spec fn bump_innermost(before: ConvState, after: ConvState) -> ConvState {
    if after.counts.len() > 0 {
        ConvState {
            rpn: after.rpn,
            ops: after.ops,
            counts: after.counts.update(
                after.counts.len() - 1,
                after.counts.last() + after.rpn.len() - before.rpn.len(),
            ),
        }
    } else {
        after
    }
}

/// One full converter step on one token.
pub open spec fn conv_step(st: ConvState, t: TokenView) -> Result<ConvState, EvaluationError> {
    match conv_step_core(st, t) {
        Ok(st2) => Ok(bump_innermost(st, st2)),
        Err(e) => Err(e),
    }
}

/// Run the converter over the tokens from position `i` on.
pub open spec fn conv_run(ts: Seq<TokenView>, i: int, st: ConvState) -> Result<
    ConvState,
    EvaluationError,
>
    decreases ts.len() - i,
{
    if i < 0 || i >= ts.len() {
        Ok(st)
    } else {
        match conv_step(st, ts[i]) {
            Ok(st2) => conv_run(ts, i + 1, st2),
            Err(e) => Err(e),
        }
    }
}

/// The state the converter starts from: everything empty.
pub open spec fn init_state() -> ConvState {
    ConvState { rpn: Seq::empty(), ops: Seq::empty(), counts: Seq::empty() }
}

/// At end of input every pending entry is popped into the output, in stack
/// order: a grouping left open is closed implicitly rather than rejected.
pub open spec fn drain(st: ConvState) -> Seq<TokenView> {
    st.rpn + st.ops.reverse()
}

/// The whole conversion of a token sequence to its RPN sequence.
pub open spec fn spec_convert(ts: Seq<TokenView>) -> Result<Seq<TokenView>, EvaluationError> {
    match conv_run(ts, 0, init_state()) {
        Ok(st) => Ok(drain(st)),
        Err(e) => Err(e),
    }
}

/// Some opener is still pending on the stack.
pub open spec fn contains_opener(ops: Seq<TokenView>) -> bool {
    exists|i: int| 0 <= i < ops.len() && is_opener(#[trigger] ops[i])
}

/// The whole conversion under the strict end-of-input policy: pending
/// operators and functions still drain into the output, but a grouping that
/// the end of input would close implicitly is a failure instead.
pub open spec fn spec_convert_strict(ts: Seq<TokenView>) -> Result<Seq<TokenView>, EvaluationError> {
    match conv_run(ts, 0, init_state()) {
        Ok(st) => if contains_opener(st.ops) {
            Err(EvaluationError::UnclosedGrouping)
        } else {
            Ok(drain(st))
        },
        Err(e) => Err(e),
    }
}

/// The model of the stack of element counters.
pub open spec fn counts_view(cs: Seq<usize>) -> Seq<int> {
    Seq::new(cs.len(), |i: int| cs[i] as int)
}

/// Pop pending entries into `rpn` until an `OpenParen` tops `ops`, then drop
/// that `OpenParen`; report whether one was found at all.
fn pop_until_paren(rpn: &mut Vec<Token>, ops: &mut Vec<Token>) -> (ok: bool)
    ensures
        match pop_to_paren(tokens_view(old(rpn)@), tokens_view(old(ops)@)) {
            Ok(ro) => ok && tokens_view(final(rpn)@) == ro.0 && tokens_view(final(ops)@) == ro.1,
            Err(e) => !ok && e == EvaluationError::MismatchedParens,
        },
        final(rpn)@.len() >= old(rpn)@.len(),
{
    let ghost r0 = tokens_view(old(rpn)@);
    let ghost o0 = tokens_view(old(ops)@);
    loop
        invariant
            r0 == tokens_view(old(rpn)@),
            o0 == tokens_view(old(ops)@),
            pop_to_paren(r0, o0) == pop_to_paren(tokens_view(rpn@), tokens_view(ops@)),
            rpn@.len() >= old(rpn)@.len(),
        decreases ops@.len(),
    {
        let ghost oseq = ops@;
        let ghost rseq = rpn@;
        let olen = ops.len();
        if olen == 0 {
            return false;
        }
        proof {
            lemma_tokens_view_drop_last(oseq);
        }
        if matches!(&ops[olen - 1], Token::Operator(Operator::OpenParen)) {
            let _ = ops.remove(olen - 1);
            proof {
                assert(ops@ =~= oseq.drop_last());
            }
            return true;
        }
        let t = ops.remove(olen - 1);
        proof {
            assert(ops@ =~= oseq.drop_last());
            lemma_tokens_view_push(rseq, t);
        }
        rpn.push(t);
    }
}

/// Pop pending entries into `rpn` until an `OpenBracket` tops `ops`, then
/// drop that `OpenBracket`; report whether one was found at all.
fn pop_until_bracket(rpn: &mut Vec<Token>, ops: &mut Vec<Token>) -> (ok: bool)
    ensures
        match pop_to_bracket(tokens_view(old(rpn)@), tokens_view(old(ops)@)) {
            Ok(ro) => ok && tokens_view(final(rpn)@) == ro.0 && tokens_view(final(ops)@) == ro.1,
            Err(e) => !ok && e == EvaluationError::MismatchedBracket,
        },
        final(rpn)@.len() >= old(rpn)@.len(),
{
    let ghost r0 = tokens_view(old(rpn)@);
    let ghost o0 = tokens_view(old(ops)@);
    loop
        invariant
            r0 == tokens_view(old(rpn)@),
            o0 == tokens_view(old(ops)@),
            pop_to_bracket(r0, o0) == pop_to_bracket(tokens_view(rpn@), tokens_view(ops@)),
            rpn@.len() >= old(rpn)@.len(),
        decreases ops@.len(),
    {
        let ghost oseq = ops@;
        let ghost rseq = rpn@;
        let olen = ops.len();
        if olen == 0 {
            return false;
        }
        proof {
            lemma_tokens_view_drop_last(oseq);
        }
        if matches!(&ops[olen - 1], Token::Operator(Operator::OpenBracket)) {
            let _ = ops.remove(olen - 1);
            proof {
                assert(ops@ =~= oseq.drop_last());
            }
            return true;
        }
        let t = ops.remove(olen - 1);
        proof {
            assert(ops@ =~= oseq.drop_last());
            lemma_tokens_view_push(rseq, t);
        }
        rpn.push(t);
    }
}

/// Pop pending entries into `rpn` until some opener tops `ops`, leaving the
/// opener in place; report whether one was found at all.
fn pop_until_opener(rpn: &mut Vec<Token>, ops: &mut Vec<Token>) -> (ok: bool)
    ensures
        match pop_to_opener(tokens_view(old(rpn)@), tokens_view(old(ops)@)) {
            Ok(ro) => ok && tokens_view(final(rpn)@) == ro.0 && tokens_view(final(ops)@) == ro.1,
            Err(e) => !ok && e == EvaluationError::MisplacedComma,
        },
        final(rpn)@.len() >= old(rpn)@.len(),
{
    let ghost r0 = tokens_view(old(rpn)@);
    let ghost o0 = tokens_view(old(ops)@);
    loop
        invariant
            r0 == tokens_view(old(rpn)@),
            o0 == tokens_view(old(ops)@),
            pop_to_opener(r0, o0) == pop_to_opener(tokens_view(rpn@), tokens_view(ops@)),
            rpn@.len() >= old(rpn)@.len(),
        decreases ops@.len(),
    {
        let ghost oseq = ops@;
        let ghost rseq = rpn@;
        let olen = ops.len();
        if olen == 0 {
            return false;
        }
        proof {
            lemma_tokens_view_drop_last(oseq);
        }
        if matches!(
            &ops[olen - 1],
            Token::Operator(Operator::OpenParen) | Token::Operator(Operator::OpenBracket)
        ) {
            return true;
        }
        let t = ops.remove(olen - 1);
        proof {
            assert(ops@ =~= oseq.drop_last());
            lemma_tokens_view_push(rseq, t);
        }
        rpn.push(t);
    }
}

/// Pop operators of precedence at least `p` into `rpn`; an opener or a
/// pending function stops the popping.
fn pop_while_prec(rpn: &mut Vec<Token>, ops: &mut Vec<Token>, p: u8)
    ensures
        tokens_view(final(rpn)@) == pop_ge_prec(
            tokens_view(old(rpn)@),
            tokens_view(old(ops)@),
            p,
        ).0,
        tokens_view(final(ops)@) == pop_ge_prec(
            tokens_view(old(rpn)@),
            tokens_view(old(ops)@),
            p,
        ).1,
        final(rpn)@.len() >= old(rpn)@.len(),
{
    let ghost r0 = tokens_view(old(rpn)@);
    let ghost o0 = tokens_view(old(ops)@);
    loop
        invariant
            r0 == tokens_view(old(rpn)@),
            o0 == tokens_view(old(ops)@),
            pop_ge_prec(r0, o0, p) == pop_ge_prec(tokens_view(rpn@), tokens_view(ops@), p),
            rpn@.len() >= old(rpn)@.len(),
        decreases ops@.len(),
    {
        let ghost oseq = ops@;
        let ghost rseq = rpn@;
        let olen = ops.len();
        if olen == 0 {
            return ;
        }
        proof {
            lemma_tokens_view_drop_last(oseq);
        }
        let keep_popping = match &ops[olen - 1] {
            Token::Operator(o2) => p <= o2.prec(),
            _ => false,
        };
        if !keep_popping {
            return ;
        }
        let t = ops.remove(olen - 1);
        proof {
            assert(ops@ =~= oseq.drop_last());
            lemma_tokens_view_push(rseq, t);
        }
        rpn.push(t);
    }
}

/// Run the shunting-yard over all tokens and hand back the output queue and
/// the pending stack as they stand at end of input, before any end-of-input
/// policy is applied.
fn shunt(tokens: &Vec<Token>) -> (r: Result<(Vec<Token>, Vec<Token>), EvaluationError>)
    ensures
        ({
            let rr = conv_run(tokens_view(tokens@), 0, init_state());
            match r {
                Ok(pair) => rr matches Ok(st) && st.rpn == tokens_view(pair.0@) && st.ops
                    == tokens_view(pair.1@),
                Err(e) => rr == Err::<ConvState, EvaluationError>(e),
            }
        }),
{
    let ghost ts = tokens_view(tokens@);
    proof {
        lemma_tokens_view_index(tokens@);
    }
    let n = tokens.len();
    let mut rpn: Vec<Token> = Vec::new();
    let mut opstack: Vec<Token> = Vec::new();
    let mut wrap_counts: Vec<usize> = Vec::new();
    let mut idx: usize = 0;
    proof {
        assert(tokens_view(rpn@) =~= Seq::<TokenView>::empty());
        assert(tokens_view(opstack@) =~= Seq::<TokenView>::empty());
        assert(counts_view(wrap_counts@) =~= Seq::<int>::empty());
    }
    while idx < n
        invariant
            n == tokens@.len(),
            ts == tokens_view(tokens@),
            ts.len() == n,
            forall|k: int| 0 <= k < n ==> ts[k] == token_view(tokens@[k]),
            idx <= n,
            conv_run(ts, 0, init_state()) == conv_run(
                ts,
                idx as int,
                ConvState {
                    rpn: tokens_view(rpn@),
                    ops: tokens_view(opstack@),
                    counts: counts_view(wrap_counts@),
                },
            ),
            forall|k: int| 0 <= k < wrap_counts@.len() ==> wrap_counts@[k] <= rpn@.len(),
        decreases n - idx,
    {
        let ghost st0 = ConvState {
            rpn: tokens_view(rpn@),
            ops: tokens_view(opstack@),
            counts: counts_view(wrap_counts@),
        };
        let old_len = rpn.len();
        proof {
            lemma_tokens_view_index(rpn@);
            assert(st0.rpn.len() == old_len);
        }
        match &tokens[idx] {
            Token::Number(s) => {
                let copy = s.clone();
                proof {
                    lemma_tokens_view_push(rpn@, Token::Number(copy));
                }
                rpn.push(Token::Number(copy));
            },
            Token::Str(s) => {
                let copy = s.clone();
                proof {
                    lemma_tokens_view_push(rpn@, Token::Str(copy));
                }
                rpn.push(Token::Str(copy));
            },
            Token::Array(_) => {
                return Err(EvaluationError::ArrayInInput);
            },
            Token::Operator(op) => {
                let o = *op;
                match o {
                    Operator::Comma => {
                        if !pop_until_opener(&mut rpn, &mut opstack) {
                            return Err(EvaluationError::MisplacedComma);
                        }
                    },
                    Operator::OpenParen => {
                        proof {
                            lemma_tokens_view_push(opstack@, Token::Operator(o));
                        }
                        opstack.push(Token::Operator(o));
                    },
                    Operator::CloseParen => {
                        if !pop_until_paren(&mut rpn, &mut opstack) {
                            return Err(EvaluationError::MismatchedParens);
                        }
                        proof {
                            lemma_tokens_view_index(opstack@);
                        }
                        let olen = opstack.len();
                        if olen > 0 && matches!(&opstack[olen - 1], Token::Function(_)) {
                            let ghost oseq = opstack@;
                            let ghost rseq = rpn@;
                            proof {
                                lemma_tokens_view_drop_last(oseq);
                            }
                            let f = opstack.remove(olen - 1);
                            proof {
                                assert(opstack@ =~= oseq.drop_last());
                                lemma_tokens_view_push(rseq, f);
                            }
                            rpn.push(f);
                        }
                    },
                    Operator::OpenBracket => {
                        proof {
                            lemma_tokens_view_push(opstack@, Token::Operator(o));
                            assert(counts_view(wrap_counts@.push(0)) =~= counts_view(
                                wrap_counts@,
                            ).push(0));
                        }
                        opstack.push(Token::Operator(o));
                        wrap_counts.push(0);
                    },
                    Operator::CloseBracket => {
                        if !pop_until_bracket(&mut rpn, &mut opstack) {
                            return Err(EvaluationError::MismatchedBracket);
                        }
                        let ghost cseq = wrap_counts@;
                        let nw = match wrap_counts.pop() {
                            Some(c) => c,
                            None => 0,
                        };
                        proof {
                            if cseq.len() > 0 {
                                assert(wrap_counts@ =~= cseq.drop_last());
                                assert(counts_view(cseq.drop_last()) =~= counts_view(
                                    cseq,
                                ).drop_last());
                                assert(nw as int == counts_view(cseq).last());
                            }
                            lemma_tokens_view_push(rpn@, Token::Function(Function::Wrap(nw)));
                        }
                        rpn.push(Token::Function(Function::Wrap(nw)));
                    },
                    _ => {
                        pop_while_prec(&mut rpn, &mut opstack, o.prec());
                        proof {
                            lemma_tokens_view_push(opstack@, Token::Operator(o));
                        }
                        opstack.push(Token::Operator(o));
                    },
                }
            },
            Token::Function(f) => {
                let g = *f;
                proof {
                    lemma_tokens_view_push(opstack@, Token::Function(g));
                }
                opstack.push(Token::Function(g));
            },
        }
        let ghost st1 = ConvState {
            rpn: tokens_view(rpn@),
            ops: tokens_view(opstack@),
            counts: counts_view(wrap_counts@),
        };
        proof {
            lemma_tokens_view_index(rpn@);
            assert(st1.rpn.len() == rpn@.len());
            assert(conv_step_core(st0, ts[idx as int]) == Ok::<ConvState, EvaluationError>(st1));
        }
        let new_len = rpn.len();
        if wrap_counts.len() > 0 {
            let li = wrap_counts.len() - 1;
            let ghost cseq = wrap_counts@;
            let c = wrap_counts.remove(li);
            let add = new_len - old_len;
            proof {
                assert(wrap_counts@ =~= cseq.drop_last());
                assert(c + add <= new_len);
            }
            wrap_counts.push(c + add);
            proof {
                assert(counts_view(wrap_counts@) =~= st1.counts.update(
                    st1.counts.len() - 1,
                    st1.counts.last() + st1.rpn.len() - st0.rpn.len(),
                ));
            }
        }
        proof {
            let stb = ConvState {
                rpn: tokens_view(rpn@),
                ops: tokens_view(opstack@),
                counts: counts_view(wrap_counts@),
            };
            assert(stb == bump_innermost(st0, st1));
            assert(conv_step(st0, ts[idx as int]) == Ok::<ConvState, EvaluationError>(stb));
        }
        idx = idx + 1;
    }
    let ghost stf = ConvState {
        rpn: tokens_view(rpn@),
        ops: tokens_view(opstack@),
        counts: counts_view(wrap_counts@),
    };
    proof {
        assert(conv_run(ts, 0, init_state()) == Ok::<ConvState, EvaluationError>(stf));
    }
    Ok((rpn, opstack))
}

/// Convert an infix token sequence into its RPN sequence; a grouping left
/// open at end of input is closed implicitly, its pending entries drained
/// into the output.
///
/// The conversion succeeds exactly when `spec_convert` does, and then
/// returns exactly the RPN sequence that `spec_convert` names; otherwise it
/// reports exactly the structural error that `spec_convert` names.
pub fn convert(tokens: &Vec<Token>) -> (r: Result<Vec<Token>, EvaluationError>)
    ensures
        match r {
            Ok(v) => spec_convert(tokens_view(tokens@)) == Ok::<Seq<TokenView>, EvaluationError>(
                tokens_view(v@),
            ),
            Err(e) => spec_convert(tokens_view(tokens@)) == Err::<Seq<TokenView>, EvaluationError>(
                e,
            ),
        },
{
    let (mut rpn, mut opstack) = match shunt(tokens) {
        Ok(pair) => pair,
        Err(e) => {
            return Err(e);
        },
    };
    drain_stack(&mut rpn, &mut opstack);
    Ok(rpn)
}

/// End of input: pop every remaining pending entry into the output, in stack
/// order.
fn drain_stack(rpn: &mut Vec<Token>, ops: &mut Vec<Token>)
    ensures
        tokens_view(final(rpn)@) == tokens_view(old(rpn)@) + tokens_view(old(ops)@).reverse(),
{
    let ghost rpn0 = tokens_view(old(rpn)@);
    let ghost ops0 = tokens_view(old(ops)@);
    while ops.len() > 0
        invariant
            rpn0 == tokens_view(old(rpn)@),
            ops0 == tokens_view(old(ops)@),
            rpn0 + ops0.reverse() == tokens_view(rpn@) + tokens_view(ops@).reverse(),
        decreases ops@.len(),
    {
        let ghost oseq = ops@;
        let ghost rseq = rpn@;
        let olen = ops.len();
        proof {
            lemma_tokens_view_drop_last(oseq);
        }
        let t = ops.remove(olen - 1);
        proof {
            assert(ops@ =~= oseq.drop_last());
            lemma_tokens_view_push(rseq, t);
        }
        rpn.push(t);
        proof {
            assert(tokens_view(rpn@) + tokens_view(ops@).reverse() =~= tokens_view(rseq)
                + tokens_view(oseq).reverse());
        }
    }
    proof {
        assert(tokens_view(ops@).reverse() =~= Seq::<TokenView>::empty());
        assert(tokens_view(rpn@) + tokens_view(ops@).reverse() =~= tokens_view(rpn@));
    }
}

/// Whether some opener is still pending on the stack.
fn stack_holds_opener(ops: &Vec<Token>) -> (b: bool)
    ensures
        b == contains_opener(tokens_view(ops@)),
{
    proof {
        lemma_tokens_view_index(ops@);
    }
    let ghost vs = tokens_view(ops@);
    let n = ops.len();
    let mut i: usize = 0;
    while i < n
        invariant
            i <= n == ops@.len(),
            vs == tokens_view(ops@),
            vs.len() == n,
            forall|k: int| 0 <= k < n ==> vs[k] == token_view(ops@[k]),
            forall|k: int| 0 <= k < i ==> !is_opener(#[trigger] vs[k]),
        decreases n - i,
    {
        if matches!(
            &ops[i],
            Token::Operator(Operator::OpenParen) | Token::Operator(Operator::OpenBracket)
        ) {
            proof {
                assert(is_opener(vs[i as int]));
            }
            return true;
        }
        i = i + 1;
    }
    false
}

/// Convert under the strict end-of-input policy: pending operators still
/// drain into the output, but a grouping that the end of input would close
/// implicitly is a failure instead.
///
/// Succeeds exactly when `spec_convert_strict` does, with exactly the RPN
/// sequence or the error that it names.
pub fn convert_strict(tokens: &Vec<Token>) -> (r: Result<Vec<Token>, EvaluationError>)
    ensures
        match r {
            Ok(v) => spec_convert_strict(tokens_view(tokens@)) == Ok::<
                Seq<TokenView>,
                EvaluationError,
            >(tokens_view(v@)),
            Err(e) => spec_convert_strict(tokens_view(tokens@)) == Err::<
                Seq<TokenView>,
                EvaluationError,
            >(e),
        },
{
    match shunt(tokens) {
        Ok((mut rpn, mut opstack)) => {
            if stack_holds_opener(&opstack) {
                Err(EvaluationError::UnclosedGrouping)
            } else {
                drain_stack(&mut rpn, &mut opstack);
                Ok(rpn)
            }
        },
        Err(e) => Err(e),
    }
}

} // verus!
