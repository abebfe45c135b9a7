//! The infix-to-postfix conversion, specified as a shunting-yard pass over
//! the token sequence, together with the facts that pin down exactly when
//! it succeeds and which error it reports.

use vstd::prelude::*;

use crate::parser::Error;
use crate::tokens::lemma_single_char_numeric;
use crate::tokens::spec_is_lparen;
use crate::tokens::spec_is_numeric;
use crate::tokens::spec_is_op;
use crate::tokens::spec_is_recognized;
use crate::tokens::spec_is_rparen;
use crate::tokens::spec_is_space;
use crate::tokens::spec_tokens;

verus! {

// ---------------------------------------------------------------------------
// The shunting-yard pass
// ---------------------------------------------------------------------------

/// The precedence table: `+ -` bind at 2, `* /` at 1, `^` at 3,
/// parentheses at 0; anything else is an unrecognized operator.
pub open spec fn spec_precedence(t: Seq<char>) -> Result<i32, Error> {
    if spec_is_op(t) || spec_is_lparen(t) || spec_is_rparen(t) {
        Ok(
            if t[0] == '+' || t[0] == '-' {
                2
            } else if t[0] == '*' || t[0] == '/' {
                1
            } else if t[0] == '^' {
                3
            } else {
                0
            },
        )
    } else {
        Err(Error::InvalidOperator)
    }
}

/// Popping for a closing parenthesis: operators move to the output until
/// an opening parenthesis (which is discarded) or the stack runs out.
/// Returns the tokens moved, in pop order, and the remaining stack.
pub open spec fn drain_ops(ops: Seq<Seq<char>>) -> (Seq<Seq<char>>, Seq<Seq<char>>)
    decreases ops.len(),
{
    if ops.len() == 0 {
        (Seq::empty(), Seq::empty())
    } else if spec_is_lparen(ops.last()) {
        (Seq::empty(), ops.drop_last())
    } else {
        let (moved, rest) = drain_ops(ops.drop_last());
        (seq![ops.last()] + moved, rest)
    }
}

/// One token of the conversion: numbers go to the output queue; opening
/// parentheses and operators are pushed; a closing parenthesis drains the
/// stack; anything else is an unrecognized operator.
pub open spec fn shunt_step(st: (Seq<Seq<char>>, Seq<Seq<char>>), t: Seq<char>) -> Result<
    (Seq<Seq<char>>, Seq<Seq<char>>),
    Error,
> {
    let (out, ops) = st;
    if spec_is_numeric(t) {
        Ok((out.push(t), ops))
    } else if spec_is_lparen(t) {
        Ok((out, ops.push(t)))
    } else if spec_is_rparen(t) {
        let (moved, rest) = drain_ops(ops);
        Ok((out + moved, rest))
    } else if spec_is_op(t) {
        Ok((out, ops.push(t)))
    } else {
        Err(Error::InvalidOperator)
    }
}

/// The conversion state after consuming the whole token sequence.
pub open spec fn shunt_run(ts: Seq<Seq<char>>) -> Result<
    (Seq<Seq<char>>, Seq<Seq<char>>),
    Error,
>
    decreases ts.len(),
{
    if ts.len() == 0 {
        Ok((Seq::empty(), Seq::empty()))
    } else {
        match shunt_run(ts.drop_last()) {
            Ok(st) => shunt_step(st, ts.last()),
            Err(e) => Err(e),
        }
    }
}

/// Some token of `q` is an opening parenthesis.
pub open spec fn has_lparen(q: Seq<Seq<char>>) -> bool {
    exists|i: int| 0 <= i < q.len() && spec_is_lparen(#[trigger] q[i])
}

/// Token-level conversion: run the yard, flush the remaining operators in
/// reverse, and fail if an opening parenthesis was never closed.
pub open spec fn spec_convert_tokens(ts: Seq<Seq<char>>) -> Result<Seq<Seq<char>>, Error> {
    match shunt_run(ts) {
        Ok((out, ops)) => {
            let q = out + ops.reverse();
            if has_lparen(q) {
                Err(Error::UnclosedParentheses)
            } else {
                Ok(q)
            }
        },
        Err(e) => Err(e),
    }
}

/// Tokens joined with single spaces.
pub open spec fn spec_join(ts: Seq<Seq<char>>) -> Seq<char>
    decreases ts.len(),
{
    if ts.len() == 0 {
        Seq::empty()
    } else if ts.len() == 1 {
        ts[0]
    } else {
        spec_join(ts.drop_last()) + seq![' '] + ts.last()
    }
}

/// Whole-string conversion: split on whitespace, convert, join.
pub open spec fn spec_convert(s: Seq<char>) -> Result<Seq<char>, Error> {
    match spec_convert_tokens(spec_tokens(s)) {
        Ok(q) => Ok(spec_join(q)),
        Err(e) => Err(e),
    }
}

// ---------------------------------------------------------------------------
// When conversion succeeds, and with which error it fails
// ---------------------------------------------------------------------------

/// Every token is a numeric literal, an operator, or a parenthesis.
pub open spec fn all_recognized(ts: Seq<Seq<char>>) -> bool {
    forall|i: int| 0 <= i < ts.len() ==> spec_is_recognized(#[trigger] ts[i])
}

/// Opening parentheses left unmatched after scanning `ts`: an opening
/// parenthesis opens one; a closing parenthesis closes one when any is
/// open, and is silently ignored otherwise.
pub open spec fn open_count(ts: Seq<Seq<char>>) -> int
    decreases ts.len(),
{
    if ts.len() == 0 {
        0int
    } else {
        let c = open_count(ts.drop_last());
        if spec_is_lparen(ts.last()) {
            c + 1
        } else if spec_is_rparen(ts.last()) {
            if c > 0 {
                c - 1
            } else {
                0int
            }
        } else {
            c
        }
    }
}

/// How many opening parentheses sit on the operator stack.
pub open spec fn lp_count(ops: Seq<Seq<char>>) -> int
    decreases ops.len(),
{
    if ops.len() == 0 {
        0int
    } else {
        lp_count(ops.drop_last()) + if spec_is_lparen(ops.last()) {
            1int
        } else {
            0int
        }
    }
}

proof fn lemma_lp_count_nonneg(ops: Seq<Seq<char>>)
    ensures
        lp_count(ops) >= 0,
        lp_count(ops) > 0 <==> has_lparen(ops),
    decreases ops.len(),
{
    if ops.len() > 0 {
        lemma_lp_count_nonneg(ops.drop_last());
        if has_lparen(ops.drop_last()) {
            let i = choose|i: int|
                0 <= i < ops.drop_last().len() && spec_is_lparen(#[trigger] ops.drop_last()[i]);
            assert(spec_is_lparen(ops[i]));
        }
        if spec_is_lparen(ops.last()) {
            assert(spec_is_lparen(ops[ops.len() - 1]));
        }
        if has_lparen(ops) && !spec_is_lparen(ops.last()) {
            let i = choose|i: int| 0 <= i < ops.len() && spec_is_lparen(#[trigger] ops[i]);
            assert(spec_is_lparen(ops.drop_last()[i]));
        }
    }
}

/// A numeric token is no parenthesis and no operator.
pub proof fn lemma_numeric_not_symbol(t: Seq<char>)
    requires
        spec_is_numeric(t),
    ensures
        !spec_is_lparen(t),
        !spec_is_rparen(t),
        !spec_is_op(t),
{
    if t.len() == 1 {
        assert(t =~= seq![t[0]]);
        lemma_single_char_numeric(t[0]);
    }
}

/// Only opening parentheses and operators ever sit on the stack.
pub open spec fn lp_or_op(ops: Seq<Seq<char>>) -> bool {
    forall|i: int| 0 <= i < ops.len() ==> spec_is_lparen(#[trigger] ops[i]) || spec_is_op(ops[i])
}

proof fn lemma_drain(ops: Seq<Seq<char>>)
    ensures
        !has_lparen(drain_ops(ops).0),
        lp_count(drain_ops(ops).1) == if lp_count(ops) > 0 {
            lp_count(ops) - 1
        } else {
            0int
        },
        lp_or_op(ops) ==> (forall|i: int|
            0 <= i < drain_ops(ops).0.len() ==> spec_is_op(#[trigger] drain_ops(ops).0[i])),
        lp_or_op(ops) ==> lp_or_op(drain_ops(ops).1),
    decreases ops.len(),
{
    lemma_lp_count_nonneg(ops);
    lemma_lp_count_nonneg(ops.drop_last());
    if ops.len() == 0 {
    } else if spec_is_lparen(ops.last()) {
        if lp_or_op(ops) {
            assert forall|i: int|
                0 <= i < drain_ops(ops).1.len() implies spec_is_lparen(
                #[trigger] drain_ops(ops).1[i],
            ) || spec_is_op(drain_ops(ops).1[i]) by {
                assert(drain_ops(ops).1[i] == ops[i]);
            }
        }
    } else {
        if lp_or_op(ops) {
            assert forall|i: int|
                0 <= i < ops.drop_last().len() implies spec_is_lparen(
                #[trigger] ops.drop_last()[i],
            ) || spec_is_op(ops.drop_last()[i]) by {
                assert(ops.drop_last()[i] == ops[i]);
            }
        }
        lemma_drain(ops.drop_last());
        let (moved, rest) = drain_ops(ops.drop_last());
        let whole = seq![ops.last()] + moved;
        assert forall|i: int| 0 <= i < whole.len() implies !spec_is_lparen(#[trigger] whole[i]) by {
            if i > 0 {
                assert(whole[i] == moved[i - 1]);
            }
        }
        if lp_or_op(ops) {
            assert(spec_is_op(ops[ops.len() - 1]));
            assert forall|i: int| 0 <= i < whole.len() implies spec_is_op(#[trigger] whole[i]) by {
                if i > 0 {
                    assert(whole[i] == moved[i - 1]);
                }
            }
        }
    }
}

/// With every token recognized the yard never fails, the output queue
/// holds only numbers and operators, and the stack — operators and
/// opening parentheses — holds exactly the unmatched opening parentheses.
proof fn lemma_shunt_all_ok(ts: Seq<Seq<char>>)
    requires
        all_recognized(ts),
    ensures
        match shunt_run(ts) {
            Ok((out, ops)) => !has_lparen(out) && lp_count(ops) == open_count(ts) && lp_or_op(ops)
                && (forall|i: int|
                0 <= i < out.len() ==> spec_is_numeric(#[trigger] out[i]) || spec_is_op(out[i])),
            Err(_) => false,
        },
    decreases ts.len(),
{
    if ts.len() > 0 {
        let prefix = ts.drop_last();
        assert(all_recognized(prefix)) by {
            assert forall|i: int| 0 <= i < prefix.len() implies spec_is_recognized(
                #[trigger] prefix[i],
            ) by {
                assert(prefix[i] == ts[i]);
            }
        }
        lemma_shunt_all_ok(prefix);
        let (out, ops) = shunt_run(prefix)->Ok_0;
        let t = ts.last();
        assert(spec_is_recognized(ts[ts.len() - 1]));
        lemma_lp_count_nonneg(ops);
        if spec_is_numeric(t) {
            lemma_numeric_not_symbol(t);
            let out2 = out.push(t);
            assert forall|i: int| 0 <= i < out2.len() implies !spec_is_lparen(#[trigger] out2[i])
                && (spec_is_numeric(out2[i]) || spec_is_op(out2[i])) by {
                if i < out.len() {
                    assert(out2[i] == out[i]);
                }
            }
        } else if spec_is_lparen(t) {
            let ops2 = ops.push(t);
            assert(ops2.drop_last() =~= ops);
            assert forall|i: int| 0 <= i < ops2.len() implies spec_is_lparen(#[trigger] ops2[i])
                || spec_is_op(ops2[i]) by {
                if i < ops.len() {
                    assert(ops2[i] == ops[i]);
                }
            }
        } else if spec_is_rparen(t) {
            lemma_drain(ops);
            let (moved, rest) = drain_ops(ops);
            let out2 = out + moved;
            assert forall|i: int| 0 <= i < out2.len() implies !spec_is_lparen(#[trigger] out2[i])
                && (spec_is_numeric(out2[i]) || spec_is_op(out2[i])) by {
                if i < out.len() {
                    assert(out2[i] == out[i]);
                } else {
                    assert(out2[i] == moved[i - out.len()]);
                }
            }
        } else {
            assert(spec_is_op(t));
            let ops2 = ops.push(t);
            assert(ops2.drop_last() =~= ops);
            assert forall|i: int| 0 <= i < ops2.len() implies spec_is_lparen(#[trigger] ops2[i])
                || spec_is_op(ops2[i]) by {
                if i < ops.len() {
                    assert(ops2[i] == ops[i]);
                }
            }
        }
    }
}

/// A token no branch recognizes makes the whole run fail with
/// `InvalidOperator`.
proof fn lemma_unrecognized_err(ts: Seq<Seq<char>>)
    requires
        !all_recognized(ts),
    ensures
        shunt_run(ts) == Err::<(Seq<Seq<char>>, Seq<Seq<char>>), Error>(Error::InvalidOperator),
    decreases ts.len(),
{
    assert(ts.len() > 0);
    let prefix = ts.drop_last();
    if !all_recognized(prefix) {
        lemma_unrecognized_err(prefix);
    } else {
        lemma_shunt_all_ok(prefix);
        let j = choose|j: int| 0 <= j < ts.len() && !spec_is_recognized(#[trigger] ts[j]);
        if j < ts.len() - 1 {
            assert(spec_is_recognized(prefix[j]));
            assert(false);
        }
        assert(!spec_is_recognized(ts.last()));
    }
}

/// Unfolds one step of `shunt_run` over a growing prefix.
pub proof fn lemma_shunt_take_step(ts: Seq<Seq<char>>, i: int)
    requires
        0 <= i < ts.len(),
    ensures
        shunt_run(ts.take(i + 1)) == match shunt_run(ts.take(i)) {
            Ok(st) => shunt_step(st, ts[i]),
            Err(e) => Err(e),
        },
{
    assert(ts.take(i + 1).drop_last() =~= ts.take(i));
    assert(ts.take(i + 1).last() == ts[i]);
}

/// A failure on a prefix is the failure of the whole run.
pub proof fn lemma_shunt_err_persists(ts: Seq<Seq<char>>, i: int)
    requires
        0 <= i <= ts.len(),
        shunt_run(ts.take(i)) is Err,
    ensures
        shunt_run(ts) == shunt_run(ts.take(i)),
    decreases ts.len() - i,
{
    if i == ts.len() {
        assert(ts.take(i) =~= ts);
    } else {
        assert(ts.take(i + 1).drop_last() =~= ts.take(i));
        lemma_shunt_err_persists(ts, i + 1);
    }
}

proof fn lemma_open_count_nonneg(ts: Seq<Seq<char>>)
    ensures
        open_count(ts) >= 0,
    decreases ts.len(),
{
    if ts.len() > 0 {
        lemma_open_count_nonneg(ts.drop_last());
    }
}

/// Exactly when and how conversion fails:
/// - a token that is no number, operator or parenthesis: `InvalidOperator`;
/// - otherwise an opening parenthesis never matched by a later closing
///   one (the count is positive): `UnclosedParentheses`;
/// - otherwise the conversion succeeds.
pub proof fn lemma_convert_cases(ts: Seq<Seq<char>>)
    ensures
        open_count(ts) >= 0,
        !all_recognized(ts) ==> spec_convert_tokens(ts) == Err::<Seq<Seq<char>>, Error>(
            Error::InvalidOperator,
        ),
        all_recognized(ts) && open_count(ts) > 0 ==> spec_convert_tokens(ts) == Err::<
            Seq<Seq<char>>,
            Error,
        >(Error::UnclosedParentheses),
        all_recognized(ts) && open_count(ts) == 0 ==> spec_convert_tokens(ts) is Ok,
        all_recognized(ts) && open_count(ts) == 0 ==> (forall|i: int|
            0 <= i < spec_convert_tokens(ts)->Ok_0.len() ==> spec_is_numeric(
                #[trigger] spec_convert_tokens(ts)->Ok_0[i],
            ) || spec_is_op(spec_convert_tokens(ts)->Ok_0[i])),
{
    lemma_open_count_nonneg(ts);
    if !all_recognized(ts) {
        lemma_unrecognized_err(ts);
    } else {
        lemma_shunt_all_ok(ts);
        let (out, ops) = shunt_run(ts)->Ok_0;
        lemma_lp_count_nonneg(ops);
        let q = out + ops.reverse();
        if lp_count(ops) > 0 {
            let i = choose|i: int| 0 <= i < ops.len() && spec_is_lparen(#[trigger] ops[i]);
            assert(ops.reverse()[ops.len() - 1 - i] == ops[i]);
            assert(spec_is_lparen(q[out.len() + ops.len() - 1 - i]));
            assert(has_lparen(q));
        } else {
            assert forall|i: int| 0 <= i < q.len() implies !spec_is_lparen(#[trigger] q[i])
                && (spec_is_numeric(q[i]) || spec_is_op(q[i])) by {
                if i < out.len() {
                    assert(q[i] == out[i]);
                } else {
                    assert(q[i] == ops.reverse()[i - out.len()]);
                    assert(q[i] == ops[ops.len() - 1 - (i - out.len())]);
                    if spec_is_lparen(q[i]) {
                        assert(has_lparen(ops));
                    }
                }
            }
        }
    }
}

/// Round trip of the postfix string: joining tokens with single spaces
/// and splitting on whitespace again recovers exactly the same tokens.
pub proof fn lemma_join_split_roundtrip(q: Seq<Seq<char>>)
    requires
        forall|i: int| 0 <= i < q.len() ==> (#[trigger] q[i]).len() > 0,
        forall|i: int, k: int|
            0 <= i < q.len() && 0 <= k < q[i].len() ==> !spec_is_space(#[trigger] q[i][k]),
    ensures
        spec_tokens(spec_join(q)) == q,
    decreases q.len(),
{
    if q.len() == 0 {
        assert(spec_join(q) =~= Seq::<char>::empty());
        assert(spec_tokens(spec_join(q)) =~= q);
    } else if q.len() == 1 {
        crate::tokens::lemma_tokens_single(q[0]);
        assert(seq![q[0]] =~= q);
    } else {
        let front = q.drop_last();
        let s = spec_join(front);
        assert forall|i: int| 0 <= i < front.len() implies (#[trigger] front[i]).len() > 0 by {
            assert(front[i] == q[i]);
        }
        assert forall|i: int, k: int|
            0 <= i < front.len() && 0 <= k < front[i].len() implies !spec_is_space(
            #[trigger] front[i][k],
        ) by {
            assert(front[i] == q[i]);
        }
        lemma_join_split_roundtrip(front);
        crate::tokens::lemma_tok_scan_flush(s);
        crate::tokens::lemma_tok_scan_extend(s + seq![' '], q.last());
        assert(spec_join(q) =~= (s + seq![' ']) + q.last());
        assert(Seq::<char>::empty() + q.last() =~= q.last());
        assert(q.last().len() > 0);
        assert(spec_tokens(spec_join(q)) =~= spec_tokens(s).push(q.last()));
        assert(spec_tokens(s).push(q.last()) =~= q);
    }
}

} // verus!
