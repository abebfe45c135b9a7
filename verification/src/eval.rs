//! Postfix evaluation: a stack machine over IEEE-754 single-precision
//! values carried as their 32-bit encodings.  The machine's own logic —
//! token dispatch, stack discipline, the division-by-zero test, the error
//! cases — is verified; the arithmetic itself comes from the caller as
//! functions on encodings, and every answer those functions give is
//! treated as an oracle value here.

use vstd::prelude::*;

use crate::convert::has_lparen;
use crate::convert::lemma_numeric_not_symbol;
use crate::convert::shunt_run;
use crate::convert::spec_convert;
use crate::convert::spec_convert_tokens;
use crate::convert::spec_join;
use crate::parser::Error;
use crate::tokens::digit_run;
use crate::tokens::digits_between;
use crate::tokens::is_numeric_token;
use crate::tokens::lemma_numeric_no_space;
use crate::tokens::lemma_single_char_numeric;
use crate::tokens::lemma_tokens_single;
use crate::tokens::mantissa_between;
use crate::tokens::numeric_between;
use crate::tokens::single_char;
use crate::tokens::spec_is_digit;
use crate::tokens::spec_is_div;
use crate::tokens::spec_is_lparen;
use crate::tokens::spec_is_numeric;
use crate::tokens::spec_is_op;
use crate::tokens::spec_is_rparen;
use crate::tokens::spec_tokens;
use crate::tokens::split_tokens;

verus! {

/// The 32-bit encodings of single-precision zero — plus and minus zero —
/// the exact values the division test rejects.
pub open spec fn spec_zero_bits(v: u32) -> bool {
    v == 0u32 || v == 0x8000_0000u32
}

/// The zero literals: the tokens `0` and `0.0`.
pub open spec fn spec_is_zero_literal(t: Seq<char>) -> bool {
    t == seq!['0'] || t == seq!['0', '.', '0']
}

/// A token the evaluator accepts: a numeric literal or an operator.
pub open spec fn eval_tok_ok(t: Seq<char>) -> bool {
    spec_is_numeric(t) || spec_is_op(t)
}

/// Net growth of the value stack over `ts`: a number pushes one value;
/// every other token pops its two operands first, then pushes one result.
pub open spec fn end_depth(ts: Seq<Seq<char>>) -> int
    decreases ts.len(),
{
    if ts.len() == 0 {
        0int
    } else {
        end_depth(ts.drop_last()) + if spec_is_numeric(ts.last()) {
            1int
        } else {
            -1int
        }
    }
}

/// The postfix sequence keeps the machine's stack safe: every non-numeric
/// token finds its two operands, and exactly one value remains at the
/// end.  On anything else a bare stack machine would fault; such input is
/// outside this evaluator's contract.
pub open spec fn stack_safe(ts: Seq<Seq<char>>) -> bool {
    end_depth(ts) == 1 && forall|i: int|
        0 <= i < ts.len() && !spec_is_numeric(#[trigger] ts[i]) ==> end_depth(ts.take(i)) >= 2
}

/// The machine after the whole sequence, where the value pushed by step
/// `i` is drawn from the oracle `vals[i]`: a numeric token pushes its
/// parsed value, an operator pops `b` then `a` and pushes the result of
/// the arithmetic — which value each of those is, the caller's functions
/// decide, so they stand as oracle entries.  A division whose right
/// operand is an encoding of zero stops with `DivisionByZero`; a token
/// that is neither a number nor one of the five operators stops with
/// `InvalidExpression`.
pub open spec fn eval_steps(ts: Seq<Seq<char>>, vals: Seq<u32>) -> Result<Seq<u32>, Error>
    decreases ts.len(),
{
    if ts.len() == 0 {
        Ok(Seq::empty())
    } else {
        match eval_steps(ts.drop_last(), vals) {
            Err(e) => Err(e),
            Ok(stack) => {
                let t = ts.last();
                let v = vals[ts.len() - 1];
                if spec_is_numeric(t) {
                    Ok(stack.push(v))
                } else {
                    let b = stack.last();
                    let rest = stack.drop_last().drop_last();
                    if spec_is_op(t) {
                        if spec_is_div(t) && spec_zero_bits(b) {
                            Err(Error::DivisionByZero)
                        } else {
                            Ok(rest.push(v))
                        }
                    } else {
                        Err(Error::InvalidExpression)
                    }
                }
            },
        }
    }
}

/// The machine's final answer: the one value left on the stack.
pub open spec fn eval_result(ts: Seq<Seq<char>>, vals: Seq<u32>) -> Result<u32, Error> {
    match eval_steps(ts, vals) {
        Ok(stack) => Ok(stack[0]),
        Err(e) => Err(e),
    }
}

/// The parsing function sends the zero literals to encodings of zero.
pub open spec fn parse_zero_respecting<P: Fn(&str) -> u32>(parse: P) -> bool {
    forall|t: &str, v: u32|
        #[trigger] call_ensures(parse, (t,), v) && spec_is_zero_literal(t@) ==> spec_zero_bits(v)
}

/// A three-token postfix division whose right operand is a zero literal.
pub open spec fn div_triple(ts: Seq<Seq<char>>) -> bool {
    ts.len() == 3 && spec_is_numeric(ts[0]) && spec_is_zero_literal(ts[1]) && spec_is_div(ts[2])
}

// ---------------------------------------------------------------------------
// Facts about the machine
// ---------------------------------------------------------------------------

/// The zero literals are numeric literals.
pub proof fn lemma_zero_literal_numeric(t: Seq<char>)
    requires
        spec_is_zero_literal(t),
    ensures
        spec_is_numeric(t),
{
    if t == seq!['0'] {
        assert(spec_is_digit(t[0]));
        assert(digit_run(t, 0, 1));
        assert(numeric_between(t, 0, 1));
    } else {
        assert(t == seq!['0', '.', '0']);
        assert(t[1] == '.');
        assert(spec_is_digit(t[0]) && spec_is_digit(t[2]));
        assert(digits_between(t, 0, 1) && digits_between(t, 2, 3));
        assert(mantissa_between(t, 0, 3));
        assert(numeric_between(t, 0, 3));
    }
}

/// The machine reads only the oracle entries at its own positions.
proof fn lemma_eval_steps_agree(ts: Seq<Seq<char>>, v1: Seq<u32>, v2: Seq<u32>)
    requires
        forall|k: int| 0 <= k < ts.len() ==> v1[k] == v2[k],
    ensures
        eval_steps(ts, v1) == eval_steps(ts, v2),
    decreases ts.len(),
{
    if ts.len() > 0 {
        lemma_eval_steps_agree(ts.drop_last(), v1, v2);
    }
}

/// A failure on a prefix is the failure of the whole run.
proof fn lemma_eval_err_persists(ts: Seq<Seq<char>>, vals: Seq<u32>, i: int)
    requires
        0 <= i <= ts.len(),
        eval_steps(ts.take(i), vals) is Err,
    ensures
        eval_steps(ts, vals) == eval_steps(ts.take(i), vals),
    decreases ts.len() - i,
{
    if i == ts.len() {
        assert(ts.take(i) =~= ts);
    } else {
        assert(ts.take(i + 1).drop_last() =~= ts.take(i));
        lemma_eval_err_persists(ts, vals, i + 1);
    }
}

/// With every token a number or an operator and no division present, the
/// machine cannot fail, whatever the oracle holds.
pub proof fn lemma_eval_no_div_ok(ts: Seq<Seq<char>>, vals: Seq<u32>)
    requires
        forall|i: int| 0 <= i < ts.len() ==> eval_tok_ok(#[trigger] ts[i]),
        forall|i: int| 0 <= i < ts.len() ==> !spec_is_div(#[trigger] ts[i]),
    ensures
        eval_steps(ts, vals) is Ok,
    decreases ts.len(),
{
    if ts.len() > 0 {
        let prefix = ts.drop_last();
        assert forall|i: int| 0 <= i < prefix.len() implies eval_tok_ok(#[trigger] prefix[i])
            && !spec_is_div(prefix[i]) by {
            assert(prefix[i] == ts[i]);
        }
        lemma_eval_no_div_ok(prefix, vals);
        assert(eval_tok_ok(ts[ts.len() - 1]));
        assert(!spec_is_div(ts[ts.len() - 1]));
    }
}

/// A token that is neither a number nor an operator dooms the run,
/// whatever the oracle holds.
pub proof fn lemma_eval_unknown_err(ts: Seq<Seq<char>>, vals: Seq<u32>)
    requires
        exists|i: int| 0 <= i < ts.len() && !eval_tok_ok(#[trigger] ts[i]),
    ensures
        eval_steps(ts, vals) is Err,
    decreases ts.len(),
{
    let i = choose|i: int| 0 <= i < ts.len() && !eval_tok_ok(#[trigger] ts[i]);
    if i < ts.len() - 1 {
        assert(ts.drop_last()[i] == ts[i]);
        lemma_eval_unknown_err(ts.drop_last(), vals);
    } else {
        assert(!spec_is_numeric(ts.last()));
        assert(!spec_is_op(ts.last()));
    }
}

// ---------------------------------------------------------------------------
// The executable machine
// ---------------------------------------------------------------------------

/// Decides `stack_safe` for a postfix string: whether the machine can run
/// it without its value stack running dry.
pub fn can_eval_postfix(postfix: &str) -> (r: bool)
    ensures
        r == stack_safe(spec_tokens(postfix@)),
{
    let toks = split_tokens(postfix);
    let ghost tsv = toks.deep_view();
    let mut depth: usize = 0;
    let mut i: usize = 0;
    proof {
        assert(tsv.take(0) =~= Seq::<Seq<char>>::empty());
    }
    while i < toks.len()
        invariant
            tsv == toks.deep_view(),
            tsv == spec_tokens(postfix@),
            i <= toks.len(),
            depth <= i,
            end_depth(tsv.take(i as int)) == depth as int,
            forall|x: int|
                0 <= x < i && !spec_is_numeric(#[trigger] tsv[x]) ==> end_depth(tsv.take(x)) >= 2,
        decreases toks.len() - i,
    {
        proof {
            assert(tsv.take(i + 1).drop_last() =~= tsv.take(i as int));
            assert(tsv.take(i + 1).last() == tsv[i as int]);
        }
        let t = &toks[i];
        proof {
            assert(t@ == tsv[i as int]);
        }
        if is_numeric_token(t.as_str()) {
            depth += 1;
        } else {
            if depth >= 2 {
                depth -= 1;
            } else {
                proof {
                    assert(!spec_is_numeric(tsv[i as int]));
                    assert(!stack_safe(tsv));
                }
                return false;
            }
        }
        i += 1;
    }
    proof {
        assert(tsv.take(toks.len() as int) =~= tsv);
    }
    depth == 1
}

/// Runs the machine over a postfix string.  `parse` turns a numeric
/// literal into the encoding of its value; `apply` carries out one
/// arithmetic step on two encodings, given the operator's character.
/// The result is the machine run with exactly the answers those functions
/// gave, so it equals `eval_result` for some oracle; the clauses below
/// pin down everything that does not depend on the arithmetic.
pub fn eval_postfix_with<P: Fn(&str) -> u32, A: Fn(char, u32, u32) -> u32>(
    postfix: &str,
    parse: P,
    apply: A,
) -> (r: Result<u32, Error>)
    requires
        forall|t: &str| #[trigger] call_requires(parse, (t,)),
        forall|args: (char, u32, u32)| #[trigger] call_requires(apply, args),
        stack_safe(spec_tokens(postfix@)),
    ensures
        exists|vals: Seq<u32>| #[trigger] eval_result(spec_tokens(postfix@), vals) == r,
        ((forall|i: int|
            0 <= i < spec_tokens(postfix@).len() ==> eval_tok_ok(
                #[trigger] spec_tokens(postfix@)[i],
            )) && (forall|i: int|
            0 <= i < spec_tokens(postfix@).len() ==> !spec_is_div(
                #[trigger] spec_tokens(postfix@)[i],
            ))) ==> r is Ok,
        (exists|i: int|
            0 <= i < spec_tokens(postfix@).len() && !eval_tok_ok(
                #[trigger] spec_tokens(postfix@)[i],
            )) ==> r is Err,
        (spec_tokens(postfix@).len() == 1 && spec_is_numeric(spec_tokens(postfix@)[0])) ==> (r
            is Ok && exists|t: &str|
            t@ == spec_tokens(postfix@)[0] && #[trigger] call_ensures(parse, (t,), r->Ok_0)),
        (parse_zero_respecting(parse) && div_triple(spec_tokens(postfix@))) ==> r == Err::<
            u32,
            Error,
        >(Error::DivisionByZero),
        r is Err ==> (r == Err::<u32, Error>(Error::DivisionByZero) || r == Err::<u32, Error>(
            Error::InvalidExpression,
        )),
        r == Err::<u32, Error>(Error::InvalidExpression) ==> (exists|i: int|
            0 <= i < spec_tokens(postfix@).len() && !eval_tok_ok(
                #[trigger] spec_tokens(postfix@)[i],
            )),
        r == Err::<u32, Error>(Error::DivisionByZero) ==> (exists|i: int|
            0 <= i < spec_tokens(postfix@).len() && spec_is_div(
                #[trigger] spec_tokens(postfix@)[i],
            )),
{
    let toks = split_tokens(postfix);
    let ghost tsv = toks.deep_view();
    let mut stack: Vec<u32> = Vec::new();
    let ghost mut past: Seq<u32> = Seq::empty();
    let mut i: usize = 0;
    proof {
        assert(tsv.take(0) =~= Seq::<Seq<char>>::empty());
        assert(stack@ =~= Seq::<u32>::empty());
    }
    while i < toks.len()
        invariant
            tsv == toks.deep_view(),
            tsv == spec_tokens(postfix@),
            i <= toks.len(),
            past.len() == i,
            forall|t: &str| #[trigger] call_requires(parse, (t,)),
            forall|args: (char, u32, u32)| #[trigger] call_requires(apply, args),
            stack_safe(tsv),
            eval_steps(tsv.take(i as int), past) == Ok::<Seq<u32>, Error>(stack@),
            stack@.len() == end_depth(tsv.take(i as int)),
            (tsv.len() == 1 && spec_is_numeric(tsv[0]) && i == 1) ==> (stack@.len() == 1
                && exists|t: &str|
                t@ == tsv[0] && #[trigger] call_ensures(parse, (t,), stack@[0])),
            (parse_zero_respecting(parse) && div_triple(tsv)) ==> i <= 2,
            (parse_zero_respecting(parse) && div_triple(tsv) && i == 2) ==> (stack@.len() == 2
                && spec_zero_bits(stack@[1])),
        decreases toks.len() - i,
    {
        proof {
            assert(tsv.take(i + 1).drop_last() =~= tsv.take(i as int));
            assert(tsv.take(i + 1).last() == tsv[i as int]);
        }
        let t = &toks[i];
        proof {
            assert(t@ == tsv[i as int]);
        }
        let tstr = t.as_str();
        if is_numeric_token(tstr) {
            let v = parse(tstr);
            let ghost pre = past;
            stack.push(v);
            proof {
                past = past.push(v);
                lemma_eval_steps_agree(tsv.take(i as int), pre, past);
                assert(past[i as int] == v);
                assert(eval_steps(tsv.take(i + 1), past) == Ok::<Seq<u32>, Error>(stack@));
                if tsv.len() == 1 && i == 0 {
                    assert(tstr@ == tsv[0]);
                    assert(call_ensures(parse, (tstr,), v));
                    assert(stack@[0] == v);
                }
                if parse_zero_respecting(parse) && div_triple(tsv) {
                    if i == 1 {
                        assert(spec_is_zero_literal(tstr@));
                        assert(spec_zero_bits(v));
                        assert(stack@[1] == v);
                    }
                    if i == 2 {
                        assert(tsv[i as int] =~= seq![tsv[i as int][0]]);
                        lemma_single_char_numeric(tsv[i as int][0]);
                        assert(false);
                    }
                }
            }
        } else {
            proof {
                assert(!spec_is_numeric(tsv[i as int]));
                assert(end_depth(tsv.take(i as int)) >= 2);
                if parse_zero_respecting(parse) && div_triple(tsv) {
                    lemma_zero_literal_numeric(tsv[1]);
                }
            }
            let b = match stack.pop() {
                Some(x) => x,
                None => unreached(),
            };
            let a = match stack.pop() {
                Some(x) => x,
                None => unreached(),
            };
            let mut opchar: char = ' ';
            let mut known = false;
            match single_char(tstr) {
                Some(ch) => {
                    if ch == '+' || ch == '-' || ch == '*' || ch == '/' || ch == '^' {
                        opchar = ch;
                        known = true;
                    }
                },
                None => {},
            }
            if !known {
                proof {
                    assert(!spec_is_op(tsv[i as int]));
                    assert(!eval_tok_ok(tsv[i as int]));
                    assert(eval_steps(tsv.take(i + 1), past) == Err::<Seq<u32>, Error>(
                        Error::InvalidExpression,
                    ));
                    lemma_eval_err_persists(tsv, past, i + 1);
                    assert(eval_result(tsv, past) == Err::<u32, Error>(Error::InvalidExpression));
                }
                return Err(Error::InvalidExpression);
            }
            if opchar == '/' && (b == 0 || b == 0x8000_0000) {
                proof {
                    assert(spec_is_div(tsv[i as int]));
                    assert(eval_steps(tsv.take(i + 1), past) == Err::<Seq<u32>, Error>(
                        Error::DivisionByZero,
                    ));
                    lemma_eval_err_persists(tsv, past, i + 1);
                    assert(eval_result(tsv, past) == Err::<u32, Error>(Error::DivisionByZero));
                }
                return Err(Error::DivisionByZero);
            }
            let v = apply(opchar, a, b);
            let ghost pre = past;
            let ghost pre_stack = stack@;
            stack.push(v);
            proof {
                past = past.push(v);
                lemma_eval_steps_agree(tsv.take(i as int), pre, past);
                assert(past[i as int] == v);
                assert(stack@ =~= pre_stack.push(v));
                if parse_zero_respecting(parse) && div_triple(tsv) {
                    assert(false);
                }
                assert(eval_steps(tsv.take(i + 1), past) == Ok::<Seq<u32>, Error>(stack@));
            }
        }
        i += 1;
    }
    proof {
        assert(tsv.take(toks.len() as int) =~= tsv);
    }
    let result = stack[0];
    proof {
        assert(eval_result(tsv, past) == Ok::<u32, Error>(result));
        if exists|i: int| 0 <= i < tsv.len() && !eval_tok_ok(#[trigger] tsv[i]) {
            lemma_eval_unknown_err(tsv, past);
            assert(false);
        }
        if tsv.len() == 1 && spec_is_numeric(tsv[0]) {
            assert(i == 1);
            let t0 = choose|t0: &str|
                t0@ == tsv[0] && #[trigger] call_ensures(parse, (t0,), stack@[0]);
            assert(result == stack@[0]);
            assert(Ok::<u32, Error>(result)->Ok_0 == result);
            assert(call_ensures(parse, (t0,), Ok::<u32, Error>(result)->Ok_0));
            assert(exists|t: &str|
                t@ == tsv[0] && #[trigger] call_ensures(parse, (t,), Ok::<u32, Error>(
                    result,
                )->Ok_0));
        }
    }
    Ok(result)
}

// ---------------------------------------------------------------------------
// Laws
// ---------------------------------------------------------------------------

/// A single numeric literal: conversion is the identity on it, the
/// resulting one-token postfix sequence is safe to run, and the machine
/// returns exactly the value the literal was parsed to — the first
/// oracle entry.
pub proof fn lemma_single_literal_identity(t: Seq<char>, vals: Seq<u32>)
    requires
        spec_is_numeric(t),
        vals.len() >= 1,
    ensures
        spec_convert(t) == Ok::<Seq<char>, Error>(t),
        stack_safe(seq![t]),
        eval_result(seq![t], vals) == Ok::<u32, Error>(vals[0]),
{
    reveal_with_fuel(shunt_run, 3);
    reveal_with_fuel(end_depth, 3);
    reveal_with_fuel(eval_steps, 3);
    reveal_with_fuel(spec_join, 3);
    lemma_numeric_no_space(t);
    lemma_tokens_single(t);
    lemma_numeric_not_symbol(t);
    let ts = seq![t];
    assert(ts.drop_last() =~= Seq::<Seq<char>>::empty());
    assert(shunt_run(ts) == Ok::<(Seq<Seq<char>>, Seq<Seq<char>>), Error>(
        (Seq::<Seq<char>>::empty().push(t), Seq::<Seq<char>>::empty()),
    ));
    let out = Seq::<Seq<char>>::empty().push(t);
    let q = out + Seq::<Seq<char>>::empty().reverse();
    assert(q =~= ts);
    assert(!has_lparen(q)) by {
        if has_lparen(q) {
            let i = choose|i: int| 0 <= i < q.len() && spec_is_lparen(#[trigger] q[i]);
            assert(q[i] == t);
        }
    }
    assert(spec_convert_tokens(ts) == Ok::<Seq<Seq<char>>, Error>(q));
    assert(spec_join(q) == t);
    assert(end_depth(ts) == 1);
    assert forall|i: int|
        0 <= i < ts.len() && !spec_is_numeric(#[trigger] ts[i]) implies end_depth(ts.take(i))
        >= 2 by {
        assert(ts[i] == t);
    }
    assert(eval_steps(ts, vals) == Ok::<Seq<u32>, Error>(Seq::<u32>::empty().push(vals[0])));
    assert(Seq::<u32>::empty().push(vals[0])[0] == vals[0]);
}

/// Dividing by the literal `0` or `0.0`: the infix tokens `a / z`
/// convert to the postfix triple `a z /`, which is safe to run and which
/// the machine — under any parsing function that sends the zero literals
/// to encodings of zero — refuses with `DivisionByZero`.
pub proof fn lemma_divide_by_zero_literal(a: Seq<char>, z: Seq<char>)
    requires
        spec_is_numeric(a),
        spec_is_zero_literal(z),
    ensures
        spec_convert_tokens(seq![a, seq!['/'], z]) == Ok::<Seq<Seq<char>>, Error>(
            seq![a, z, seq!['/']],
        ),
        div_triple(seq![a, z, seq!['/']]),
        stack_safe(seq![a, z, seq!['/']]),
{
    reveal_with_fuel(shunt_run, 5);
    reveal_with_fuel(end_depth, 5);
    lemma_zero_literal_numeric(z);
    let slash = seq!['/'];
    lemma_single_char_numeric('/');
    assert(slash =~= seq![slash[0]]);
    assert(!spec_is_numeric(slash));
    lemma_numeric_not_symbol(a);
    lemma_numeric_not_symbol(z);
    let ts = seq![a, slash, z];
    assert(ts.drop_last() =~= seq![a, slash]);
    assert(seq![a, slash].drop_last() =~= seq![a]);
    assert(seq![a].drop_last() =~= Seq::<Seq<char>>::empty());
    assert(spec_is_op(slash));
    assert(!spec_is_lparen(slash) && !spec_is_rparen(slash));
    let e = Seq::<Seq<char>>::empty();
    assert(shunt_run(seq![a]) == Ok::<(Seq<Seq<char>>, Seq<Seq<char>>), Error>(
        (e.push(a), e),
    ));
    assert(shunt_run(seq![a, slash]) == Ok::<(Seq<Seq<char>>, Seq<Seq<char>>), Error>(
        (e.push(a), e.push(slash)),
    ));
    assert(shunt_run(ts) == Ok::<(Seq<Seq<char>>, Seq<Seq<char>>), Error>(
        (e.push(a).push(z), e.push(slash)),
    ));
    let out = e.push(a).push(z);
    let ops = e.push(slash);
    let q = out + ops.reverse();
    assert(ops.reverse().len() == 1);
    assert(ops.reverse()[0] == slash);
    assert(q =~= seq![a, z, slash]);
    assert(!has_lparen(q)) by {
        if has_lparen(q) {
            let i = choose|i: int| 0 <= i < q.len() && spec_is_lparen(#[trigger] q[i]);
        }
    }
    assert(spec_convert_tokens(ts) == Ok::<Seq<Seq<char>>, Error>(q));
    let p = seq![a, z, slash];
    assert(p.drop_last() =~= seq![a, z]);
    assert(seq![a, z].drop_last() =~= seq![a]);
    assert(end_depth(p) == 1);
    assert forall|i: int|
        0 <= i < p.len() && !spec_is_numeric(#[trigger] p[i]) implies end_depth(p.take(i))
        >= 2 by {
        assert(i == 2);
        assert(p.take(2) =~= seq![a, z]);
    }
}

} // verus!
