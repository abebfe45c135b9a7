//! The expression engine: a `Parser` owns one infix expression and the
//! postfix (reverse Polish) form derived from it once, at construction.

use vstd::prelude::*;

use crate::convert::all_recognized;
use crate::convert::drain_ops;
use crate::convert::has_lparen;
use crate::convert::lemma_convert_cases;
use crate::convert::lemma_join_split_roundtrip;
use crate::convert::lemma_shunt_err_persists;
use crate::convert::lemma_shunt_take_step;
use crate::convert::open_count;
use crate::convert::shunt_run;
use crate::convert::spec_convert;
use crate::convert::spec_convert_tokens;
use crate::convert::spec_join;
use crate::convert::spec_precedence;
use crate::eval::can_eval_postfix;
use crate::eval::div_triple;
use crate::eval::eval_postfix_with;
use crate::eval::eval_result;
use crate::eval::eval_tok_ok;
use crate::eval::parse_zero_respecting;
use crate::eval::stack_safe;
use crate::tokens::is_numeric_token;
use crate::tokens::lemma_numeric_no_space;
use crate::tokens::spec_is_div;
use crate::tokens::spec_is_space;
use crate::tokens::single_char;
use crate::tokens::spec_is_lparen;
use crate::tokens::spec_is_numeric;
use crate::tokens::spec_is_op;
use crate::tokens::spec_is_rparen;
use crate::tokens::spec_tokens;
use crate::tokens::split_tokens;

verus! {

/// The error kinds of the engine.
/// `InvalidExpression`: evaluation met a token that is neither a number
/// nor a recognized operator.
/// `UnclosedParentheses`: an opening parenthesis was never closed.
/// `InvalidOperator`: a precedence was requested for an unrecognized
/// symbol during conversion.
/// `DivisionByZero`: the right operand of a division was exactly zero.
#[derive(Clone, Copy, Debug, PartialEq, Eq, Structural)]
pub enum Error {
    InvalidExpression,
    UnclosedParentheses,
    InvalidOperator,
    DivisionByZero,
}

/// Parses mathematical expressions from strings, converts them to their
/// postfix notation and evaluates them.
pub struct Parser {
    expr: String,
    postfix: String,
}

impl Parser {
    /// The stored infix expression.
    pub closed spec fn expr_view(&self) -> Seq<char> {
        self.expr@
    }

    /// The stored postfix sequence, as one space-joined string.
    pub closed spec fn postfix_view(&self) -> Seq<char> {
        self.postfix@
    }

    /// The stored postfix string is exactly the conversion of the stored
    /// expression: every parser ever constructed satisfies this.
    pub open spec fn wf(&self) -> bool {
        spec_convert(self.expr_view()) == Ok::<Seq<char>, Error>(self.postfix_view())
    }

    /// Returns a new `Parser` holding `expr` and its postfix conversion,
    /// or the conversion's error.  Construction succeeds exactly when
    /// every token is recognized and no opening parenthesis is left
    /// unmatched.
    pub fn new(expr: String) -> (r: Result<Self, Error>)
        ensures
            match r {
                Ok(p) => p.wf() && p.expr_view() == expr@ && spec_convert(expr@) == Ok::<
                    Seq<char>,
                    Error,
                >(p.postfix_view()),
                Err(e) => spec_convert(expr@) == Err::<Seq<char>, Error>(e),
            },
            r is Ok <==> all_recognized(spec_tokens(expr@)) && open_count(spec_tokens(expr@))
                == 0,
            !all_recognized(spec_tokens(expr@)) ==> r == Err::<Parser, Error>(
                Error::InvalidOperator,
            ),
            all_recognized(spec_tokens(expr@)) && open_count(spec_tokens(expr@)) > 0 ==> r
                == Err::<Parser, Error>(Error::UnclosedParentheses),
    {
        let postfix = match Self::shunting_yard(expr.clone()) {
            Ok(p) => p,
            Err(e) => {
                return Err(e);
            },
        };
        Ok(Parser { expr, postfix })
    }

    /// Returns the expression in infix notation.
    pub fn get_expr(&self) -> (r: &String)
        ensures
            r@ == self.expr_view(),
    {
        &self.expr
    }

    /// Returns the expression in postfix notation.
    pub fn get_postfix(&self) -> (r: &String)
        ensures
            r@ == self.postfix_view(),
    {
        &self.postfix
    }

    /// Returns operator precedence, or an error on an unknown operator.
    pub fn get_precedence(operator: String) -> (r: Result<i32, Error>)
        ensures
            r == spec_precedence(operator@),
    {
        match single_char(operator.as_str()) {
            Some(c) => {
                if c == '+' || c == '-' {
                    Ok(2)
                } else if c == '*' || c == '/' {
                    Ok(1)
                } else if c == '^' {
                    Ok(3)
                } else if c == '(' || c == ')' {
                    Ok(0)
                } else {
                    Err(Error::InvalidOperator)
                }
            },
            None => Err(Error::InvalidOperator),
        }
    }

    /// Parses infix to postfix by the shunting-yard pass: numbers go
    /// straight to the output, operators and opening parentheses are
    /// stacked, a closing parenthesis drains the stack to its opening
    /// partner, and whatever remains is flushed in reverse at the end.
    pub fn shunting_yard(expr: String) -> (r: Result<String, Error>)
        ensures
            match r {
                Ok(p) => spec_convert(expr@) == Ok::<Seq<char>, Error>(p@),
                Err(e) => spec_convert(expr@) == Err::<Seq<char>, Error>(e),
            },
            r is Ok <==> all_recognized(spec_tokens(expr@)) && open_count(spec_tokens(expr@))
                == 0,
            !all_recognized(spec_tokens(expr@)) ==> r == Err::<String, Error>(
                Error::InvalidOperator,
            ),
            all_recognized(spec_tokens(expr@)) && open_count(spec_tokens(expr@)) > 0 ==> r
                == Err::<String, Error>(Error::UnclosedParentheses),
    {
        let toks = split_tokens(expr.as_str());
        let ghost tsv = toks.deep_view();
        proof {
            lemma_convert_cases(tsv);
        }
        let mut out: Vec<String> = Vec::new();
        let mut ops: Vec<String> = Vec::new();
        let mut i: usize = 0;
        proof {
            assert(tsv.take(0) =~= Seq::<Seq<char>>::empty());
            assert(out.deep_view() =~= Seq::<Seq<char>>::empty());
            assert(ops.deep_view() =~= Seq::<Seq<char>>::empty());
        }
        while i < toks.len()
            invariant
                tsv == toks.deep_view(),
                tsv == spec_tokens(expr@),
                i <= toks.len(),
                shunt_run(tsv.take(i as int)) == Ok::<(Seq<Seq<char>>, Seq<Seq<char>>), Error>(
                    (out.deep_view(), ops.deep_view()),
                ),
            decreases toks.len() - i,
        {
            proof {
                lemma_shunt_take_step(tsv, i as int);
            }
            let t = &toks[i];
            proof {
                assert(t@ == tsv[i as int]);
            }
            let ghost old_out = out.deep_view();
            let ghost old_ops = ops.deep_view();
            if is_numeric_token(t.as_str()) {
                out.push(t.clone());
                proof {
                    assert(out.deep_view() =~= old_out.push(tsv[i as int]));
                    assert(shunt_run(tsv.take(i + 1)) == Ok::<
                        (Seq<Seq<char>>, Seq<Seq<char>>),
                        Error,
                    >((out.deep_view(), ops.deep_view())));
                }
            } else {
                let c_opt = single_char(t.as_str());
                let mut handled = false;
                if let Some(c) = c_opt {
                    if c == '(' {
                        ops.push(t.clone());
                        handled = true;
                        proof {
                            assert(ops.deep_view() =~= old_ops.push(tsv[i as int]));
                            assert(shunt_run(tsv.take(i + 1)) == Ok::<
                                (Seq<Seq<char>>, Seq<Seq<char>>),
                                Error,
                            >((out.deep_view(), ops.deep_view())));
                        }
                    } else if c == ')' {
                        let ghost entry_out = out.deep_view();
                        let ghost entry_ops = ops.deep_view();
                        proof {
                            assert(out.deep_view().skip(entry_out.len() as int) =~= Seq::<
                                Seq<char>,
                            >::empty());
                            assert(out.deep_view().take(entry_out.len() as int) =~= entry_out);
                            assert(Seq::<Seq<char>>::empty() + drain_ops(entry_ops).0
                                =~= drain_ops(entry_ops).0);
                        }
                        let mut draining = true;
                        while draining
                            invariant
                                draining ==> drain_ops(entry_ops).0 == out.deep_view().skip(
                                    entry_out.len() as int,
                                ) + drain_ops(ops.deep_view()).0,
                                draining ==> drain_ops(entry_ops).1 == drain_ops(
                                    ops.deep_view(),
                                ).1,
                                !draining ==> out.deep_view() == entry_out + drain_ops(
                                    entry_ops,
                                ).0,
                                !draining ==> drain_ops(entry_ops).1 == (
                                if ops.deep_view().len() == 0 {
                                    Seq::<Seq<char>>::empty()
                                } else {
                                    ops.deep_view().drop_last()
                                }),
                                out.deep_view().len() >= entry_out.len(),
                                out.deep_view().take(entry_out.len() as int) == entry_out,
                            decreases (if draining {
                                1int
                            } else {
                                0int
                            }), ops.len(),
                        {
                            if ops.len() == 0 {
                                proof {
                                    assert(ops.deep_view() =~= Seq::<Seq<char>>::empty());
                                    assert(out.deep_view().skip(entry_out.len() as int) + Seq::<
                                        Seq<char>,
                                    >::empty() =~= out.deep_view().skip(entry_out.len() as int));
                                    assert(out.deep_view() =~= out.deep_view().take(
                                        entry_out.len() as int,
                                    ) + out.deep_view().skip(entry_out.len() as int));
                                }
                                draining = false;
                            } else {
                                let top_lp = match single_char(ops[ops.len() - 1].as_str()) {
                                    Some(ch) => ch == '(',
                                    None => false,
                                };
                                proof {
                                    assert(ops.deep_view().last() == ops@[ops@.len() - 1]@);
                                }
                                if top_lp {
                                    proof {
                                        assert(spec_is_lparen(ops.deep_view().last()));
                                        assert(out.deep_view().skip(entry_out.len() as int) + Seq::<
                                            Seq<char>,
                                        >::empty() =~= out.deep_view().skip(
                                            entry_out.len() as int,
                                        ));
                                        assert(out.deep_view() =~= out.deep_view().take(
                                            entry_out.len() as int,
                                        ) + out.deep_view().skip(entry_out.len() as int));
                                    }
                                    draining = false;
                                } else {
                                    proof {
                                        assert(!spec_is_lparen(ops.deep_view().last()));
                                    }
                                    let ghost pre_ops = ops.deep_view();
                                    let ghost pre_out = out.deep_view();
                                    if let Some(x) = ops.pop() {
                                        out.push(x);
                                    }
                                    proof {
                                        assert(ops.deep_view() =~= pre_ops.drop_last());
                                        assert(out.deep_view() =~= pre_out.push(pre_ops.last()));
                                        assert(out.deep_view().skip(entry_out.len() as int)
                                            =~= pre_out.skip(entry_out.len() as int).push(
                                            pre_ops.last(),
                                        ));
                                        assert(pre_out.skip(entry_out.len() as int).push(
                                            pre_ops.last(),
                                        ) + drain_ops(pre_ops.drop_last()).0 =~= pre_out.skip(
                                            entry_out.len() as int,
                                        ) + (seq![pre_ops.last()] + drain_ops(
                                            pre_ops.drop_last(),
                                        ).0));
                                        assert(out.deep_view().take(entry_out.len() as int)
                                            =~= entry_out);
                                    }
                                }
                            }
                        }
                        if ops.len() > 0 {
                            let ghost pre_ops = ops.deep_view();
                            let _ = ops.pop();
                            proof {
                                assert(ops.deep_view() =~= pre_ops.drop_last());
                            }
                        } else {
                            proof {
                                assert(ops.deep_view() =~= Seq::<Seq<char>>::empty());
                            }
                        }
                        handled = true;
                        proof {
                            assert(spec_is_rparen(tsv[i as int]));
                            assert(ops.deep_view() == drain_ops(entry_ops).1);
                            assert(shunt_run(tsv.take(i + 1)) == Ok::<
                                (Seq<Seq<char>>, Seq<Seq<char>>),
                                Error,
                            >((out.deep_view(), ops.deep_view())));
                        }
                    } else if c == '+' || c == '-' || c == '*' || c == '/' || c == '^' {
                        ops.push(t.clone());
                        handled = true;
                        proof {
                            assert(spec_is_op(tsv[i as int]));
                            assert(ops.deep_view() =~= old_ops.push(tsv[i as int]));
                            assert(shunt_run(tsv.take(i + 1)) == Ok::<
                                (Seq<Seq<char>>, Seq<Seq<char>>),
                                Error,
                            >((out.deep_view(), ops.deep_view())));
                        }
                    }
                }
                if !handled {
                    // An unrecognized token: the precedence lookup rejects
                    // it, and that rejection ends the conversion.
                    match Self::get_precedence(t.clone()) {
                        Err(e) => {
                            proof {
                                assert(shunt_run(tsv.take(i + 1)) == Err::<
                                    (Seq<Seq<char>>, Seq<Seq<char>>),
                                    Error,
                                >(Error::InvalidOperator));
                                lemma_shunt_err_persists(tsv, i + 1);
                                lemma_convert_cases(tsv);
                            }
                            return Err(e);
                        },
                        Ok(_) => unreached(),
                    }
                }
            }
            i += 1;
        }
        proof {
            assert(tsv.take(toks.len() as int) =~= tsv);
        }
        let ghost run_out = out.deep_view();
        let ghost run_ops = ops.deep_view();
        // Flush the remaining operator stack in reverse (pop) order.
        let n = ops.len();
        let mut k: usize = 0;
        proof {
            assert(run_ops.reverse().take(0) =~= Seq::<Seq<char>>::empty());
            assert(run_out + run_ops.reverse().take(0) =~= run_out);
        }
        while k < n
            invariant
                k <= n,
                n == ops.len(),
                run_ops == ops.deep_view(),
                out.deep_view() == run_out + run_ops.reverse().take(k as int),
            decreases n - k,
        {
            let x = ops[n - 1 - k].clone();
            let ghost pre_out = out.deep_view();
            out.push(x);
            proof {
                assert(run_ops.reverse().take(k + 1) =~= run_ops.reverse().take(k as int).push(
                    run_ops[n - 1 - k],
                ));
                assert(out.deep_view() =~= pre_out.push(run_ops[n - 1 - k]));
                assert(out.deep_view() =~= run_out + run_ops.reverse().take(k + 1));
            }
            k += 1;
        }
        let ghost q = out.deep_view();
        proof {
            assert(run_ops.reverse().take(n as int) =~= run_ops.reverse());
            assert(q == run_out + run_ops.reverse());
        }
        // An opening parenthesis in the queue is one that was never closed.
        let m = out.len();
        let mut j: usize = 0;
        while j < m
            invariant
                j <= m,
                m == out.len(),
                q == out.deep_view(),
                tsv == spec_tokens(expr@),
                shunt_run(tsv) == Ok::<(Seq<Seq<char>>, Seq<Seq<char>>), Error>(
                    (run_out, run_ops),
                ),
                q == run_out + run_ops.reverse(),
                forall|x: int| 0 <= x < j ==> !spec_is_lparen(#[trigger] q[x]),
            decreases m - j,
        {
            let is_lp = match single_char(out[j].as_str()) {
                Some(ch) => ch == '(',
                None => false,
            };
            if is_lp {
                proof {
                    assert(q[j as int] == out@[j as int]@);
                    assert(spec_is_lparen(q[j as int]));
                    assert(has_lparen(q));
                    lemma_convert_cases(tsv);
                }
                return Err(Error::UnclosedParentheses);
            }
            j += 1;
        }
        // Join the queue with single spaces.
        let mut s = String::new();
        let mut w: usize = 0;
        proof {
            reveal_strlit(" ");
        }
        while w < m
            invariant
                w <= m,
                m == out.len(),
                q == out.deep_view(),
                s@ == spec_join(q.take(w as int)),
            decreases m - w,
        {
            if w > 0 {
                s.append(" ");
            }
            s.append(out[w].as_str());
            proof {
                reveal_strlit(" ");
                assert(q.take(w + 1).drop_last() =~= q.take(w as int));
                assert(q.take(w + 1).last() == q[w as int]);
                if w == 0 {
                    assert(s@ =~= spec_join(q.take(1)));
                } else {
                    assert(s@ =~= spec_join(q.take(w as int)) + seq![' '] + q[w as int]);
                }
            }
            w += 1;
        }
        proof {
            assert(q.take(m as int) =~= q);
            assert(!has_lparen(q));
            assert(spec_convert_tokens(tsv) == Ok::<Seq<Seq<char>>, Error>(q));
        }
        Ok(s)
    }
    /// Whether the stored postfix sequence keeps the evaluator's value
    /// stack safe, so that `eval_with` accepts it.
    pub fn can_eval(&self) -> (r: bool)
        ensures
            r == stack_safe(spec_tokens(self.postfix_view())),
    {
        can_eval_postfix(self.postfix.as_str())
    }

    /// Evaluates the stored postfix sequence: exactly the machine run of
    /// `eval_postfix_with` on `get_postfix()`, whose clauses this repeats.
    /// `parse` maps a numeric literal to the encoding of its
    /// single-precision value; `apply` carries out one arithmetic step on
    /// two encodings, given the operator's character.
    pub fn eval_with<P: Fn(&str) -> u32, A: Fn(char, u32, u32) -> u32>(
        &self,
        parse: P,
        apply: A,
    ) -> (r: Result<u32, Error>)
        requires
            forall|t: &str| #[trigger] call_requires(parse, (t,)),
            forall|args: (char, u32, u32)| #[trigger] call_requires(apply, args),
            stack_safe(spec_tokens(self.postfix_view())),
        ensures
            exists|vals: Seq<u32>|
                #[trigger] eval_result(spec_tokens(self.postfix_view()), vals) == r,
            ((forall|i: int|
                0 <= i < spec_tokens(self.postfix_view()).len() ==> eval_tok_ok(
                    #[trigger] spec_tokens(self.postfix_view())[i],
                )) && (forall|i: int|
                0 <= i < spec_tokens(self.postfix_view()).len() ==> !spec_is_div(
                    #[trigger] spec_tokens(self.postfix_view())[i],
                ))) ==> r is Ok,
            (exists|i: int|
                0 <= i < spec_tokens(self.postfix_view()).len() && !eval_tok_ok(
                    #[trigger] spec_tokens(self.postfix_view())[i],
                )) ==> r is Err,
            (spec_tokens(self.postfix_view()).len() == 1 && spec_is_numeric(
                spec_tokens(self.postfix_view())[0],
            )) ==> (r is Ok && exists|t: &str|
                t@ == spec_tokens(self.postfix_view())[0] && #[trigger] call_ensures(
                    parse,
                    (t,),
                    r->Ok_0,
                )),
            (parse_zero_respecting(parse) && div_triple(spec_tokens(self.postfix_view())))
                ==> r == Err::<u32, Error>(Error::DivisionByZero),
            r is Err ==> (r == Err::<u32, Error>(Error::DivisionByZero) || r == Err::<
                u32,
                Error,
            >(Error::InvalidExpression)),
            r == Err::<u32, Error>(Error::InvalidExpression) ==> (exists|i: int|
                0 <= i < spec_tokens(self.postfix_view()).len() && !eval_tok_ok(
                    #[trigger] spec_tokens(self.postfix_view())[i],
                )),
            r == Err::<u32, Error>(Error::DivisionByZero) ==> (exists|i: int|
                0 <= i < spec_tokens(self.postfix_view()).len() && spec_is_div(
                    #[trigger] spec_tokens(self.postfix_view())[i],
                )),
    {
        eval_postfix_with(self.postfix.as_str(), parse, apply)
    }
}

/// Replaying the stored postfix: splitting the string `get_postfix`
/// returns back into tokens recovers exactly the queue that conversion
/// produced.  An evaluator run over the stored string therefore works
/// through the very token sequence that `eval_with`'s own run does.
pub proof fn lemma_postfix_replay(p: &Parser)
    requires
        p.wf(),
    ensures
        spec_convert_tokens(spec_tokens(p.expr_view())) is Ok,
        spec_tokens(p.postfix_view()) == spec_convert_tokens(spec_tokens(p.expr_view()))->Ok_0,
{
    let ts = spec_tokens(p.expr_view());
    lemma_convert_cases(ts);
    assert(spec_convert_tokens(ts) is Ok);
    let q = spec_convert_tokens(ts)->Ok_0;
    assert(p.postfix_view() == spec_join(q));
    assert(all_recognized(ts) && open_count(ts) == 0);
    assert forall|i: int| 0 <= i < q.len() implies (#[trigger] q[i]).len() > 0 by {
        if spec_is_numeric(q[i]) {
            lemma_numeric_no_space(q[i]);
        }
    }
    assert forall|i: int, k: int|
        0 <= i < q.len() && 0 <= k < q[i].len() implies !spec_is_space(#[trigger] q[i][k]) by {
        if spec_is_numeric(q[i]) {
            lemma_numeric_no_space(q[i]);
        } else {
            assert(spec_is_op(q[i]));
            assert(k == 0);
        }
    }
    lemma_join_split_roundtrip(q);
}

/// Determinism of construction: two parsers built from equal expressions
/// hold equal postfix strings.
pub proof fn lemma_postfix_deterministic(p1: &Parser, p2: &Parser)
    requires
        p1.wf(),
        p2.wf(),
        p1.expr_view() == p2.expr_view(),
    ensures
        p1.postfix_view() == p2.postfix_view(),
{
}

} // verus!
