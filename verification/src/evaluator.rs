//! The evaluator: a tree walk over statements against a mutable
//! environment, with print output collected in order.
//!
//! `eval_expr` is the mathematical meaning of an expression (expressions
//! read the environment and cannot write it); `exec_stmt` and `exec_stmts`
//! give statements their meaning, under a fuel bound that only the loop
//! rule consumes. The executable evaluator is proved to realize exactly
//! these rules, for some fuel.
use crate::ast::{expr_view, stmt_view, stmts_view};
use crate::ast::{ExprView, Expression, LitView, Operator, Statement, StmtView};
use crate::env::{env_assign, env_define, env_get, env_wf, lemma_frame_find_found, EnvV};
use crate::env::{frame_find, has_name, Environment, FrameV};
use crate::lexer::{chars_of, string_from_chars};
use crate::rat::{lemma_rat_ops_wf, rat_add, rat_div, rat_eq, rat_le, rat_lt, rat_make, rat_mul};
use crate::rat::{rat_neg, rat_rem, rat_sub, Number};
use crate::value::{is_truthy_value, truthy, val_eq, val_wf, values_equal};
use crate::value::{clone_value, ErrView, FddlValue, RuntimeError, ValueView};
use vstd::prelude::*;
use vstd::string::StringExecFns;

verus! {

/// The message for a unary minus on a non-number.
pub open spec fn msg_unary_minus() -> Seq<char> {
    "Operand for unary '-' must be a number."@
}

/// The message for an exact result beyond the machine bounds.
pub open spec fn msg_overflow() -> Seq<char> {
    "Numeric result out of range."@
}

/// The message for an arithmetic operator on non-numbers.
pub open spec fn msg_operands(op: Operator) -> Seq<char> {
    match op {
        Operator::Plus => "Operands for '+' must be numbers."@,
        Operator::Minus => "Operands for '-' must be numbers."@,
        Operator::Multiply => "Operands for '*' must be numbers."@,
        Operator::Divide => "Operands for '/' must be numbers."@,
        Operator::Modulus => "Operands for '%' must be numbers."@,
        Operator::Greater => "Operands for '>' must be numbers."@,
        Operator::GreaterEqual => "Operands for '>=' must be numbers."@,
        Operator::Less => "Operands for '<' must be numbers."@,
        Operator::LessEqual => "Operands for '<=' must be numbers."@,
        _ => "Operands must be numbers."@,
    }
}

/// The message for an operator with no unary meaning.
pub open spec fn msg_unsupported_unary() -> Seq<char> {
    "Unsupported unary operator."@
}

/// The message for an operator with no binary meaning.
pub open spec fn msg_unsupported_binary() -> Seq<char> {
    "Unsupported binary operator."@
}

/// The message for an expression kind whose evaluation is an unfinished
/// extension point.
pub open spec fn msg_unimpl_expr() -> Seq<char> {
    "Unimplemented expression kind."@
}

/// The message for a statement kind whose evaluation is an unfinished
/// extension point.
pub open spec fn msg_unimpl_stmt() -> Seq<char> {
    "Unimplemented statement kind."@
}

/// The message for a loop that outlives the evaluator's step bound.
pub open spec fn msg_loop_limit() -> Seq<char> {
    "Loop iteration limit exceeded."@
}

/// The message for a literal whose number is not well formed.
pub open spec fn msg_malformed_number() -> Seq<char> {
    "Malformed number literal."@
}

/// The fixed `almost` result for a zero number.
pub open spec fn almost_zero() -> Number {
    Number { negative: false, numer: 1337, denom: 10000 }
}

/// The `almost` transform of a non-zero number: a deterministic small
/// perturbation whose offset and scale seeds come from the number's own
/// bit pattern; exact rational arithmetic throughout.
#[verifier::opaque]
pub open spec fn almost_num(n: Number) -> Option<Number> {
    let bits = n.numer ^ n.denom;
    let off = rat_make(false, ((bits >> 16u64) & 0xfff) as int, 4095).unwrap();
    let sca = rat_make(false, (bits & 0xfff) as int, 4095).unwrap();
    let half = Number { negative: false, numer: 1, denom: 2 };
    let fifth = Number { negative: false, numer: 1, denom: 5 };
    let tenth = Number { negative: false, numer: 1, denom: 10 };
    let one = Number { negative: false, numer: 1, denom: 1 };
    let mag = Number { negative: false, numer: n.numer, denom: n.denom };
    match rat_sub(off, half) {
        Some(t1) => match rat_mul(t1, mag) {
            Some(t2) => match rat_mul(t2, fifth) {
                Some(t3) => match rat_sub(sca, half) {
                    Some(s1) => match rat_mul(s1, tenth) {
                        Some(s2) => match rat_add(one, s2) {
                            Some(s3) => match rat_add(n, t3) {
                                Some(r1) => rat_mul(r1, s3),
                                None => None,
                            },
                            None => None,
                        },
                        None => None,
                    },
                    None => None,
                },
                None => None,
            },
            None => None,
        },
        None => None,
    }
}

/// The meaning of a unary operator on a value.
#[verifier::opaque]
pub open spec fn apply_unary(op: Operator, v: ValueView) -> Result<ValueView, ErrView> {
    match op {
        Operator::Minus => match v {
            ValueView::Number(n) => Ok(ValueView::Number(rat_neg(n))),
            _ => Err(ErrView::TypeMismatch(msg_unary_minus())),
        },
        Operator::Not => Ok(ValueView::Boolean(!truthy(v))),
        Operator::SomeKw => Ok(ValueView::Boolean(!(v is Nil))),
        Operator::Almost => match v {
            ValueView::Number(n) => if n.numer == 0 {
                Ok(ValueView::Number(almost_zero()))
            } else {
                match almost_num(n) {
                    Some(c) => Ok(ValueView::Number(c)),
                    None => Err(ErrView::TypeMismatch(msg_overflow())),
                }
            },
            ValueView::Boolean(b) => Ok(ValueView::Boolean(!b)),
            ValueView::Text(s) => if s.len() == 0 {
                Ok(ValueView::Text("?!~"@))
            } else {
                Ok(ValueView::Text(s.reverse().push('~')))
            },
            ValueView::Nil => Ok(ValueView::Text("almost nil?"@)),
        },
        _ => Err(ErrView::TypeMismatch(msg_unsupported_unary())),
    }
}

/// The meaning of a binary operator on two evaluated operands. The
/// short-circuit operators never reach this rule.
#[verifier::opaque]
pub open spec fn apply_binary(op: Operator, a: ValueView, b: ValueView) -> Result<
    ValueView,
    ErrView,
> {
    match op {
        Operator::Plus | Operator::Minus | Operator::Multiply => match (a, b) {
            (ValueView::Number(x), ValueView::Number(y)) => {
                let c = match op {
                    Operator::Plus => rat_add(x, y),
                    Operator::Minus => rat_sub(x, y),
                    _ => rat_mul(x, y),
                };
                match c {
                    Some(z) => Ok(ValueView::Number(z)),
                    None => Err(ErrView::TypeMismatch(msg_overflow())),
                }
            },
            _ => Err(ErrView::TypeMismatch(msg_operands(op))),
        },
        Operator::Divide | Operator::Modulus => match (a, b) {
            (ValueView::Number(x), ValueView::Number(y)) => {
                if y.numer == 0 {
                    Err(ErrView::DivisionByZero)
                } else {
                    let c = if op is Divide {
                        rat_div(x, y)
                    } else {
                        rat_rem(x, y)
                    };
                    match c {
                        Some(z) => Ok(ValueView::Number(z)),
                        None => Err(ErrView::TypeMismatch(msg_overflow())),
                    }
                }
            },
            _ => Err(ErrView::TypeMismatch(msg_operands(op))),
        },
        Operator::Greater | Operator::GreaterEqual | Operator::Less | Operator::LessEqual => match (
            a,
            b,
        ) {
            (ValueView::Number(x), ValueView::Number(y)) => Ok(
                ValueView::Boolean(
                    match op {
                        Operator::Greater => rat_lt(y, x),
                        Operator::GreaterEqual => rat_le(y, x),
                        Operator::Less => rat_lt(x, y),
                        _ => rat_le(x, y),
                    },
                ),
            ),
            _ => Err(ErrView::TypeMismatch(msg_operands(op))),
        },
        Operator::EqualEqual => Ok(ValueView::Boolean(val_eq(a, b))),
        Operator::NotEqual => Ok(ValueView::Boolean(!val_eq(a, b))),
        _ => Err(ErrView::TypeMismatch(msg_unsupported_binary())),
    }
}

/// The meaning of a literal: its value, unless its number is malformed.
pub open spec fn lit_value(l: LitView) -> Result<ValueView, ErrView> {
    match l {
        LitView::Number(n) => if n.wf() {
            Ok(ValueView::Number(n))
        } else {
            Err(ErrView::TypeMismatch(msg_malformed_number()))
        },
        LitView::Text(s) => Ok(ValueView::Text(s)),
        LitView::Boolean(b) => Ok(ValueView::Boolean(b)),
        LitView::Nil => Ok(ValueView::Nil),
    }
}

/// The meaning of an expression under an environment. Expressions read
/// the environment and never change it; `and`/`or` evaluate their left
/// operand first and skip the right one when it already decides, yielding
/// the decided truth as a boolean.
#[verifier::opaque]
pub open spec fn eval_expr(env: EnvV, e: ExprView) -> Result<ValueView, ErrView>
    decreases e,
{
    match e {
        ExprView::Literal(l) => lit_value(l),
        ExprView::Variable(n) => match env_get(env, n) {
            Some(v) => Ok(v),
            None => Err(ErrView::UndefinedVariable(n)),
        },
        ExprView::Unary(op, e1) => match eval_expr(env, *e1) {
            Ok(v) => apply_unary(op, v),
            Err(x) => Err(x),
        },
        ExprView::Binary(l, op, r) => {
            if op is And {
                match eval_expr(env, *l) {
                    Ok(lv) => if !truthy(lv) {
                        Ok(ValueView::Boolean(false))
                    } else {
                        match eval_expr(env, *r) {
                            Ok(rv) => Ok(ValueView::Boolean(truthy(rv))),
                            Err(x) => Err(x),
                        }
                    },
                    Err(x) => Err(x),
                }
            } else if op is Or {
                match eval_expr(env, *l) {
                    Ok(lv) => if truthy(lv) {
                        Ok(ValueView::Boolean(true))
                    } else {
                        match eval_expr(env, *r) {
                            Ok(rv) => Ok(ValueView::Boolean(truthy(rv))),
                            Err(x) => Err(x),
                        }
                    },
                    Err(x) => Err(x),
                }
            } else {
                match eval_expr(env, *l) {
                    Ok(lv) => match eval_expr(env, *r) {
                        Ok(rv) => apply_binary(op, lv, rv),
                        Err(x) => Err(x),
                    },
                    Err(x) => Err(x),
                }
            }
        },
        ExprView::Grouping(e1) => eval_expr(env, *e1),
        ExprView::FunctionCall(_, _) => Err(ErrView::TypeMismatch(msg_unimpl_expr())),
    }
}

/// A statement outcome: the environment and output after it, and success
/// or the first error.
pub type StmtOutcome = (EnvV, Seq<ValueView>, Result<(), ErrView>);

/// The meaning of one statement, under a fuel bound consumed only by loop
/// re-entry; `None` means the fuel did not suffice.
#[verifier::opaque]
pub open spec fn exec_stmt(f: nat, env: EnvV, out: Seq<ValueView>, s: StmtView) -> Option<
    StmtOutcome,
>
    decreases f, s,
{
    if f == 0 {
        None
    } else {
        match s {
            StmtView::ExpressionStatement(e) => match eval_expr(env, e) {
                Ok(_) => Some((env, out, Ok(()))),
                Err(x) => Some((env, out, Err(x))),
            },
            StmtView::PrintStatement(e) => match eval_expr(env, e) {
                Ok(v) => Some((env, out.push(v), Ok(()))),
                Err(x) => Some((env, out, Err(x))),
            },
            StmtView::VariableDeclaration(n, init) => {
                let vres = match init {
                    Some(e) => eval_expr(env, e),
                    None => Ok(ValueView::Nil),
                };
                match vres {
                    Ok(v) => Some((env_define(env, n, v), out, Ok(()))),
                    Err(x) => Some((env, out, Err(x))),
                }
            },
            StmtView::Assignment { target_name, value } => match eval_expr(env, value) {
                Ok(v) => match env_assign(env, target_name, v) {
                    Some(e2) => Some((e2, out, Ok(()))),
                    None => Some((env, out, Err(ErrView::UndefinedVariable(target_name)))),
                },
                Err(x) => Some((env, out, Err(x))),
            },
            StmtView::Block(ss) => match exec_stmts(f, env.push(Seq::empty()), out, ss) {
                Some((e2, o2, res)) => Some((e2.drop_last(), o2, res)),
                None => None,
            },
            StmtView::IfStatement(c, t, els) => match eval_expr(env, c) {
                Ok(v) => if truthy(v) {
                    exec_stmt(f, env, out, *t)
                } else {
                    match els {
                        Some(e) => exec_stmt(f, env, out, *e),
                        None => Some((env, out, Ok(()))),
                    }
                },
                Err(x) => Some((env, out, Err(x))),
            },
            StmtView::WhileStatement(c, b) => match eval_expr(env, c) {
                Ok(v) => if !truthy(v) {
                    Some((env, out, Ok(())))
                } else {
                    match exec_stmt(f, env, out, *b) {
                        Some((e1, o1, Ok(u))) => exec_stmt((f - 1) as nat, e1, o1, s),
                        Some((e1, o1, Err(x))) => Some((e1, o1, Err(x))),
                        None => None,
                    }
                },
                Err(x) => Some((env, out, Err(x))),
            },
            StmtView::ForStatement(_, _, _, _) => Some(
                (env, out, Err(ErrView::TypeMismatch(msg_unimpl_stmt()))),
            ),
            StmtView::FunctionDeclaration { .. } => Some(
                (env, out, Err(ErrView::TypeMismatch(msg_unimpl_stmt()))),
            ),
            StmtView::ReturnStatement(_) => Some(
                (env, out, Err(ErrView::TypeMismatch(msg_unimpl_stmt()))),
            ),
        }
    }
}

/// The meaning of a statement sequence, in order, stopped at the first
/// error.
#[verifier::opaque]
pub open spec fn exec_stmts(f: nat, env: EnvV, out: Seq<ValueView>, ss: Seq<StmtView>) -> Option<
    StmtOutcome,
>
    decreases f, ss,
{
    if f == 0 {
        None
    } else if ss.len() == 0 {
        Some((env, out, Ok(())))
    } else {
        match exec_stmt(f, env, out, ss[0]) {
            Some((e1, o1, Ok(u))) => exec_stmts(f, e1, o1, ss.drop_first()),
            Some((e1, o1, Err(x))) => Some((e1, o1, Err(x))),
            None => None,
        }
    }
}

/// Law: the fuel bound is benign. Once a statement's outcome settles at
/// some fuel, every larger fuel yields the same outcome, so the bounded
/// evaluator computes the one meaning the rules assign.
pub proof fn lemma_fuel_stmt(f1: nat, f2: nat, env: EnvV, out: Seq<ValueView>, s: StmtView)
    requires
        f1 <= f2,
        exec_stmt(f1, env, out, s) is Some,
    ensures
        exec_stmt(f2, env, out, s) == exec_stmt(f1, env, out, s),
    decreases f1, s,
{
    reveal(exec_stmt);
    reveal(exec_stmts);
    assert(f1 >= 1);
    match s {
        StmtView::Block(ss) => {
            assert(exec_stmt(f1, env, out, s) == (match exec_stmts(
                f1,
                env.push(Seq::empty()),
                out,
                ss,
            ) {
                Some((e2, o2, res)) => Some((e2.drop_last(), o2, res)),
                None => None,
            }));
            lemma_fuel_stmts(f1, f2, env.push(Seq::empty()), out, ss);
        },
        StmtView::IfStatement(c, t, els) => {
            match eval_expr(env, c) {
                Ok(v) => if truthy(v) {
                    lemma_fuel_stmt(f1, f2, env, out, *t);
                } else {
                    match els {
                        Some(e) => {
                            lemma_fuel_stmt(f1, f2, env, out, *e);
                        },
                        None => {},
                    }
                },
                Err(_) => {},
            }
        },
        StmtView::WhileStatement(c, b) => {
            match eval_expr(env, c) {
                Ok(v) => if truthy(v) {
                    lemma_fuel_stmt(f1, f2, env, out, *b);
                    match exec_stmt(f1, env, out, *b) {
                        Some((e1, o1, Ok(u))) => {
                            lemma_fuel_stmt((f1 - 1) as nat, (f2 - 1) as nat, e1, o1, s);
                        },
                        _ => {},
                    }
                },
                Err(_) => {},
            }
        },
        _ => {},
    }
}

/// Law: the fuel bound is benign for sequences as well.
pub proof fn lemma_fuel_stmts(f1: nat, f2: nat, env: EnvV, out: Seq<ValueView>, ss: Seq<StmtView>)
    requires
        f1 <= f2,
        exec_stmts(f1, env, out, ss) is Some,
    ensures
        exec_stmts(f2, env, out, ss) == exec_stmts(f1, env, out, ss),
    decreases f1, ss,
{
    reveal(exec_stmts);
    reveal(exec_stmt);
    assert(f1 >= 1);
    if ss.len() > 0 {
        lemma_fuel_stmt(f1, f2, env, out, ss[0]);
        match exec_stmt(f1, env, out, ss[0]) {
            Some((e1, o1, Ok(u))) => {
                lemma_fuel_stmts(f1, f2, e1, o1, ss.drop_first());
            },
            _ => {},
        }
    }
}

/// Appending one statement to a sequence runs it after the sequence.
pub proof fn lemma_stmts_snoc(f: nat, env: EnvV, out: Seq<ValueView>, ss: Seq<StmtView>, s: StmtView)
    requires
        f >= 1,
    ensures
        exec_stmts(f, env, out, ss.push(s)) == (match exec_stmts(f, env, out, ss) {
            Some((e1, o1, Ok(u))) => exec_stmt(f, e1, o1, s),
            Some((e1, o1, Err(x))) => Some((e1, o1, Err::<(), ErrView>(x))),
            None => None,
        }),
    decreases ss.len(),
{
    reveal_with_fuel(exec_stmts, 3);
    reveal_with_fuel(exec_stmt, 2);
    if ss.len() == 0 {
        assert(ss.push(s)[0] == s);
        assert(ss.push(s).drop_first() =~= Seq::<StmtView>::empty());
        assert(exec_stmts(f, env, out, ss) == Some((env, out, Ok::<(), ErrView>(()))));
        match exec_stmt(f, env, out, s) {
            Some((e1, o1, Ok(u))) => {
                assert(exec_stmts(f, e1, o1, Seq::<StmtView>::empty()) == Some(
                    (e1, o1, Ok::<(), ErrView>(())),
                ));
                assert(exec_stmts(f, env, out, ss.push(s)) == exec_stmts(
                    f,
                    e1,
                    o1,
                    ss.push(s).drop_first(),
                ));
            },
            Some((e1, o1, Err(x))) => {
                assert(exec_stmts(f, env, out, ss.push(s)) == Some(
                    (e1, o1, Err::<(), ErrView>(x)),
                ));
            },
            None => {
                assert(exec_stmts(f, env, out, ss.push(s)) is None);
            },
        }
    } else {
        assert(ss.push(s)[0] == ss[0]);
        assert(ss.push(s).drop_first() =~= ss.drop_first().push(s));
        match exec_stmt(f, env, out, ss[0]) {
            Some((e1, o1, Ok(u))) => {
                lemma_stmts_snoc(f, e1, o1, ss.drop_first(), s);
            },
            _ => {},
        }
    }
}

/// A sequence whose prefix already failed fails the same way.
pub proof fn lemma_stmts_extend_err(
    f: nat,
    env: EnvV,
    out: Seq<ValueView>,
    ss: Seq<StmtView>,
    j: int,
)
    requires
        0 <= j <= ss.len(),
        exec_stmts(f, env, out, ss.take(j)) matches Some((e, o, r)) && r is Err,
    ensures
        exec_stmts(f, env, out, ss) == exec_stmts(f, env, out, ss.take(j)),
    decreases j,
{
    reveal_with_fuel(exec_stmts, 3);
    reveal_with_fuel(exec_stmt, 2);
    if j == 0 {
        assert(ss.take(0) =~= Seq::<StmtView>::empty());
    } else {
        assert(ss.take(j)[0] == ss[0]);
        assert(ss.take(j).drop_first() =~= ss.drop_first().take(j - 1));
        match exec_stmt(f, env, out, ss[0]) {
            Some((e1, o1, Ok(u))) => {
                lemma_stmts_extend_err(f, e1, o1, ss.drop_first(), j - 1);
            },
            _ => {},
        }
    }
}

/// The views of collected output values.
pub open spec fn vals_view(s: Seq<FddlValue>) -> Seq<ValueView>
    decreases s,
{
    if s.len() == 0 {
        Seq::empty()
    } else {
        vals_view(s.drop_last()).push(s.last()@)
    }
}


/// The `almost` transform of a non-zero number.
fn almost_number(n: Number) -> (r: Option<Number>)
    requires
        n.wf(),
        n.numer != 0,
    ensures
        r == almost_num(n),
        r is Some ==> r.unwrap().wf(),
{
    proof {
        reveal(almost_num);
    }
    let bits = n.numer ^ n.denom;
    let off = Number::make(false, (bits >> 16u64) & 0xfff, 4095);
    let sca = Number::make(false, bits & 0xfff, 4095);
    let half = Number { negative: false, numer: 1, denom: 2 };
    let fifth = Number { negative: false, numer: 1, denom: 5 };
    let tenth = Number { negative: false, numer: 1, denom: 10 };
    let one = Number { negative: false, numer: 1, denom: 1 };
    let mag = Number { negative: false, numer: n.numer, denom: n.denom };
    proof {
        lemma_rat_ops_wf(off, half);
    }
    let t1 = match off.checked_sub(half) {
        Option::Some(x) => x,
        Option::None => {
            return Option::None;
        },
    };
    proof {
        lemma_rat_ops_wf(t1, mag);
    }
    let t2 = match t1.checked_mul(mag) {
        Option::Some(x) => x,
        Option::None => {
            return Option::None;
        },
    };
    proof {
        lemma_rat_ops_wf(t2, fifth);
    }
    let t3 = match t2.checked_mul(fifth) {
        Option::Some(x) => x,
        Option::None => {
            return Option::None;
        },
    };
    proof {
        lemma_rat_ops_wf(sca, half);
    }
    let s1 = match sca.checked_sub(half) {
        Option::Some(x) => x,
        Option::None => {
            return Option::None;
        },
    };
    proof {
        lemma_rat_ops_wf(s1, tenth);
    }
    let s2 = match s1.checked_mul(tenth) {
        Option::Some(x) => x,
        Option::None => {
            return Option::None;
        },
    };
    proof {
        lemma_rat_ops_wf(one, s2);
    }
    let s3 = match one.checked_add(s2) {
        Option::Some(x) => x,
        Option::None => {
            return Option::None;
        },
    };
    proof {
        lemma_rat_ops_wf(n, t3);
    }
    let r1 = match n.checked_add(t3) {
        Option::Some(x) => x,
        Option::None => {
            return Option::None;
        },
    };
    proof {
        lemma_rat_ops_wf(r1, s3);
    }
    r1.checked_mul(s3)
}

/// The reversed characters of the text with a `~` appended.
fn reversed_with_tilde(s: &String) -> (r: String)
    requires
        s@.len() > 0,
    ensures
        r@ == s@.reverse().push('~'),
{
    let cs = chars_of(s.as_str());
    let mut v: Vec<char> = Vec::new();
    let mut j: usize = cs.len();
    #[verifier::loop_isolation(false)]
    while j > 0
        invariant
            j <= cs.len(),
            v@.len() == cs.len() - j,
            forall|k: int| 0 <= k < v@.len() ==> v@[k] == cs@[cs@.len() - 1 - k],
        decreases j,
    {
        j = j - 1;
        let c = cs[j];
        v.push(c);
    }
    v.push('~');
    proof {
        assert(v@ =~= s@.reverse().push('~'));
    }
    string_from_chars(v.as_slice())
}

/// A type-mismatch error with this exact message.
fn mismatch(msg: &str) -> (r: RuntimeError)
    ensures
        r@ == ErrView::TypeMismatch(msg@),
{
    RuntimeError::TypeMismatch(String::from_str(msg))
}

/// Apply a unary operator to an evaluated operand.
#[verifier::rlimit(60)]
fn eval_unary(op: Operator, v: &FddlValue) -> (r: Result<FddlValue, RuntimeError>)
    requires
        val_wf(v@),
    ensures
        match (r, apply_unary(op, v@)) {
            (Result::Ok(x), Result::Ok(y)) => x@ == y && val_wf(x@),
            (Result::Err(a), Result::Err(b)) => a@ == b,
            _ => false,
        },
{
    proof {
        reveal(apply_unary);
    }
    match op {
        Operator::Minus => match v {
            FddlValue::Number(n) => {
                proof {
                    lemma_rat_ops_wf(*n, *n);
                }
                Result::Ok(FddlValue::Number(n.neg()))
            },
            _ => Result::Err(mismatch("Operand for unary '-' must be a number.")),
        },
        Operator::Not => Result::Ok(FddlValue::Boolean(!is_truthy_value(v))),
        Operator::SomeKw => Result::Ok(FddlValue::Boolean(!matches!(v, FddlValue::Nil))),
        Operator::Almost => match v {
            FddlValue::Number(n) => {
                if n.is_zero() {
                    Result::Ok(
                        FddlValue::Number(Number { negative: false, numer: 1337, denom: 10000 }),
                    )
                } else {
                    match almost_number(*n) {
                        Option::Some(c) => Result::Ok(FddlValue::Number(c)),
                        Option::None => Result::Err(mismatch("Numeric result out of range.")),
                    }
                }
            },
            FddlValue::Boolean(b) => Result::Ok(FddlValue::Boolean(!*b)),
            FddlValue::Text(st) => {
                if st.as_str().unicode_len() == 0 {
                    Result::Ok(FddlValue::Text(String::from_str("?!~")))
                } else {
                    Result::Ok(FddlValue::Text(reversed_with_tilde(st)))
                }
            },
            FddlValue::Nil => Result::Ok(FddlValue::Text(String::from_str("almost nil?"))),
        },
        _ => Result::Err(mismatch("Unsupported unary operator.")),
    }
}

/// Apply a non-short-circuit binary operator to two evaluated operands.
#[verifier::rlimit(100)]
#[verifier::spinoff_prover]
fn eval_binary(op: Operator, left: &FddlValue, right: &FddlValue) -> (r: Result<
    FddlValue,
    RuntimeError,
>)
    requires
        val_wf(left@),
        val_wf(right@),
    ensures
        match (r, apply_binary(op, left@, right@)) {
            (Result::Ok(x), Result::Ok(y)) => x@ == y && val_wf(x@),
            (Result::Err(a), Result::Err(b)) => a@ == b,
            _ => false,
        },
{
    proof {
        reveal(apply_binary);
    }
    match op {
        Operator::Plus => match (left, right) {
            (FddlValue::Number(x), FddlValue::Number(y)) => {
                proof {
                    lemma_rat_ops_wf(*x, *y);
                }
                match x.checked_add(*y) {
                    Option::Some(z) => Result::Ok(FddlValue::Number(z)),
                    Option::None => Result::Err(mismatch("Numeric result out of range.")),
                }
            },
            _ => Result::Err(mismatch("Operands for '+' must be numbers.")),
        },
        Operator::Minus => match (left, right) {
            (FddlValue::Number(x), FddlValue::Number(y)) => {
                proof {
                    lemma_rat_ops_wf(*x, *y);
                }
                match x.checked_sub(*y) {
                    Option::Some(z) => Result::Ok(FddlValue::Number(z)),
                    Option::None => Result::Err(mismatch("Numeric result out of range.")),
                }
            },
            _ => Result::Err(mismatch("Operands for '-' must be numbers.")),
        },
        Operator::Multiply => match (left, right) {
            (FddlValue::Number(x), FddlValue::Number(y)) => {
                proof {
                    lemma_rat_ops_wf(*x, *y);
                }
                match x.checked_mul(*y) {
                    Option::Some(z) => Result::Ok(FddlValue::Number(z)),
                    Option::None => Result::Err(mismatch("Numeric result out of range.")),
                }
            },
            _ => Result::Err(mismatch("Operands for '*' must be numbers.")),
        },
        Operator::Divide => match (left, right) {
            (FddlValue::Number(x), FddlValue::Number(y)) => {
                if y.is_zero() {
                    Result::Err(RuntimeError::DivisionByZero)
                } else {
                    proof {
                        lemma_rat_ops_wf(*x, *y);
                    }
                    match x.checked_div(*y) {
                        Option::Some(z) => Result::Ok(FddlValue::Number(z)),
                        Option::None => Result::Err(mismatch("Numeric result out of range.")),
                    }
                }
            },
            _ => Result::Err(mismatch("Operands for '/' must be numbers.")),
        },
        Operator::Modulus => match (left, right) {
            (FddlValue::Number(x), FddlValue::Number(y)) => {
                if y.is_zero() {
                    Result::Err(RuntimeError::DivisionByZero)
                } else {
                    proof {
                        lemma_rat_ops_wf(*x, *y);
                    }
                    match x.checked_rem(*y) {
                        Option::Some(z) => Result::Ok(FddlValue::Number(z)),
                        Option::None => Result::Err(mismatch("Numeric result out of range.")),
                    }
                }
            },
            _ => Result::Err(mismatch("Operands for '%' must be numbers.")),
        },
        Operator::Greater => match (left, right) {
            (FddlValue::Number(x), FddlValue::Number(y)) => Result::Ok(
                FddlValue::Boolean(y.lt(*x)),
            ),
            _ => Result::Err(mismatch("Operands for '>' must be numbers.")),
        },
        Operator::GreaterEqual => match (left, right) {
            (FddlValue::Number(x), FddlValue::Number(y)) => Result::Ok(
                FddlValue::Boolean(y.le(*x)),
            ),
            _ => Result::Err(mismatch("Operands for '>=' must be numbers.")),
        },
        Operator::Less => match (left, right) {
            (FddlValue::Number(x), FddlValue::Number(y)) => Result::Ok(
                FddlValue::Boolean(x.lt(*y)),
            ),
            _ => Result::Err(mismatch("Operands for '<' must be numbers.")),
        },
        Operator::LessEqual => match (left, right) {
            (FddlValue::Number(x), FddlValue::Number(y)) => Result::Ok(
                FddlValue::Boolean(x.le(*y)),
            ),
            _ => Result::Err(mismatch("Operands for '<=' must be numbers.")),
        },
        Operator::EqualEqual => Result::Ok(FddlValue::Boolean(values_equal(left, right))),
        Operator::NotEqual => Result::Ok(FddlValue::Boolean(!values_equal(left, right))),
        _ => Result::Err(mismatch("Unsupported binary operator.")),
    }
}

/// The tree-walking evaluator: the current environment and the print
/// output collected so far, in program order.
pub struct Evaluator {
    pub environment: Environment,
    pub output: Vec<FddlValue>,
}

impl Evaluator {
    /// The environment's mathematical image.
    pub open spec fn env_v(self) -> EnvV {
        self.environment.view_spec()
    }

    /// The output's mathematical image.
    pub open spec fn out_v(self) -> Seq<ValueView> {
        vals_view(self.output@)
    }

    /// The evaluator's invariant: a scope exists and every stored value
    /// is well formed.
    pub open spec fn inv(self) -> bool {
        self.environment.wf() && env_wf(self.env_v())
    }

    /// A fresh evaluator over one global scope, with no output yet.
    pub fn new() -> (r: Evaluator)
        ensures
            r.inv(),
            r.env_v() =~= seq![Seq::<(Seq<char>, ValueView)>::empty()],
            r.out_v() =~= Seq::<ValueView>::empty(),
    {
        let e = Evaluator { environment: Environment::new(), output: Vec::new() };
        proof {
            assert(vals_view(e.output@) =~= Seq::<ValueView>::empty());
        }
        e
    }

    /// Truthiness: false and nil are falsey, every other value is truthy.
    pub fn is_truthy(value: &FddlValue) -> (r: bool)
        ensures
            r == truthy(value@),
    {
        is_truthy_value(value)
    }

    /// Evaluate one expression against the current environment: exactly
    /// the value or error that `eval_expr` assigns to it.
    #[verifier::rlimit(100)]
    #[verifier::spinoff_prover]
    pub fn evaluate_expression(&self, expression: &Expression) -> (r: Result<
        FddlValue,
        RuntimeError,
    >)
        requires
            self.inv(),
        ensures
            match (r, eval_expr(self.env_v(), expr_view(*expression))) {
                (Result::Ok(v), Result::Ok(w)) => v@ == w && val_wf(v@),
                (Result::Err(a), Result::Err(b)) => a@ == b,
                _ => false,
            },
        decreases expression,
    {
        proof {
            reveal(eval_expr);
        }
        match expression {
            Expression::Literal(l) => match l {
                crate::ast::Literal::Number(n) => {
                    if n.denom >= 1 && (n.numer != 0 || (!n.negative && n.denom == 1)) {
                        Result::Ok(FddlValue::Number(*n))
                    } else {
                        Result::Err(mismatch("Malformed number literal."))
                    }
                },
                crate::ast::Literal::Text(st) => Result::Ok(FddlValue::Text(st.clone())),
                crate::ast::Literal::Boolean(b) => Result::Ok(FddlValue::Boolean(*b)),
                crate::ast::Literal::Nil => Result::Ok(FddlValue::Nil),
            },
            Expression::Variable(name) => {
                proof {
                    crate::env::lemma_env_get_wf(self.env_v(), name@);
                }
                self.environment.get(name.as_str())
            },
            Expression::Unary(op, e1) => match self.evaluate_expression(e1) {
                Result::Ok(v) => eval_unary(*op, &v),
                Result::Err(x) => Result::Err(x),
            },
            Expression::Binary(l, op, r0) => {
                if matches!(op, Operator::And) {
                    match self.evaluate_expression(l) {
                        Result::Ok(lv) => {
                            if !is_truthy_value(&lv) {
                                Result::Ok(FddlValue::Boolean(false))
                            } else {
                                match self.evaluate_expression(r0) {
                                    Result::Ok(rv) => Result::Ok(
                                        FddlValue::Boolean(is_truthy_value(&rv)),
                                    ),
                                    Result::Err(x) => Result::Err(x),
                                }
                            }
                        },
                        Result::Err(x) => Result::Err(x),
                    }
                } else if matches!(op, Operator::Or) {
                    match self.evaluate_expression(l) {
                        Result::Ok(lv) => {
                            if is_truthy_value(&lv) {
                                Result::Ok(FddlValue::Boolean(true))
                            } else {
                                match self.evaluate_expression(r0) {
                                    Result::Ok(rv) => Result::Ok(
                                        FddlValue::Boolean(is_truthy_value(&rv)),
                                    ),
                                    Result::Err(x) => Result::Err(x),
                                }
                            }
                        },
                        Result::Err(x) => Result::Err(x),
                    }
                } else {
                    match self.evaluate_expression(l) {
                        Result::Ok(lv) => match self.evaluate_expression(r0) {
                            Result::Ok(rv) => eval_binary(*op, &lv, &rv),
                            Result::Err(x) => Result::Err(x),
                        },
                        Result::Err(x) => Result::Err(x),
                    }
                }
            },
            Expression::Grouping(e1) => self.evaluate_expression(e1),
            Expression::FunctionCall(_, _) => Result::Err(
                mismatch("Unimplemented expression kind."),
            ),
        }
    }
}


/// A statement sequence's view has one statement view per statement.
proof fn lemma_stmts_view_index(s: Seq<Statement>)
    ensures
        stmts_view(s).len() == s.len(),
        forall|i: int| 0 <= i < s.len() ==> #[trigger] stmts_view(s)[i] == stmt_view(s[i]),
    decreases s,
{
    if s.len() > 0 {
        lemma_stmts_view_index(s.drop_last());
    }
}

/// The views of a value vector, entry by entry.
proof fn lemma_vals_view_index(s: Seq<FddlValue>)
    ensures
        vals_view(s).len() == s.len(),
        forall|i: int| 0 <= i < s.len() ==> #[trigger] vals_view(s)[i] == s[i]@,
    decreases s,
{
    if s.len() > 0 {
        lemma_vals_view_index(s.drop_last());
    }
}

/// A copy of collected output, equal in view.
fn clone_values(v: &Vec<FddlValue>) -> (r: Vec<FddlValue>)
    ensures
        vals_view(r@) == vals_view(v@),
{
    let mut r: Vec<FddlValue> = Vec::new();
    let mut i: usize = 0;
    #[verifier::loop_isolation(false)]
    while i < v.len()
        invariant
            i <= v.len(),
            r@.len() == i,
            forall|k: int| 0 <= k < i ==> #[trigger] r@[k]@ == v@[k]@,
        decreases v.len() - i,
    {
        r.push(clone_value(&v[i]));
        i = i + 1;
    }
    proof {
        lemma_vals_view_index(r@);
        lemma_vals_view_index(v@);
        assert(vals_view(r@) =~= vals_view(v@));
    }
    r
}

/// A copy of an environment, equal in view.
fn clone_environment(e: &Environment) -> (r: Environment)
    ensures
        r.view_spec() == e.view_spec(),
        r.frames@.len() == e.frames@.len(),
{
    let mut frames: Vec<Vec<crate::env::Binding>> = Vec::new();
    let mut i: usize = 0;
    #[verifier::loop_isolation(false)]
    while i < e.frames.len()
        invariant
            i <= e.frames.len(),
            frames@.len() == i,
            forall|k: int|
                0 <= k < i ==> crate::env::bindings_view(#[trigger] frames@[k]@)
                    == crate::env::bindings_view(e.frames@[k]@),
        decreases e.frames.len() - i,
    {
        let src = &e.frames[i];
        let mut fr: Vec<crate::env::Binding> = Vec::new();
        let mut j: usize = 0;
        while j < src.len()
            invariant
                j <= src.len(),
                fr@.len() == j,
                forall|m: int|
                    0 <= m < j ==> #[trigger] fr@[m].name@ == src@[m].name@ && fr@[m].value@
                        == src@[m].value@,
            decreases src.len() - j,
        {
            let b = crate::env::Binding {
                name: src[j].name.clone(),
                value: clone_value(&src[j].value),
            };
            fr.push(b);
            j = j + 1;
        }
        proof {
            crate::env::lemma_bindings_view(fr@);
            crate::env::lemma_bindings_view(src@);
            assert(crate::env::bindings_view(fr@) =~= crate::env::bindings_view(src@));
        }
        frames.push(fr);
        i = i + 1;
    }
    proof {
        crate::env::lemma_frames_view(frames@);
        crate::env::lemma_frames_view(e.frames@);
        assert(crate::env::frames_view(frames@) =~= crate::env::frames_view(e.frames@));
    }
    Environment { frames }
}

impl Evaluator {
    /// Execute one statement under a fuel bound, exactly as `exec_stmt`
    /// rules: `None` reports that the fuel ran out (the state is then
    /// discarded by the caller).
    #[verifier::rlimit(100)]
    #[verifier::spinoff_prover]
    #[verifier::loop_isolation(false)]
    fn eval_stmt_fuel(&mut self, statement: &Statement, fuel: u64) -> (r: Option<
        Result<(), RuntimeError>,
    >)
        requires
            old(self).inv(),
        ensures
            final(self).inv(),
            ({
                let res = exec_stmt(
                    fuel as nat,
                    old(self).env_v(),
                    old(self).out_v(),
                    stmt_view(*statement),
                );
                match r {
                    Option::Some(rr) => res == Some(
                        (
                            final(self).env_v(),
                            final(self).out_v(),
                            match rr {
                                Result::Ok(u) => Ok::<(), ErrView>(()),
                                Result::Err(e) => Err(e@),
                            },
                        ),
                    ) && final(self).env_v().len() == old(self).env_v().len(),
                    Option::None => res is None,
                }
            }),
        decreases fuel, statement,
    {
        let ghost sv = stmt_view(*statement);
        let ghost env0 = self.env_v();
        let ghost out0 = self.out_v();
        proof {
            reveal(exec_stmt);
        }
        if fuel == 0 {
            return Option::None;
        }
        match statement {
            Statement::PrintStatement(e) => {
                match self.evaluate_expression(e) {
                    Result::Ok(v) => {
                        proof {
                            assert((self.output@.push(v)).drop_last() =~= self.output@);
                            assert((self.output@.push(v)).last() == v);
                            assert(vals_view(self.output@.push(v)) =~= vals_view(
                                self.output@,
                            ).push(v@));
                        }
                        self.output.push(v);
                        Option::Some(Result::Ok(()))
                    },
                    Result::Err(err) => Option::Some(Result::Err(err)),
                }
            },
            Statement::ExpressionStatement(e) => {
                match self.evaluate_expression(e) {
                    Result::Ok(_) => Option::Some(Result::Ok(())),
                    Result::Err(err) => Option::Some(Result::Err(err)),
                }
            },
            Statement::VariableDeclaration(name, init) => {
                let v: FddlValue = match init {
                    Option::Some(e) => {
                        match self.evaluate_expression(e) {
                            Result::Ok(v) => v,
                            Result::Err(err) => {
                                return Option::Some(Result::Err(err));
                            },
                        }
                    },
                    Option::None => FddlValue::Nil,
                };
                self.environment.define(name.clone(), v);
                Option::Some(Result::Ok(()))
            },
            Statement::Assignment { target_name, value } => {
                let v: FddlValue = match self.evaluate_expression(value) {
                    Result::Ok(v) => v,
                    Result::Err(err) => {
                        return Option::Some(Result::Err(err));
                    },
                };
                match self.environment.assign(target_name.as_str(), v) {
                    Result::Ok(u) => {
                        proof {
                            crate::env::lemma_env_assign_len(env0, target_name@, v@);
                        }
                        Option::Some(Result::Ok(()))
                    },
                    Result::Err(err) => Option::Some(Result::Err(err)),
                }
            },
            Statement::Block(statements) => {
                self.environment.push_scope();
                let ghost env1 = self.env_v();
                let ghost ssv = stmts_view(statements@);
                proof {
                    lemma_stmts_view_index(statements@);
                    reveal(exec_stmts);
                    assert(ssv.take(0) =~= Seq::<StmtView>::empty());
                    assert(exec_stmts(fuel as nat, env1, out0, ssv.take(0)) == Some(
                        (env1, out0, Ok::<(), ErrView>(())),
                    ));
                }
                let mut i: usize = 0;
                while i < statements.len()
                    invariant
                        i <= statements.len(),
                        self.inv(),
                        fuel >= 1,
                        self.env_v().len() == env1.len(),
                        exec_stmts(fuel as nat, env1, out0, ssv.take(i as int)) == Some(
                            (self.env_v(), self.out_v(), Ok::<(), ErrView>(())),
                        ),
                    decreases statements.len() - i,
                {
                    let ghost pre_env = self.env_v();
                    let ghost pre_out = self.out_v();
                    let step = self.eval_stmt_fuel(&statements[i], fuel);
                    let ghost svi = stmt_view(statements@[i as int]);
                    match step {
                        Option::None => {
                            proof {
                                lemma_stmts_snoc(fuel as nat, env1, out0, ssv.take(i as int), svi);
                                assert(ssv.take(i + 1) =~= ssv.take(i as int).push(svi));
                                lemma_stmts_extend_none(fuel as nat, env1, out0, ssv, i + 1);
                            }
                            return Option::None;
                        },
                        Option::Some(Result::Ok(u)) => {
                            proof {
                                lemma_stmts_snoc(fuel as nat, env1, out0, ssv.take(i as int), svi);
                                assert(ssv.take(i + 1) =~= ssv.take(i as int).push(svi));
                            }
                            i = i + 1;
                        },
                        Option::Some(Result::Err(err)) => {
                            proof {
                                lemma_stmts_snoc(fuel as nat, env1, out0, ssv.take(i as int), svi);
                                assert(ssv.take(i + 1) =~= ssv.take(i as int).push(svi));
                                lemma_stmts_extend_err(fuel as nat, env1, out0, ssv, i + 1);
                                assert(exec_stmts(fuel as nat, env1, out0, ssv) == Some(
                                    (self.env_v(), self.out_v(), Err::<(), ErrView>(err@)),
                                ));
                                crate::env::lemma_frames_view(self.environment.frames@);
                            }
                            self.environment.pop_scope();
                            proof {
                                assert(env0.push(Seq::empty()) == env1);
                            }
                            return Option::Some(Result::Err(err));
                        },
                    }
                }
                proof {
                    assert(ssv.take(statements@.len() as int) =~= ssv);
                    crate::env::lemma_frames_view(self.environment.frames@);
                }
                self.environment.pop_scope();
                proof {
                    assert(env0.push(Seq::empty()) == env1);
                }
                Option::Some(Result::Ok(()))
            },
            Statement::IfStatement(cond, then_branch, else_branch) => {
                let cv = match self.evaluate_expression(cond) {
                    Result::Ok(v) => v,
                    Result::Err(err) => {
                        return Option::Some(Result::Err(err));
                    },
                };
                if is_truthy_value(&cv) {
                    self.eval_stmt_fuel(then_branch, fuel)
                } else {
                    match else_branch {
                        Option::Some(eb) => self.eval_stmt_fuel(eb, fuel),
                        Option::None => Option::Some(Result::Ok(())),
                    }
                }
            },
            Statement::WhileStatement(cond, body) => {
                let cv = match self.evaluate_expression(cond) {
                    Result::Ok(v) => v,
                    Result::Err(err) => {
                        return Option::Some(Result::Err(err));
                    },
                };
                if !is_truthy_value(&cv) {
                    return Option::Some(Result::Ok(()));
                }
                match self.eval_stmt_fuel(body, fuel) {
                    Option::None => Option::None,
                    Option::Some(Result::Err(err)) => Option::Some(Result::Err(err)),
                    Option::Some(Result::Ok(u)) => self.eval_stmt_fuel(statement, fuel - 1),
                }
            },
            Statement::ForStatement(_, _, _, _) => Option::Some(
                Result::Err(mismatch("Unimplemented statement kind.")),
            ),
            Statement::FunctionDeclaration { .. } => Option::Some(
                Result::Err(mismatch("Unimplemented statement kind.")),
            ),
            Statement::ReturnStatement(_) => Option::Some(
                Result::Err(mismatch("Unimplemented statement kind.")),
            ),
        }
    }

    /// Execute one statement: exactly the outcome that `exec_stmt` assigns
    /// to it under the evaluator's step bound. A program whose loops
    /// outlive that bound is rolled back and reported as an error; the
    /// bound admits more loop steps than any machine can take.
    pub fn evaluate_statement(&mut self, statement: &Statement) -> (r: Result<(), RuntimeError>)
        requires
            old(self).inv(),
        ensures
            final(self).inv(),
            match exec_stmt(
                u64::MAX as nat,
                old(self).env_v(),
                old(self).out_v(),
                stmt_view(*statement),
            ) {
                Some(outcome) => outcome == (
                    final(self).env_v(),
                    final(self).out_v(),
                    match r {
                        Result::Ok(u) => Ok::<(), ErrView>(()),
                        Result::Err(e) => Err(e@),
                    },
                ) && final(self).env_v().len() == old(self).env_v().len(),
                None => r matches Result::Err(e) && e@ == ErrView::TypeMismatch(msg_loop_limit())
                    && final(self).env_v() == old(self).env_v() && final(self).out_v() == old(
                    self,
                ).out_v(),
            },
    {
        let saved_env = clone_environment(&self.environment);
        let saved_out = clone_values(&self.output);
        match self.eval_stmt_fuel(statement, u64::MAX) {
            Option::Some(res) => res,
            Option::None => {
                self.environment = saved_env;
                self.output = saved_out;
                Result::Err(mismatch("Loop iteration limit exceeded."))
            },
        }
    }

    /// Execute a whole program against the current environment: exactly
    /// the outcome that `exec_stmts` assigns to it under the evaluator's
    /// step bound, the sequence stopped at its first failing statement.
    #[verifier::rlimit(100)]
    #[verifier::spinoff_prover]
    #[verifier::loop_isolation(false)]
    pub fn evaluate_program(&mut self, statements: Vec<Statement>) -> (r: Result<
        (),
        RuntimeError,
    >)
        requires
            old(self).inv(),
        ensures
            final(self).inv(),
            match exec_stmts(
                u64::MAX as nat,
                old(self).env_v(),
                old(self).out_v(),
                stmts_view(statements@),
            ) {
                Some(outcome) => outcome == (
                    final(self).env_v(),
                    final(self).out_v(),
                    match r {
                        Result::Ok(u) => Ok::<(), ErrView>(()),
                        Result::Err(e) => Err(e@),
                    },
                ),
                None => r matches Result::Err(e) && e@ == ErrView::TypeMismatch(msg_loop_limit()),
            },
    {
        let ghost env0 = self.env_v();
        let ghost out0 = self.out_v();
        let ghost ssv = stmts_view(statements@);
        let ghost mx: nat = u64::MAX as nat;
        proof {
            lemma_stmts_view_index(statements@);
        }
        let mut i: usize = 0;
        proof {
            reveal(exec_stmts);
            assert(ssv.take(0) =~= Seq::<StmtView>::empty());
            assert(exec_stmts(mx, env0, out0, ssv.take(0)) == Some(
                (env0, out0, Ok::<(), ErrView>(())),
            ));
        }
        while i < statements.len()
            invariant
                i <= statements.len(),
                self.inv(),
                exec_stmts(mx, env0, out0, ssv.take(i as int)) == Some(
                    (self.env_v(), self.out_v(), Ok::<(), ErrView>(())),
                ),
            decreases statements.len() - i,
        {
            let ghost pre_env = self.env_v();
            let ghost pre_out = self.out_v();
            let res = self.evaluate_statement(&statements[i]);
            let ghost svi = stmt_view(statements@[i as int]);
            match res {
                Result::Ok(u) => {
                    proof {
                        lemma_stmts_snoc(mx, env0, out0, ssv.take(i as int), svi);
                        assert(ssv.take(i + 1) =~= ssv.take(i as int).push(svi));
                        assert(exec_stmts(mx, env0, out0, ssv.take(i + 1)) == Some(
                            (self.env_v(), self.out_v(), Ok::<(), ErrView>(())),
                        ));
                    }
                    i = i + 1;
                },
                Result::Err(err) => {
                    proof {
                        lemma_stmts_snoc(mx, env0, out0, ssv.take(i as int), svi);
                        assert(ssv.take(i + 1) =~= ssv.take(i as int).push(svi));
                        if exec_stmt(mx, pre_env, pre_out, svi) is Some {
                            lemma_stmts_extend_err(mx, env0, out0, ssv, i + 1);
                        } else {
                            lemma_stmts_extend_none(mx, env0, out0, ssv, i + 1);
                        }
                    }
                    return Result::Err(err);
                },
            }
        }
        proof {
            assert(ssv.take(statements@.len() as int) =~= ssv);
        }
        Result::Ok(())
    }
}

/// A sequence whose prefix ran out of fuel runs out of fuel./// A sequence whose prefix ran out of fuel runs out of fuel.
pub proof fn lemma_stmts_extend_none(
    f: nat,
    env: EnvV,
    out: Seq<ValueView>,
    ss: Seq<StmtView>,
    j: int,
)
    requires
        0 <= j <= ss.len(),
        exec_stmts(f, env, out, ss.take(j)) is None,
    ensures
        exec_stmts(f, env, out, ss) is None,
    decreases j,
{
    reveal_with_fuel(exec_stmts, 3);
    reveal_with_fuel(exec_stmt, 2);
    if j == 0 {
        assert(ss.take(0) =~= Seq::<StmtView>::empty());
    } else {
        assert(ss.take(j)[0] == ss[0]);
        assert(ss.take(j).drop_first() =~= ss.drop_first().take(j - 1));
        match exec_stmt(f, env, out, ss[0]) {
            Some((e1, o1, Ok(u))) => {
                lemma_stmts_extend_none(f, e1, o1, ss.drop_first(), j - 1);
            },
            _ => {},
        }
    }
}


/// Law: `and` short-circuits. Whenever the left operand evaluates to a
/// falsey value, the conjunction is false outright: the right operand is
/// never evaluated, so neither its effects nor its errors can appear.
pub proof fn lemma_and_short_circuit(env: EnvV, l: ExprView, r: ExprView)
    requires
        eval_expr(env, l) matches Ok(v) && !truthy(v),
    ensures
        eval_expr(env, ExprView::Binary(Box::new(l), Operator::And, Box::new(r))) == Ok::<
            ValueView,
            ErrView,
        >(ValueView::Boolean(false)),
{
    reveal(eval_expr);
}

/// Law: `or` short-circuits. Whenever the left operand evaluates to a
/// truthy value, the disjunction is true outright: the right operand is
/// never evaluated, so neither its effects nor its errors can appear.
pub proof fn lemma_or_short_circuit(env: EnvV, l: ExprView, r: ExprView)
    requires
        eval_expr(env, l) matches Ok(v) && truthy(v),
    ensures
        eval_expr(env, ExprView::Binary(Box::new(l), Operator::Or, Box::new(r))) == Ok::<
            ValueView,
            ErrView,
        >(ValueView::Boolean(true)),
{
    reveal(eval_expr);
}

/// Law: equality never fails and is false across kinds. Comparing any two
/// evaluated values with `==` yields a boolean — for values of different
/// kinds it is false, not a type error.
pub proof fn lemma_equality_total(op: Operator, a: ValueView, b: ValueView)
    requires
        op is EqualEqual || op is NotEqual,
    ensures
        apply_binary(op, a, b) == Ok::<ValueView, ErrView>(
            ValueView::Boolean(
                if op is EqualEqual {
                    val_eq(a, b)
                } else {
                    !val_eq(a, b)
                },
            ),
        ),
        !(val_kind_eq(a, b)) ==> apply_binary(Operator::EqualEqual, a, b) == Ok::<
            ValueView,
            ErrView,
        >(ValueView::Boolean(false)),
{
    reveal(apply_binary);
}

/// Two values of the same kind.
pub open spec fn val_kind_eq(a: ValueView, b: ValueView) -> bool {
    match (a, b) {
        (ValueView::Number(_), ValueView::Number(_)) => true,
        (ValueView::Boolean(_), ValueView::Boolean(_)) => true,
        (ValueView::Text(_), ValueView::Text(_)) => true,
        (ValueView::Nil, ValueView::Nil) => true,
        _ => false,
    }
}


/// Statement execution never disturbs the names of enclosing scopes: the
/// scope depth is kept; every scope but the innermost keeps exactly its
/// names; the innermost can only gain names; and a block, whose gains all
/// land in its own discarded scope, keeps even the innermost unchanged.
pub proof fn lemma_exec_stmt_names(f: nat, env: EnvV, out: Seq<ValueView>, s: StmtView, x: Seq<char>)
    requires
        exec_stmt(f, env, out, s) is Some,
        env.len() >= 1,
    ensures
        ({
            let e2 = exec_stmt(f, env, out, s).unwrap().0;
            &&& e2.len() == env.len()
            &&& forall|k: int|
                0 <= k < env.len() - 1 ==> has_name(#[trigger] e2[k], x) == has_name(env[k], x)
            &&& has_name(env.last(), x) ==> has_name(e2.last(), x)
            &&& (s is Block ==> has_name(e2.last(), x) == has_name(env.last(), x))
        }),
    decreases f, s,
{
    reveal_with_fuel(exec_stmt, 2);
    reveal_with_fuel(exec_stmts, 2);
    let e2 = exec_stmt(f, env, out, s).unwrap().0;
    match s {
        StmtView::VariableDeclaration(n, init) => {
            if exec_stmt(f, env, out, s).unwrap().2 is Ok {
                crate::env::lemma_env_define_names(env, n, eval_expr_value(env, init), x);
                assert(e2.last() == e2[env.len() - 1]);
            }
        },
        StmtView::Assignment { target_name, value } => {
            match eval_expr(env, value) {
                Ok(v) => {
                    if env_assign(env, target_name, v) is Some {
                        crate::env::lemma_env_assign_names(env, target_name, v, x);
                        assert(e2.last() == e2[env.len() - 1]);
                        assert(env.last() == env[env.len() - 1]);
                    }
                },
                Err(_) => {},
            }
        },
        StmtView::Block(ss) => {
            let env1 = env.push(Seq::empty());
            lemma_exec_stmts_names(f, env1, out, ss, x);
            let inner = exec_stmts(f, env1, out, ss).unwrap().0;
            assert(e2 =~= inner.drop_last());
            assert forall|k: int| 0 <= k < env.len() implies has_name(
                #[trigger] e2[k],
                x,
            ) == has_name(env[k], x) by {
                assert(e2[k] == inner[k]);
                assert(env1[k] == env[k]);
            }
            assert(e2.last() == e2[env.len() - 1]);
            assert(env.last() == env[env.len() - 1]);
        },
        StmtView::IfStatement(c, t, els) => {
            match eval_expr(env, c) {
                Ok(v) => if truthy(v) {
                    lemma_exec_stmt_names(f, env, out, *t, x);
                } else {
                    match els {
                        Some(e) => {
                            lemma_exec_stmt_names(f, env, out, *e, x);
                        },
                        None => {},
                    }
                },
                Err(_) => {},
            }
        },
        StmtView::WhileStatement(c, b) => {
            match eval_expr(env, c) {
                Ok(v) => if truthy(v) {
                    match exec_stmt(f, env, out, *b) {
                        Some((e1, o1, Ok(u))) => {
                            lemma_exec_stmt_names(f, env, out, *b, x);
                            lemma_exec_stmt_names((f - 1) as nat, e1, o1, s, x);
                        },
                        Some((e1, o1, Err(er))) => {
                            lemma_exec_stmt_names(f, env, out, *b, x);
                        },
                        None => {},
                    }
                },
                Err(_) => {},
            }
        },
        _ => {},
    }
}

/// The value a declaration's optional initializer denotes; meaningful
/// only when it does not fail.
pub open spec fn eval_expr_value(env: EnvV, init: Option<ExprView>) -> ValueView {
    match init {
        Some(e) => match eval_expr(env, e) {
            Ok(v) => v,
            Err(_) => ValueView::Nil,
        },
        None => ValueView::Nil,
    }
}

/// A statement sequence never disturbs the names of enclosing scopes.
pub proof fn lemma_exec_stmts_names(
    f: nat,
    env: EnvV,
    out: Seq<ValueView>,
    ss: Seq<StmtView>,
    x: Seq<char>,
)
    requires
        exec_stmts(f, env, out, ss) is Some,
        env.len() >= 1,
    ensures
        ({
            let e2 = exec_stmts(f, env, out, ss).unwrap().0;
            &&& e2.len() == env.len()
            &&& forall|k: int|
                0 <= k < env.len() - 1 ==> has_name(#[trigger] e2[k], x) == has_name(env[k], x)
            &&& has_name(env.last(), x) ==> has_name(e2.last(), x)
        }),
    decreases f, ss,
{
    reveal_with_fuel(exec_stmts, 2);
    reveal_with_fuel(exec_stmt, 2);
    if ss.len() > 0 {
        match exec_stmt(f, env, out, ss[0]) {
            Some((e1, o1, Ok(u))) => {
                lemma_exec_stmt_names(f, env, out, ss[0], x);
                assert(exec_stmts(f, env, out, ss) == exec_stmts(f, e1, o1, ss.drop_first()));
                lemma_exec_stmts_names(f, e1, o1, ss.drop_first(), x);
            },
            Some((e1, o1, Err(er))) => {
                lemma_exec_stmt_names(f, env, out, ss[0], x);
            },
            None => {},
        }
    }
}

/// Law: a block's declarations do not leak. A name unbound in every scope
/// before a block runs is unbound in every scope after it: a later read
/// of it still fails as an undefined variable.
pub proof fn lemma_block_no_leak(
    f: nat,
    env: EnvV,
    out: Seq<ValueView>,
    ss: Seq<StmtView>,
    x: Seq<char>,
)
    requires
        exec_stmt(f, env, out, StmtView::Block(ss)) is Some,
        env.len() >= 1,
        env_get(env, x) is None,
    ensures
        env_get(exec_stmt(f, env, out, StmtView::Block(ss)).unwrap().0, x) is None,
{
    let e2 = exec_stmt(f, env, out, StmtView::Block(ss)).unwrap().0;
    lemma_exec_stmt_names(f, env, out, StmtView::Block(ss), x);
    crate::env::lemma_env_get_none_iff(env, x);
    crate::env::lemma_env_get_none_iff(e2, x);
    assert forall|k: int| 0 <= k < e2.len() implies !has_name(#[trigger] e2[k], x) by {
        if k < env.len() - 1 {
        } else {
            assert(e2[k] == e2.last());
            assert(env[k] == env.last());
        }
    }
}

} // verus!
