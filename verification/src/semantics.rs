//! The meaning of programs: what evaluating an expression gives, what a
//! statement does, and what one step of the interpreter does.
use vstd::prelude::*;
use crate::text::decimal_text;
use vstd::math::abs;
use crate::tokenize::{KindView, TokenView, kind_text};

verus! {

// ---------------------------------------------------------------------------
// Values, variables and faults
// ---------------------------------------------------------------------------

/// The mathematical value of a runtime value.
pub enum ValView {
    Int(i64),
    Str(Seq<char>),
    Bool(bool),
}

/// The variables: each name holds a value and whether it may be reassigned.
pub type Env = Map<Seq<char>, (ValView, bool)>;

/// The mathematical value of a runtime failure. `At` names the index of the
/// token the report points at; `Bare` reports without a place; `Overflow` is
/// an arithmetic overflow, which aborts the program with a panic.
pub enum Fault {
    At(nat, Seq<char>),
    Bare(Seq<char>),
    Overflow(Seq<char>),
}

/// A program block that has been entered: the taken branch of an `if`/`elif`
/// chain, an `else` branch, or the body of a `while` loop whose condition
/// starts at the given token.
#[derive(Clone, Copy, Debug, PartialEq, Eq, Structural)]
pub enum Frame {
    Branch,
    Otherwise,
    Loop(usize),
}

/// The binary operators, by precedence level.
#[derive(Clone, Copy, Debug, PartialEq, Eq, Structural)]
pub enum BinOp {
    Eq,
    Ne,
    Lt,
    Gt,
    Add,
    Sub,
    Mul,
    Div,
    Rem,
}

/// The text `print` writes for a value.
pub open spec fn value_text(v: ValView) -> Seq<char> {
    match v {
        ValView::Int(n) => decimal_text(n as int),
        ValView::Str(s) => s,
        ValView::Bool(b) => if b {
            "true"@
        } else {
            "false"@
        },
    }
}

/// How a condition decides: a bool as it is, an integer by being non-zero;
/// a string cannot decide.
pub open spec fn condition_truth(v: ValView) -> Option<bool> {
    match v {
        ValView::Bool(b) => Some(b),
        ValView::Int(n) => Some(n != 0),
        ValView::Str(_) => None,
    }
}

/// Integer division truncated toward zero.
pub open spec fn trunc_div(a: int, b: int) -> int {
    let q: int = (abs(a) / abs(b)) as int;
    if (a < 0) != (b < 0) {
        -q
    } else {
        q
    }
}

/// The remainder of truncated division: it has the sign of the dividend.
pub open spec fn trunc_rem(a: int, b: int) -> int {
    let m: int = (abs(a) % abs(b)) as int;
    if a < 0 {
        -m
    } else {
        m
    }
}

// ---------------------------------------------------------------------------
// Messages
// ---------------------------------------------------------------------------

pub open spec fn msg_expected(expected: KindView, found: KindView) -> Seq<char> {
    "expected \""@ + kind_text(expected) + "\" but found \""@ + kind_text(found) + "\""@
}

pub open spec fn msg_expected_nothing(expected: KindView) -> Seq<char> {
    "expected \""@ + kind_text(expected) + "\" but found nothing"@
}

pub open spec fn msg_expected_identifier(found: KindView) -> Seq<char> {
    "expected an identifier but found \""@ + kind_text(found) + "\""@
}

pub open spec fn msg_undefined(name: Seq<char>) -> Seq<char> {
    "undefined variable '"@ + name + "'"@
}

pub open spec fn msg_immutable(name: Seq<char>) -> Seq<char> {
    "cannot assign to immutable variable '"@ + name + "'"@
}

pub open spec fn msg_unexpected_in_expression(found: KindView) -> Seq<char> {
    "unexpected token '"@ + kind_text(found) + "' in expression"@
}

pub open spec fn msg_unexpected_statement(found: KindView) -> Seq<char> {
    "unexpected token '"@ + kind_text(found) + "' at statement level"@
}

// ---------------------------------------------------------------------------
// Token access and expectations
// ---------------------------------------------------------------------------

pub open spec fn kind_at(toks: Seq<TokenView>, p: nat) -> Option<KindView> {
    if p < toks.len() {
        Some(toks[p as int].kind)
    } else {
        None
    }
}

/// A failure reported at the current token, or without a place past the end.
pub open spec fn fault_at_current(toks: Seq<TokenView>, p: nat, msg: Seq<char>) -> Fault {
    if p < toks.len() {
        Fault::At(p, msg)
    } else {
        Fault::Bare(msg)
    }
}

/// The position after the expected token, or the failure of not finding it.
pub open spec fn expect_at(toks: Seq<TokenView>, p: nat, k: KindView) -> Result<nat, Fault> {
    match kind_at(toks, p) {
        Some(found) => if found == k {
            Ok(p + 1)
        } else {
            Err(Fault::At(p, msg_expected(k, found)))
        },
        None => Err(Fault::Bare(msg_expected_nothing(k))),
    }
}

/// The name of the identifier at `p` and the position after it.
pub open spec fn expect_identifier(toks: Seq<TokenView>, p: nat) -> Result<(Seq<char>, nat), Fault> {
    match kind_at(toks, p) {
        Some(KindView::Identifier(name)) => Ok((name, p + 1)),
        Some(found) => Err(Fault::At(p, msg_expected_identifier(found))),
        None => Err(Fault::Bare("expected an identifier but found nothing"@)),
    }
}

/// A placeholder for positions that the guards in the definitions below
/// rule out; evaluation always moves forward within the tokens.
pub open spec fn unreachable_fault() -> Fault {
    Fault::Bare(Seq::empty())
}

// ---------------------------------------------------------------------------
// Operators
// ---------------------------------------------------------------------------

pub open spec fn comparison_op(k: Option<KindView>) -> Option<BinOp> {
    match k {
        Some(KindView::EqualEqual) => Some(BinOp::Eq),
        Some(KindView::NotEqual) => Some(BinOp::Ne),
        Some(KindView::Less) => Some(BinOp::Lt),
        Some(KindView::Greater) => Some(BinOp::Gt),
        _ => None,
    }
}

pub open spec fn addition_op(k: Option<KindView>) -> Option<BinOp> {
    match k {
        Some(KindView::Plus) => Some(BinOp::Add),
        Some(KindView::Minus) => Some(BinOp::Sub),
        _ => None,
    }
}

pub open spec fn multiplication_op(k: Option<KindView>) -> Option<BinOp> {
    match k {
        Some(KindView::Star) => Some(BinOp::Mul),
        Some(KindView::Slash) => Some(BinOp::Div),
        Some(KindView::Percent) => Some(BinOp::Rem),
        _ => None,
    }
}

/// A comparison of two values; `at` is where the evaluation stands.
pub open spec fn compare_values(
    toks: Seq<TokenView>,
    op: BinOp,
    l: ValView,
    r: ValView,
    at: nat,
) -> Result<ValView, Fault> {
    match (l, r) {
        (ValView::Int(a), ValView::Int(b)) => Ok(
            ValView::Bool(
                match op {
                    BinOp::Eq => a == b,
                    BinOp::Ne => a != b,
                    BinOp::Lt => a < b,
                    _ => a > b,
                },
            ),
        ),
        (ValView::Str(a), ValView::Str(b)) => match op {
            BinOp::Eq => Ok(ValView::Bool(a == b)),
            BinOp::Ne => Ok(ValView::Bool(a != b)),
            _ => Err(
                fault_at_current(toks, at, "only == and != are supported for string comparison"@),
            ),
        },
        (ValView::Bool(a), ValView::Bool(b)) => match op {
            BinOp::Eq => Ok(ValView::Bool(a == b)),
            BinOp::Ne => Ok(ValView::Bool(a != b)),
            _ => Err(
                fault_at_current(toks, at, "only == and != are supported for bool comparison"@),
            ),
        },
        _ => Err(fault_at_current(toks, at, "type mismatch in comparison"@)),
    }
}

/// Addition and subtraction: integers wrap around on overflow, strings
/// concatenate with `+`.
pub open spec fn add_values(
    toks: Seq<TokenView>,
    op: BinOp,
    l: ValView,
    r: ValView,
    at: nat,
) -> Result<ValView, Fault> {
    match (l, r) {
        (ValView::Int(a), ValView::Int(b)) => Ok(
            ValView::Int(
                if op == BinOp::Add {
                    a.wrapping_add(b)
                } else {
                    a.wrapping_sub(b)
                },
            ),
        ),
        (ValView::Str(a), ValView::Str(b)) => if op == BinOp::Add {
            Ok(ValView::Str(a + b))
        } else {
            Err(
                fault_at_current(
                    toks,
                    at,
                    "operator not supported for strings (use + to concat)"@,
                ),
            )
        },
        _ => Err(fault_at_current(toks, at, "type mismatch in addition/subtraction"@)),
    }
}

/// Multiplication wraps; division and remainder truncate toward zero, fail on
/// a zero divisor, and overflow only for the least integer by -1.
pub open spec fn multiply_values(
    toks: Seq<TokenView>,
    op: BinOp,
    l: ValView,
    r: ValView,
    at: nat,
) -> Result<ValView, Fault> {
    match (l, r) {
        (ValView::Int(a), ValView::Int(b)) => if op == BinOp::Mul {
            Ok(ValView::Int(a.wrapping_mul(b)))
        } else if op == BinOp::Div {
            if b == 0 {
                Err(fault_at_current(toks, at, "division by zero"@))
            } else if a == i64::MIN && b == -1 {
                Err(Fault::Overflow("attempt to divide with overflow"@))
            } else {
                Ok(ValView::Int(trunc_div(a as int, b as int) as i64))
            }
        } else {
            if b == 0 {
                Err(fault_at_current(toks, at, "modulo by zero"@))
            } else if a == i64::MIN && b == -1 {
                Err(Fault::Overflow("attempt to calculate the remainder with overflow"@))
            } else {
                Ok(ValView::Int(trunc_rem(a as int, b as int) as i64))
            }
        },
        _ => Err(fault_at_current(toks, at, "arithmetic requires integer operands"@)),
    }
}

// ---------------------------------------------------------------------------
// Expressions
//
//   expr           -> comparison
//   comparison     -> addition ( ( "==" | "!=" | "<" | ">" ) addition )*
//   addition       -> multiplication ( ( "+" | "-" ) multiplication )*
//   multiplication -> unary ( ( "*" | "/" | "%" ) unary )*
//   unary          -> ( "!" | "-" ) unary | primary
//   primary        -> INTEGER | STRING | IDENTIFIER | "(" expr ")"
//
// Each function gives the value and the position after the expression that
// starts at `p`, or the failure that stops the evaluation.
// ---------------------------------------------------------------------------

pub open spec fn eval_comparison(toks: Seq<TokenView>, env: Env, p: nat) -> Result<
    (ValView, nat),
    Fault,
>
    decreases toks.len() - p, 8int,
{
    match eval_addition(toks, env, p) {
        Err(e) => Err(e),
        Ok((v, q)) => if p <= q <= toks.len() {
            comparison_rest(toks, env, v, q)
        } else {
            Err(unreachable_fault())
        },
    }
}

pub open spec fn comparison_rest(toks: Seq<TokenView>, env: Env, left: ValView, q: nat) -> Result<
    (ValView, nat),
    Fault,
>
    decreases toks.len() - q, 7int,
{
    match comparison_op(kind_at(toks, q)) {
        None => Ok((left, q)),
        Some(op) => match eval_addition(toks, env, q + 1) {
            Err(e) => Err(e),
            Ok((right, q2)) => match compare_values(toks, op, left, right, q2) {
                Err(e) => Err(e),
                Ok(v) => if q < q2 <= toks.len() {
                    comparison_rest(toks, env, v, q2)
                } else {
                    Err(unreachable_fault())
                },
            },
        },
    }
}

pub open spec fn eval_addition(toks: Seq<TokenView>, env: Env, p: nat) -> Result<
    (ValView, nat),
    Fault,
>
    decreases toks.len() - p, 6int,
{
    match eval_multiplication(toks, env, p) {
        Err(e) => Err(e),
        Ok((v, q)) => if p <= q <= toks.len() {
            addition_rest(toks, env, v, q)
        } else {
            Err(unreachable_fault())
        },
    }
}

pub open spec fn addition_rest(toks: Seq<TokenView>, env: Env, left: ValView, q: nat) -> Result<
    (ValView, nat),
    Fault,
>
    decreases toks.len() - q, 5int,
{
    match addition_op(kind_at(toks, q)) {
        None => Ok((left, q)),
        Some(op) => match eval_multiplication(toks, env, q + 1) {
            Err(e) => Err(e),
            Ok((right, q2)) => match add_values(toks, op, left, right, q2) {
                Err(e) => Err(e),
                Ok(v) => if q < q2 <= toks.len() {
                    addition_rest(toks, env, v, q2)
                } else {
                    Err(unreachable_fault())
                },
            },
        },
    }
}

pub open spec fn eval_multiplication(toks: Seq<TokenView>, env: Env, p: nat) -> Result<
    (ValView, nat),
    Fault,
>
    decreases toks.len() - p, 4int,
{
    match eval_unary(toks, env, p) {
        Err(e) => Err(e),
        Ok((v, q)) => if p <= q <= toks.len() {
            multiplication_rest(toks, env, v, q)
        } else {
            Err(unreachable_fault())
        },
    }
}

pub open spec fn multiplication_rest(
    toks: Seq<TokenView>,
    env: Env,
    left: ValView,
    q: nat,
) -> Result<(ValView, nat), Fault>
    decreases toks.len() - q, 3int,
{
    match multiplication_op(kind_at(toks, q)) {
        None => Ok((left, q)),
        Some(op) => match eval_unary(toks, env, q + 1) {
            Err(e) => Err(e),
            Ok((right, q2)) => match multiply_values(toks, op, left, right, q2) {
                Err(e) => Err(e),
                Ok(v) => if q < q2 <= toks.len() {
                    multiplication_rest(toks, env, v, q2)
                } else {
                    Err(unreachable_fault())
                },
            },
        },
    }
}

pub open spec fn eval_unary(toks: Seq<TokenView>, env: Env, p: nat) -> Result<
    (ValView, nat),
    Fault,
>
    decreases toks.len() - p, 2int,
{
    match kind_at(toks, p) {
        Some(KindView::Minus) => match eval_unary(toks, env, p + 1) {
            Err(e) => Err(e),
            Ok((ValView::Int(n), q)) => Ok((ValView::Int(0i64.wrapping_sub(n)), q)),
            Ok(_) => Err(Fault::At(p, "unary '-' requires an integer operand"@)),
        },
        Some(KindView::Not) => match eval_unary(toks, env, p + 1) {
            Err(e) => Err(e),
            Ok((ValView::Bool(b), q)) => Ok((ValView::Bool(!b), q)),
            Ok(_) => Err(Fault::At(p, "unary '!' requires a boolean operand"@)),
        },
        _ => eval_primary(toks, env, p),
    }
}

pub open spec fn eval_primary(toks: Seq<TokenView>, env: Env, p: nat) -> Result<
    (ValView, nat),
    Fault,
>
    decreases toks.len() - p, 1int,
{
    match kind_at(toks, p) {
        None => Err(Fault::Bare("unexpected end of input in expression"@)),
        Some(KindView::Integer(n)) => Ok((ValView::Int(n), p + 1)),
        Some(KindView::Str(s)) => Ok((ValView::Str(s), p + 1)),
        Some(KindView::Identifier(name)) => if env.contains_key(name) {
            Ok((env[name].0, p + 1))
        } else {
            Err(Fault::At(p, msg_undefined(name)))
        },
        Some(KindView::LParen) => match eval_comparison(toks, env, p + 1) {
            Err(e) => Err(e),
            Ok((v, q)) => match expect_at(toks, q, KindView::RParen) {
                Err(e) => Err(e),
                Ok(q2) => Ok((v, q2)),
            },
        },
        Some(other) => Err(Fault::At(p, msg_unexpected_in_expression(other))),
    }
}

/// The value of the expression that starts at `p`.
pub open spec fn eval_expression(toks: Seq<TokenView>, env: Env, p: nat) -> Result<
    (ValView, nat),
    Fault,
> {
    eval_comparison(toks, env, p)
}


// ---------------------------------------------------------------------------
// Skipping code that is not run
// ---------------------------------------------------------------------------

/// Skips to just after the `}` that closes a block whose nesting depth at `p` is `depth`.
pub open spec fn skip_braces(toks: Seq<TokenView>, p: nat, depth: nat) -> Result<nat, Fault>
    decreases toks.len() - p,
{
    match kind_at(toks, p) {
        None => Err(Fault::Bare("unterminated block"@)),
        Some(KindView::LBrace) => skip_braces(toks, p + 1, depth + 1),
        Some(KindView::RBrace) => if depth <= 1 {
            Ok(p + 1)
        } else {
            skip_braces(toks, p + 1, (depth - 1) as nat)
        },
        Some(_) => skip_braces(toks, p + 1, depth),
    }
}

/// Skips a block `{ ... }` that starts at `p`, without running it.
pub open spec fn skip_block(toks: Seq<TokenView>, p: nat) -> Result<nat, Fault> {
    match expect_at(toks, p, KindView::LBrace) {
        Err(e) => Err(e),
        Ok(p1) => skip_braces(toks, p1, 1),
    }
}

/// Skips to just after the `)` that closes an `elif` condition.
pub open spec fn skip_parens(toks: Seq<TokenView>, p: nat, depth: nat) -> Result<nat, Fault>
    decreases toks.len() - p,
{
    match kind_at(toks, p) {
        None => Err(Fault::Bare("unterminated elif condition"@)),
        Some(KindView::LParen) => skip_parens(toks, p + 1, depth + 1),
        Some(KindView::RParen) => if depth <= 1 {
            Ok(p + 1)
        } else {
            skip_parens(toks, p + 1, (depth - 1) as nat)
        },
        Some(_) => skip_parens(toks, p + 1, depth),
    }
}

/// After a taken branch: skips the `elif` and `else` branches that follow it.
pub open spec fn skip_chain(toks: Seq<TokenView>, p: nat) -> Result<nat, Fault>
    decreases toks.len() - p,
{
    match kind_at(toks, p) {
        Some(KindView::Elif) => match expect_at(toks, p + 1, KindView::LParen) {
            Err(e) => Err(e),
            Ok(p2) => match skip_parens(toks, p2, 1) {
                Err(e) => Err(e),
                Ok(p3) => match skip_block(toks, p3) {
                    Err(e) => Err(e),
                    Ok(p4) => if p < p4 <= toks.len() {
                        skip_chain(toks, p4)
                    } else {
                        Err(unreachable_fault())
                    },
                },
            },
        },
        Some(KindView::Else) => skip_block(toks, p + 1),
        _ => Ok(p),
    }
}

// ---------------------------------------------------------------------------
// Statements
//
// A statement that enters a block ends just after its `{` and hands back the
// frame to push; the block's statements are the steps that follow.
// ---------------------------------------------------------------------------

/// After an `if` whose condition was false: the first `elif` whose condition
/// holds, or the `else`, is entered; the others are skipped.
pub open spec fn elif_chain(toks: Seq<TokenView>, env: Env, p: nat) -> Result<
    (nat, Option<Frame>),
    Fault,
>
    decreases toks.len() - p,
{
    match kind_at(toks, p) {
        Some(KindView::Elif) => match expect_at(toks, p + 1, KindView::LParen) {
            Err(e) => Err(e),
            Ok(p2) => match eval_expression(toks, env, p2) {
                Err(e) => Err(e),
                Ok((c, p3)) => match expect_at(toks, p3, KindView::RParen) {
                    Err(e) => Err(e),
                    Ok(p4) => match condition_truth(c) {
                        None => Err(
                            fault_at_current(
                                toks,
                                p4,
                                "elif condition must evaluate to a bool or integer"@,
                            ),
                        ),
                        Some(true) => match expect_at(toks, p4, KindView::LBrace) {
                            Err(e) => Err(e),
                            Ok(p5) => Ok((p5, Some(Frame::Branch))),
                        },
                        Some(false) => match skip_block(toks, p4) {
                            Err(e) => Err(e),
                            Ok(p5) => if p < p5 <= toks.len() {
                                elif_chain(toks, env, p5)
                            } else {
                                Err(unreachable_fault())
                            },
                        },
                    },
                },
            },
        },
        Some(KindView::Else) => match expect_at(toks, p + 1, KindView::LBrace) {
            Err(e) => Err(e),
            Ok(p2) => Ok((p2, Some(Frame::Otherwise))),
        },
        _ => Ok((p, None)),
    }
}

/// `if ( expr ) { block } [elif ( expr ) { block }]* [else { block }]`
pub open spec fn if_statement(toks: Seq<TokenView>, env: Env, p: nat) -> Result<
    (nat, Option<Frame>),
    Fault,
> {
    match expect_at(toks, p, KindView::If) {
        Err(e) => Err(e),
        Ok(p1) => match expect_at(toks, p1, KindView::LParen) {
            Err(e) => Err(e),
            Ok(p2) => match eval_expression(toks, env, p2) {
                Err(e) => Err(e),
                Ok((c, p3)) => match expect_at(toks, p3, KindView::RParen) {
                    Err(e) => Err(e),
                    Ok(p4) => match condition_truth(c) {
                        None => Err(
                            fault_at_current(
                                toks,
                                p4,
                                "if condition must evaluate to a bool or integer"@,
                            ),
                        ),
                        Some(true) => match expect_at(toks, p4, KindView::LBrace) {
                            Err(e) => Err(e),
                            Ok(p5) => Ok((p5, Some(Frame::Branch))),
                        },
                        Some(false) => match skip_block(toks, p4) {
                            Err(e) => Err(e),
                            Ok(p5) => elif_chain(toks, env, p5),
                        },
                    },
                },
            },
        },
    }
}

/// Tests the condition of a `while` loop that starts at `c`: the body is
/// entered when it holds and skipped when it does not.
pub open spec fn loop_test(toks: Seq<TokenView>, env: Env, c: nat) -> Result<
    (nat, Option<Frame>),
    Fault,
> {
    match eval_expression(toks, env, c) {
        Err(e) => Err(e),
        Ok((v, q)) => match expect_at(toks, q, KindView::RParen) {
            Err(e) => Err(e),
            Ok(q1) => match condition_truth(v) {
                None => Err(
                    fault_at_current(toks, q1, "while condition must evaluate to a bool or integer"@),
                ),
                Some(true) => match expect_at(toks, q1, KindView::LBrace) {
                    Err(e) => Err(e),
                    Ok(q2) => Ok((q2, Some(Frame::Loop(c as usize)))),
                },
                Some(false) => match skip_block(toks, q1) {
                    Err(e) => Err(e),
                    Ok(q2) => Ok((q2, None)),
                },
            },
        },
    }
}

/// `while ( expr ) { block }`
pub open spec fn while_statement(toks: Seq<TokenView>, env: Env, p: nat) -> Result<
    (nat, Option<Frame>),
    Fault,
> {
    match expect_at(toks, p, KindView::While) {
        Err(e) => Err(e),
        Ok(p1) => match expect_at(toks, p1, KindView::LParen) {
            Err(e) => Err(e),
            Ok(c) => loop_test(toks, env, c),
        },
    }
}

/// `let [mut] name = expr ;` binds `name`, replacing any earlier binding.
pub open spec fn let_statement(toks: Seq<TokenView>, env: Env, p: nat) -> Result<(nat, Env), Fault> {
    match expect_at(toks, p, KindView::Let) {
        Err(e) => Err(e),
        Ok(p1) => {
            let is_mut = kind_at(toks, p1) == Some(KindView::Mut);
            let p2 = if is_mut {
                p1 + 1
            } else {
                p1
            };
            match expect_identifier(toks, p2) {
                Err(e) => Err(e),
                Ok((name, p3)) => match expect_at(toks, p3, KindView::Equal) {
                    Err(e) => Err(e),
                    Ok(p4) => match eval_expression(toks, env, p4) {
                        Err(e) => Err(e),
                        Ok((v, p5)) => match expect_at(toks, p5, KindView::Semicolon) {
                            Err(e) => Err(e),
                            Ok(p6) => Ok((p6, env.insert(name, (v, is_mut)))),
                        },
                    },
                },
            }
        },
    }
}

/// `name = expr ;` from its `=` at `q`: only a mutable variable may be
/// reassigned; the value is evaluated first.
pub open spec fn assign_statement(toks: Seq<TokenView>, env: Env, name: Seq<char>, q: nat) -> Result<
    (nat, Env),
    Fault,
> {
    match expect_at(toks, q, KindView::Equal) {
        Err(e) => Err(e),
        Ok(q1) => match eval_expression(toks, env, q1) {
            Err(e) => Err(e),
            Ok((v, q2)) => match expect_at(toks, q2, KindView::Semicolon) {
                Err(e) => Err(e),
                Ok(q3) => if env.contains_key(name) {
                    if env[name].1 {
                        Ok((q3, env.insert(name, (v, true))))
                    } else {
                        Err(Fault::At(q, msg_immutable(name)))
                    }
                } else {
                    Err(Fault::At(q, msg_undefined(name)))
                },
            },
        },
    }
}

/// The values of a `print` statement from `p` on, up to its `;`, with the
/// text they print; commas between them are optional.
pub open spec fn print_items(toks: Seq<TokenView>, env: Env, p: nat, first: bool) -> (
    Seq<char>,
    Result<nat, Fault>,
)
    decreases toks.len() - p,
{
    match kind_at(toks, p) {
        None => (Seq::empty(), Ok(p)),
        Some(KindView::Semicolon) => (Seq::empty(), Ok(p)),
        Some(_) => {
            let p1 = if !first && kind_at(toks, p) == Some(KindView::Comma) {
                p + 1
            } else {
                p
            };
            match eval_expression(toks, env, p1) {
                Err(e) => (Seq::empty(), Err(e)),
                Ok((v, p2)) => if p < p2 <= toks.len() {
                    let (rest, r) = print_items(toks, env, p2, false);
                    (value_text(v) + rest, r)
                } else {
                    (Seq::empty(), Err(unreachable_fault()))
                },
            }
        },
    }
}

/// `print expr [, expr]* ;` writes its values and then a newline.
pub open spec fn print_statement(toks: Seq<TokenView>, env: Env, p: nat) -> (
    Seq<char>,
    Result<nat, Fault>,
) {
    match expect_at(toks, p, KindView::Print) {
        Err(e) => (Seq::empty(), Err(e)),
        Ok(p1) => {
            let (out, r) = print_items(toks, env, p1, true);
            match r {
                Err(e) => (out, Err(e)),
                Ok(p2) => (out + "\n"@, expect_at(toks, p2, KindView::Semicolon)),
            }
        },
    }
}

/// What a statement that starts at `p` does: the text it prints and the
/// position, variables and entered block after it.
pub open spec fn statement(toks: Seq<TokenView>, env: Env, p: nat) -> (
    Seq<char>,
    Result<(nat, Env, Option<Frame>), Fault>,
) {
    match kind_at(toks, p) {
        Some(KindView::Let) => (
            Seq::empty(),
            match let_statement(toks, env, p) {
                Err(e) => Err(e),
                Ok((q, env2)) => Ok((q, env2, None)),
            },
        ),
        Some(KindView::Print) => {
            let (out, r) = print_statement(toks, env, p);
            (
                out,
                match r {
                    Err(e) => Err(e),
                    Ok(q) => Ok((q, env, None)),
                },
            )
        },
        Some(KindView::If) => (
            Seq::empty(),
            match if_statement(toks, env, p) {
                Err(e) => Err(e),
                Ok((q, f)) => Ok((q, env, f)),
            },
        ),
        Some(KindView::While) => (
            Seq::empty(),
            match while_statement(toks, env, p) {
                Err(e) => Err(e),
                Ok((q, f)) => Ok((q, env, f)),
            },
        ),
        Some(KindView::Identifier(name)) => (
            Seq::empty(),
            if kind_at(toks, p + 1) == Some(KindView::Equal) {
                match assign_statement(toks, env, name, p + 1) {
                    Err(e) => Err(e),
                    Ok((q, env2)) => Ok((q, env2, None)),
                }
            } else {
                Err(Fault::At(p, "expected '=' after identifier for assignment"@))
            },
        ),
        Some(KindView::Eof) => (Seq::empty(), Ok((p, env, None))),
        None => (Seq::empty(), Ok((p, env, None))),
        Some(other) => (Seq::empty(), Err(Fault::At(p, msg_unexpected_statement(other)))),
    }
}

// ---------------------------------------------------------------------------
// The interpreter's steps
// ---------------------------------------------------------------------------

/// Where the interpreter stands: the next token, the variables, and the
/// blocks entered and not yet left, innermost last.
pub struct MachineState {
    pub position: nat,
    pub env: Env,
    pub frames: Seq<Frame>,
}

/// What a step leads to.
pub enum StepStatus {
    Running(MachineState),
    Finished,
    Failed(Fault),
}

/// What a step prints, and what it leads to.
pub struct StepView {
    pub printed: Seq<char>,
    pub status: StepStatus,
}

/// Leaves the innermost block at its `}`: after a taken branch the rest of
/// its chain is skipped; after a loop body the loop's condition is tested again.
pub open spec fn close_block(toks: Seq<TokenView>, st: MachineState) -> Result<MachineState, Fault> {
    let frame = st.frames.last();
    let outer = st.frames.drop_last();
    match expect_at(toks, st.position, KindView::RBrace) {
        Err(e) => Err(e),
        Ok(p1) => match frame {
            Frame::Branch => match skip_chain(toks, p1) {
                Err(e) => Err(e),
                Ok(p2) => Ok(MachineState { position: p2, env: st.env, frames: outer }),
            },
            Frame::Otherwise => Ok(MachineState { position: p1, env: st.env, frames: outer }),
            Frame::Loop(c) => match loop_test(toks, st.env, c as nat) {
                Err(e) => Err(e),
                Ok((q, f)) => Ok(
                    MachineState {
                        position: q,
                        env: st.env,
                        frames: match f {
                            Some(fr) => outer.push(fr),
                            None => outer,
                        },
                    },
                ),
            },
        },
    }
}

/// One step: outside any block, the end of the program finishes it; inside a
/// block, its `}` leaves it, and reaching the end of the program instead
/// fails as a missing `}`; otherwise one statement runs.
pub open spec fn machine_step(toks: Seq<TokenView>, st: MachineState) -> StepView {
    let k = kind_at(toks, st.position);
    if st.frames.len() == 0 && (k is None || k == Some(KindView::Eof)) {
        StepView { printed: Seq::empty(), status: StepStatus::Finished }
    } else if st.frames.len() > 0 && (k is None || k == Some(KindView::RBrace) || k == Some(
        KindView::Eof,
    )) {
        StepView {
            printed: Seq::empty(),
            status: match close_block(toks, st) {
                Err(e) => StepStatus::Failed(e),
                Ok(st2) => StepStatus::Running(st2),
            },
        }
    } else {
        let (out, r) = statement(toks, st.env, st.position);
        StepView {
            printed: out,
            status: match r {
                Err(e) => StepStatus::Failed(e),
                Ok((q, env2, f)) => StepStatus::Running(
                    MachineState {
                        position: q,
                        env: env2,
                        frames: match f {
                            Some(fr) => st.frames.push(fr),
                            None => st.frames,
                        },
                    },
                ),
            },
        }
    }
}



// ---------------------------------------------------------------------------
// Braces: what running and skipping have in common
// ---------------------------------------------------------------------------

/// No brace among the tokens from `p` up to `q`.
pub open spec fn no_braces(toks: Seq<TokenView>, p: nat, q: nat) -> bool {
    forall|i: int|
        p <= i < q ==> #[trigger] toks[i].kind != KindView::LBrace && toks[i].kind
            != KindView::RBrace
}

proof fn lemma_no_braces_join(toks: Seq<TokenView>, p: nat, q: nat, r: nat)
    requires
        no_braces(toks, p, q),
        no_braces(toks, q, r),
    ensures
        no_braces(toks, p, r),
{
}

pub(crate) proof fn lemma_comparison_no_braces(toks: Seq<TokenView>, env: Env, p: nat)
    requires
        p <= toks.len(),
    ensures
        eval_comparison(toks, env, p) matches Ok((_, q)) ==> p < q <= toks.len() && no_braces(
            toks,
            p,
            q,
        ),
    decreases toks.len() - p, 8int,
{
    lemma_addition_no_braces(toks, env, p);
    if let Ok((v, q)) = eval_addition(toks, env, p) {
        lemma_comparison_rest_no_braces(toks, env, v, q);
        if let Ok((_, q2)) = comparison_rest(toks, env, v, q) {
            lemma_no_braces_join(toks, p, q, q2);
        }
    }
}

proof fn lemma_comparison_rest_no_braces(toks: Seq<TokenView>, env: Env, left: ValView, q: nat)
    requires
        q <= toks.len(),
    ensures
        comparison_rest(toks, env, left, q) matches Ok((_, q2)) ==> q <= q2 <= toks.len()
            && no_braces(toks, q, q2),
    decreases toks.len() - q, 7int,
{
    if let Some(op) = comparison_op(kind_at(toks, q)) {
        lemma_addition_no_braces(toks, env, q + 1);
        if let Ok((right, q2)) = eval_addition(toks, env, q + 1) {
            if let Ok(v) = compare_values(toks, op, left, right, q2) {
                lemma_comparison_rest_no_braces(toks, env, v, q2);
                if let Ok((_, q3)) = comparison_rest(toks, env, v, q2) {
                    assert(no_braces(toks, q, q + 1));
                    lemma_no_braces_join(toks, q, q + 1, q2);
                    lemma_no_braces_join(toks, q, q2, q3);
                }
            }
        }
    }
}

proof fn lemma_addition_no_braces(toks: Seq<TokenView>, env: Env, p: nat)
    requires
        p <= toks.len(),
    ensures
        eval_addition(toks, env, p) matches Ok((_, q)) ==> p < q <= toks.len() && no_braces(
            toks,
            p,
            q,
        ),
    decreases toks.len() - p, 6int,
{
    lemma_multiplication_no_braces(toks, env, p);
    if let Ok((v, q)) = eval_multiplication(toks, env, p) {
        lemma_addition_rest_no_braces(toks, env, v, q);
        if let Ok((_, q2)) = addition_rest(toks, env, v, q) {
            lemma_no_braces_join(toks, p, q, q2);
        }
    }
}

proof fn lemma_addition_rest_no_braces(toks: Seq<TokenView>, env: Env, left: ValView, q: nat)
    requires
        q <= toks.len(),
    ensures
        addition_rest(toks, env, left, q) matches Ok((_, q2)) ==> q <= q2 <= toks.len()
            && no_braces(toks, q, q2),
    decreases toks.len() - q, 5int,
{
    if let Some(op) = addition_op(kind_at(toks, q)) {
        lemma_multiplication_no_braces(toks, env, q + 1);
        if let Ok((right, q2)) = eval_multiplication(toks, env, q + 1) {
            if let Ok(v) = add_values(toks, op, left, right, q2) {
                lemma_addition_rest_no_braces(toks, env, v, q2);
                if let Ok((_, q3)) = addition_rest(toks, env, v, q2) {
                    assert(no_braces(toks, q, q + 1));
                    lemma_no_braces_join(toks, q, q + 1, q2);
                    lemma_no_braces_join(toks, q, q2, q3);
                }
            }
        }
    }
}

proof fn lemma_multiplication_no_braces(toks: Seq<TokenView>, env: Env, p: nat)
    requires
        p <= toks.len(),
    ensures
        eval_multiplication(toks, env, p) matches Ok((_, q)) ==> p < q <= toks.len()
            && no_braces(toks, p, q),
    decreases toks.len() - p, 4int,
{
    lemma_unary_no_braces(toks, env, p);
    if let Ok((v, q)) = eval_unary(toks, env, p) {
        lemma_multiplication_rest_no_braces(toks, env, v, q);
        if let Ok((_, q2)) = multiplication_rest(toks, env, v, q) {
            lemma_no_braces_join(toks, p, q, q2);
        }
    }
}

proof fn lemma_multiplication_rest_no_braces(
    toks: Seq<TokenView>,
    env: Env,
    left: ValView,
    q: nat,
)
    requires
        q <= toks.len(),
    ensures
        multiplication_rest(toks, env, left, q) matches Ok((_, q2)) ==> q <= q2 <= toks.len()
            && no_braces(toks, q, q2),
    decreases toks.len() - q, 3int,
{
    if let Some(op) = multiplication_op(kind_at(toks, q)) {
        lemma_unary_no_braces(toks, env, q + 1);
        if let Ok((right, q2)) = eval_unary(toks, env, q + 1) {
            if let Ok(v) = multiply_values(toks, op, left, right, q2) {
                lemma_multiplication_rest_no_braces(toks, env, v, q2);
                if let Ok((_, q3)) = multiplication_rest(toks, env, v, q2) {
                    assert(no_braces(toks, q, q + 1));
                    lemma_no_braces_join(toks, q, q + 1, q2);
                    lemma_no_braces_join(toks, q, q2, q3);
                }
            }
        }
    }
}

proof fn lemma_unary_no_braces(toks: Seq<TokenView>, env: Env, p: nat)
    requires
        p <= toks.len(),
    ensures
        eval_unary(toks, env, p) matches Ok((_, q)) ==> p < q <= toks.len() && no_braces(
            toks,
            p,
            q,
        ),
    decreases toks.len() - p, 2int,
{
    match kind_at(toks, p) {
        Some(KindView::Minus) => {
            lemma_unary_no_braces(toks, env, p + 1);
            if let Ok((_, q)) = eval_unary(toks, env, p + 1) {
                assert(no_braces(toks, p, p + 1));
                lemma_no_braces_join(toks, p, p + 1, q);
            }
        },
        Some(KindView::Not) => {
            lemma_unary_no_braces(toks, env, p + 1);
            if let Ok((_, q)) = eval_unary(toks, env, p + 1) {
                assert(no_braces(toks, p, p + 1));
                lemma_no_braces_join(toks, p, p + 1, q);
            }
        },
        _ => {
            lemma_primary_no_braces(toks, env, p);
        },
    }
}

proof fn lemma_primary_no_braces(toks: Seq<TokenView>, env: Env, p: nat)
    requires
        p <= toks.len(),
    ensures
        eval_primary(toks, env, p) matches Ok((_, q)) ==> p < q <= toks.len() && no_braces(
            toks,
            p,
            q,
        ),
    decreases toks.len() - p, 1int,
{
    if kind_at(toks, p) == Some(KindView::LParen) {
        lemma_comparison_no_braces(toks, env, p + 1);
        if let Ok((_, q)) = eval_comparison(toks, env, p + 1) {
            if expect_at(toks, q, KindView::RParen) is Ok {
                assert(no_braces(toks, p, p + 1));
                assert(no_braces(toks, q, q + 1));
                lemma_no_braces_join(toks, p, p + 1, q);
                lemma_no_braces_join(toks, p, q, q + 1);
            }
        }
    }
}

/// Skipping passes over brace-free tokens without counting them.
proof fn lemma_skip_braces_free(toks: Seq<TokenView>, p: nat, q: nat, depth: nat)
    requires
        p <= q <= toks.len(),
        no_braces(toks, p, q),
    ensures
        skip_braces(toks, p, depth) == skip_braces(toks, q, depth),
    decreases q - p,
{
    if p < q {
        assert(toks[p as int].kind != KindView::LBrace && toks[p as int].kind != KindView::RBrace);
        lemma_skip_braces_free(toks, p + 1, q, depth);
    }
}

proof fn lemma_let_no_braces(toks: Seq<TokenView>, env: Env, p: nat)
    requires
        p <= toks.len(),
    ensures
        let_statement(toks, env, p) matches Ok((q, _)) ==> p < q <= toks.len() && no_braces(
            toks,
            p,
            q,
        ),
{
    if let Ok((q, _)) = let_statement(toks, env, p) {
        let p1 = p + 1;
        let p2 = if kind_at(toks, p1) == Some(KindView::Mut) {
            p1 + 1
        } else {
            p1
        };
        let p4 = p2 + 2;
        lemma_comparison_no_braces(toks, env, p4);
        let p5 = eval_expression(toks, env, p4)->Ok_0.1;
        assert(no_braces(toks, p, p4));
        lemma_no_braces_join(toks, p, p4, p5);
        assert(no_braces(toks, p5, p5 + 1));
        lemma_no_braces_join(toks, p, p5, p5 + 1);
    }
}

proof fn lemma_assign_no_braces(toks: Seq<TokenView>, env: Env, name: Seq<char>, q: nat)
    requires
        q <= toks.len(),
    ensures
        assign_statement(toks, env, name, q) matches Ok((r, _)) ==> q < r <= toks.len()
            && no_braces(toks, q, r),
{
    if let Ok((r, _)) = assign_statement(toks, env, name, q) {
        lemma_comparison_no_braces(toks, env, q + 1);
        let q2 = eval_expression(toks, env, q + 1)->Ok_0.1;
        assert(no_braces(toks, q, q + 1));
        lemma_no_braces_join(toks, q, q + 1, q2);
        assert(no_braces(toks, q2, q2 + 1));
        lemma_no_braces_join(toks, q, q2, q2 + 1);
    }
}

proof fn lemma_print_no_braces(toks: Seq<TokenView>, env: Env, p: nat)
    requires
        p <= toks.len(),
    ensures
        print_statement(toks, env, p).1 matches Ok(q) ==> p < q <= toks.len() && no_braces(
            toks,
            p,
            q,
        ),
{
    if let Ok(q) = print_statement(toks, env, p).1 {
        lemma_print_items_no_braces(toks, env, p + 1, true);
        let p2 = print_items(toks, env, p + 1, true).1->Ok_0;
        assert(no_braces(toks, p, p + 1));
        lemma_no_braces_join(toks, p, p + 1, p2);
        assert(no_braces(toks, p2, p2 + 1));
        lemma_no_braces_join(toks, p, p2, p2 + 1);
    }
}

/// Skipping and running agree on simple statements: a `let`, `print` or
/// assignment that runs passes over no brace, so skipping the enclosing
/// block from before it or from after it ends at the same `}`.
pub proof fn law_simple_statement_skips_alike(
    toks: Seq<TokenView>,
    env: Env,
    p: nat,
    depth: nat,
)
    requires
        p < toks.len(),
        toks[p as int].kind is Let || toks[p as int].kind is Print
            || toks[p as int].kind is Identifier,
        statement(toks, env, p).1 is Ok,
    ensures
        ({
            let q = statement(toks, env, p).1->Ok_0.0;
            &&& p < q <= toks.len()
            &&& no_braces(toks, p, q)
            &&& skip_braces(toks, p, depth) == skip_braces(toks, q, depth)
        }),
{
    let q = statement(toks, env, p).1->Ok_0.0;
    let k = toks[p as int].kind;
    if k is Let {
        lemma_let_no_braces(toks, env, p);
    } else if k is Print {
        lemma_print_no_braces(toks, env, p);
    } else {
        let name = k->Identifier_0;
        lemma_assign_no_braces(toks, env, name, p + 1);
        assert(no_braces(toks, p, p + 1));
        lemma_no_braces_join(toks, p, p + 1, q);
    }
    lemma_skip_braces_free(toks, p, q, depth);
}

proof fn lemma_print_items_no_braces(toks: Seq<TokenView>, env: Env, p: nat, first: bool)
    requires
        p <= toks.len(),
    ensures
        print_items(toks, env, p, first).1 matches Ok(q) ==> p <= q <= toks.len() && no_braces(
            toks,
            p,
            q,
        ),
    decreases toks.len() - p,
{
    match kind_at(toks, p) {
        None => {},
        Some(KindView::Semicolon) => {},
        Some(_) => {
            let p1 = if !first && kind_at(toks, p) == Some(KindView::Comma) {
                p + 1
            } else {
                p
            };
            lemma_comparison_no_braces(toks, env, p1);
            if let Ok((_, p2)) = eval_expression(toks, env, p1) {
                if p < p2 <= toks.len() {
                    lemma_print_items_no_braces(toks, env, p2, false);
                    if let Ok(q) = print_items(toks, env, p2, false).1 {
                        assert(no_braces(toks, p, p1));
                        lemma_no_braces_join(toks, p, p1, p2);
                        lemma_no_braces_join(toks, p, p2, q);
                    }
                }
            }
        },
    }
}

/// The `}` that ends a block: skipping at depth one stops just after it,
/// exactly where leaving the block puts the interpreter before it looks
/// past the block.
pub proof fn law_closing_brace_skips_alike(toks: Seq<TokenView>, p: nat)
    requires
        kind_at(toks, p) == Some(KindView::RBrace),
    ensures
        skip_braces(toks, p, 1) == expect_at(toks, p, KindView::RBrace),
        skip_braces(toks, p, 1) == Ok::<nat, Fault>(p + 1),
{
}

// ---------------------------------------------------------------------------
// Skipping a block ends where running it ends
// ---------------------------------------------------------------------------

/// Skipping from `p` at depth `d` stops at `q`; from `p` at the greater depth
/// `d + k` it passes that same `}` and goes on from `q` at depth `k`.
proof fn lemma_skip_braces_shift(toks: Seq<TokenView>, p: nat, d: nat, q: nat, k: nat)
    requires
        d >= 1,
        k >= 1,
        skip_braces(toks, p, d) == Ok::<nat, Fault>(q),
    ensures
        skip_braces(toks, p, d + k) == skip_braces(toks, q, k),
    decreases toks.len() - p,
{
    match kind_at(toks, p) {
        None => {},
        Some(KindView::LBrace) => {
            lemma_skip_braces_shift(toks, p + 1, d + 1, q, k);
            assert(d + 1 + k == d + k + 1);
        },
        Some(KindView::RBrace) => {
            if d > 1 {
                lemma_skip_braces_shift(toks, p + 1, (d - 1) as nat, q, k);
                assert((d - 1) as nat + k == (d + k - 1) as nat);
            }
        },
        Some(_) => {
            lemma_skip_braces_shift(toks, p + 1, d, q, k);
        },
    }
}

/// A block that is skipped from `x` to `y` reads the same to the skipping of
/// an enclosing block from `x` as from `y`.
proof fn lemma_skip_block_alike(toks: Seq<TokenView>, x: nat, y: nat, d: nat)
    requires
        d >= 1,
        skip_block(toks, x) == Ok::<nat, Fault>(y),
    ensures
        skip_braces(toks, x, d) == skip_braces(toks, y, d),
{
    lemma_skip_braces_shift(toks, x + 1, 1, y, d);
    assert(1 + d == d + 1);
}

proof fn lemma_skip_parens_bounds(toks: Seq<TokenView>, p: nat, depth: nat)
    ensures
        skip_parens(toks, p, depth) matches Ok(q) ==> p < q <= toks.len(),
    decreases toks.len() - p,
{
    match kind_at(toks, p) {
        None => {},
        Some(KindView::LParen) => lemma_skip_parens_bounds(toks, p + 1, depth + 1),
        Some(KindView::RParen) => if depth > 1 {
            lemma_skip_parens_bounds(toks, p + 1, (depth - 1) as nat);
        },
        Some(_) => lemma_skip_parens_bounds(toks, p + 1, depth),
    }
}

/// The `elif` conditions that the branches after a taken one skip unread
/// hold no brace. A brace there counts when the enclosing block is skipped,
/// and not when it runs.
pub open spec fn chain_clean(toks: Seq<TokenView>, p: nat) -> bool
    decreases toks.len() - p,
{
    match kind_at(toks, p) {
        Some(KindView::Elif) => match skip_parens(toks, p + 2, 1) {
            Err(_) => true,
            Ok(p3) => no_braces(toks, p + 2, p3) && match skip_block(toks, p3) {
                Err(_) => true,
                Ok(p4) => if p < p4 <= toks.len() {
                    chain_clean(toks, p4)
                } else {
                    true
                },
            },
        },
        _ => true,
    }
}

/// What an entered block and a skipped one have in common: skipping the
/// enclosing block at depth `d` reads the same before the construct as after
/// it, at one more depth when the construct entered a block.
pub open spec fn skips_alike(toks: Seq<TokenView>, p: nat, q: nat, entered: bool, d: nat) -> bool {
    if entered {
        skip_braces(toks, p, d) == skip_braces(toks, q, d + 1)
    } else {
        skip_braces(toks, p, d) == skip_braces(toks, q, d)
    }
}

proof fn lemma_chain_skips_alike(toks: Seq<TokenView>, p: nat, d: nat)
    requires
        d >= 1,
        chain_clean(toks, p),
        skip_chain(toks, p) is Ok,
    ensures
        skips_alike(toks, p, skip_chain(toks, p)->Ok_0, false, d),
    decreases toks.len() - p,
{
    match kind_at(toks, p) {
        Some(KindView::Elif) => {
            let p2 = p + 2;
            lemma_skip_parens_bounds(toks, p2, 1);
            let p3 = skip_parens(toks, p2, 1)->Ok_0;
            assert(no_braces(toks, p, p2));
            lemma_no_braces_join(toks, p, p2, p3);
            lemma_skip_braces_free(toks, p, p3, d);
            let p4 = skip_block(toks, p3)->Ok_0;
            lemma_skip_block_alike(toks, p3, p4, d);
            lemma_chain_skips_alike(toks, p4, d);
        },
        Some(KindView::Else) => {
            let p4 = skip_block(toks, p + 1)->Ok_0;
            lemma_skip_block_alike(toks, p + 1, p4, d);
        },
        _ => {},
    }
}

proof fn lemma_elif_skips_alike(toks: Seq<TokenView>, env: Env, p: nat, d: nat)
    requires
        d >= 1,
        elif_chain(toks, env, p) is Ok,
    ensures
        ({
            let (q, f) = elif_chain(toks, env, p)->Ok_0;
            &&& f matches Some(fr) ==> fr !is Loop
            &&& skips_alike(toks, p, q, f is Some, d)
        }),
    decreases toks.len() - p,
{
    match kind_at(toks, p) {
        Some(KindView::Elif) => {
            let p2 = p + 2;
            lemma_comparison_no_braces(toks, env, p2);
            let (c, p3) = eval_expression(toks, env, p2)->Ok_0;
            let p4 = p3 + 1;
            assert(no_braces(toks, p, p2));
            lemma_no_braces_join(toks, p, p2, p3);
            assert(no_braces(toks, p3, p4));
            lemma_no_braces_join(toks, p, p3, p4);
            lemma_skip_braces_free(toks, p, p4, d);
            if condition_truth(c) == Some(false) {
                let p5 = skip_block(toks, p4)->Ok_0;
                lemma_skip_block_alike(toks, p4, p5, d);
                lemma_elif_skips_alike(toks, env, p5, d);
            }
        },
        Some(KindView::Else) => {
            assert(skip_braces(toks, p, d) == skip_braces(toks, p + 1, d));
        },
        _ => {},
    }
}

proof fn lemma_if_skips_alike(toks: Seq<TokenView>, env: Env, p: nat, d: nat)
    requires
        d >= 1,
        if_statement(toks, env, p) is Ok,
    ensures
        ({
            let (q, f) = if_statement(toks, env, p)->Ok_0;
            &&& f matches Some(fr) ==> fr !is Loop
            &&& skips_alike(toks, p, q, f is Some, d)
        }),
{
    let p2 = p + 2;
    lemma_comparison_no_braces(toks, env, p2);
    let (c, p3) = eval_expression(toks, env, p2)->Ok_0;
    let p4 = p3 + 1;
    assert(no_braces(toks, p, p2));
    lemma_no_braces_join(toks, p, p2, p3);
    assert(no_braces(toks, p3, p4));
    lemma_no_braces_join(toks, p, p3, p4);
    lemma_skip_braces_free(toks, p, p4, d);
    if condition_truth(c) == Some(false) {
        let p5 = skip_block(toks, p4)->Ok_0;
        lemma_skip_block_alike(toks, p4, p5, d);
        lemma_elif_skips_alike(toks, env, p5, d);
    }
}

proof fn lemma_loop_test_skips_alike(toks: Seq<TokenView>, env: Env, c: nat, d: nat)
    requires
        d >= 1,
        c <= toks.len(),
        loop_test(toks, env, c) is Ok,
    ensures
        ({
            let (q, f) = loop_test(toks, env, c)->Ok_0;
            &&& f matches Some(fr) ==> fr == Frame::Loop(c as usize)
            &&& skips_alike(toks, c, q, f is Some, d)
        }),
{
    lemma_comparison_no_braces(toks, env, c);
    let (v, q) = eval_expression(toks, env, c)->Ok_0;
    let q1 = q + 1;
    assert(no_braces(toks, q, q1));
    lemma_no_braces_join(toks, c, q, q1);
    lemma_skip_braces_free(toks, c, q1, d);
    if condition_truth(v) == Some(false) {
        let q2 = skip_block(toks, q1)->Ok_0;
        lemma_skip_block_alike(toks, q1, q2, d);
    }
}

/// The loop frame `fr`, entered at depth `r` within the block: skipping the
/// block from the loop's condition, at depth `r`, gives `end`.
pub open spec fn loop_skips_to(toks: Seq<TokenView>, fr: Frame, r: nat, end: Result<nat, Fault>) -> bool {
    match fr {
        Frame::Loop(c) => c <= toks.len() && skip_braces(toks, c as nat, r) == end,
        _ => true,
    }
}

/// A running state inside the block whose frame is `st.frames[k]`: skipping
/// the block from where the state stands, at the depth of the blocks entered
/// since, gives `end`; and so it does from the condition of every loop
/// entered since.
pub open spec fn skips_to(toks: Seq<TokenView>, st: MachineState, k: nat, end: Result<nat, Fault>) -> bool {
    &&& st.frames.len() > k
    &&& skip_braces(toks, st.position, (st.frames.len() - k) as nat) == end
    &&& forall|i: int|
        k < i < st.frames.len() ==> loop_skips_to(toks, #[trigger] st.frames[i], (i - k) as nat, end)
}

/// The step at `st` leaves a taken branch at its `}`.
pub open spec fn leaves_branch(toks: Seq<TokenView>, st: MachineState) -> bool {
    &&& st.frames.len() > 0
    &&& kind_at(toks, st.position) == Some(KindView::RBrace)
    &&& st.frames.last() == Frame::Branch
}

/// Runs the block whose frame is `st.frames[k]` from `st` for at most `n`
/// steps, up to the state that stands at the block's closing `}`. `None`
/// where the run fails or finishes first, where it does not reach that `}`
/// in `n` steps, or where it leaves a taken branch whose following `elif`
/// conditions hold a brace.
pub open spec fn block_run(toks: Seq<TokenView>, st: MachineState, k: nat, n: nat) -> Option<
    MachineState,
>
    decreases n,
{
    if st.frames.len() == k + 1 && kind_at(toks, st.position) == Some(KindView::RBrace) {
        Some(st)
    } else if n == 0 {
        None
    } else if leaves_branch(toks, st) && !chain_clean(toks, st.position + 1) {
        None
    } else {
        match machine_step(toks, st).status {
            StepStatus::Running(st2) => block_run(toks, st2, k, (n - 1) as nat),
            _ => None,
        }
    }
}

proof fn lemma_close_keeps_skips(toks: Seq<TokenView>, st: MachineState, k: nat, end: Result<nat, Fault>)
    requires
        skips_to(toks, st, k, end),
        st.frames.len() > k + 1,
        kind_at(toks, st.position) == Some(KindView::RBrace),
        !(leaves_branch(toks, st) && !chain_clean(toks, st.position + 1)),
        close_block(toks, st) is Ok,
    ensures
        skips_to(toks, close_block(toks, st)->Ok_0, k, end),
{
    let p = st.position;
    let d: nat = (st.frames.len() - k) as nat;
    let d1: nat = (d - 1) as nat;
    let st2 = close_block(toks, st)->Ok_0;
    assert(skip_braces(toks, p, d) == skip_braces(toks, p + 1, d1));
    match st.frames.last() {
        Frame::Branch => {
            lemma_chain_skips_alike(toks, p + 1, d1);
        },
        Frame::Otherwise => {},
        Frame::Loop(c) => {
            let top = st.frames.len() - 1;
            assert(loop_skips_to(toks, st.frames[top], (top - k) as nat, end));
            lemma_loop_test_skips_alike(toks, st.env, c as nat, d1);
        },
    }
    assert forall|i: int| k < i < st2.frames.len() implies loop_skips_to(
        toks,
        #[trigger] st2.frames[i],
        (i - k) as nat,
        end,
    ) by {
        assert(st2.frames[i] == st.frames[i]);
    }
}

proof fn lemma_enter_keeps_skips(
    toks: Seq<TokenView>,
    st: MachineState,
    k: nat,
    end: Result<nat, Fault>,
    q: nat,
    env2: Env,
    f: Option<Frame>,
)
    requires
        skips_to(toks, st, k, end),
        skips_alike(toks, st.position, q, f is Some, (st.frames.len() - k) as nat),
        f matches Some(fr) ==> loop_skips_to(toks, fr, (st.frames.len() - k) as nat, end),
    ensures
        skips_to(
            toks,
            MachineState {
                position: q,
                env: env2,
                frames: match f {
                    Some(fr) => st.frames.push(fr),
                    None => st.frames,
                },
            },
            k,
            end,
        ),
{
    let frames2 = match f {
        Some(fr) => st.frames.push(fr),
        None => st.frames,
    };
    let d: nat = (st.frames.len() - k) as nat;
    if f is Some {
        assert((frames2.len() - k) as nat == d + 1);
    }
    assert forall|i: int| k < i < frames2.len() implies loop_skips_to(
        toks,
        #[trigger] frames2[i],
        (i - k) as nat,
        end,
    ) by {
        if i < st.frames.len() {
            assert(frames2[i] == st.frames[i]);
        }
    }
}

proof fn lemma_statement_keeps_skips(
    toks: Seq<TokenView>,
    st: MachineState,
    k: nat,
    end: Result<nat, Fault>,
)
    requires
        toks.len() <= usize::MAX,
        skips_to(toks, st, k, end),
        kind_at(toks, st.position) is Some,
        kind_at(toks, st.position) != Some(KindView::RBrace),
        kind_at(toks, st.position) != Some(KindView::Eof),
        statement(toks, st.env, st.position).1 is Ok,
    ensures
        ({
            let (q, env2, f) = statement(toks, st.env, st.position).1->Ok_0;
            skips_to(
                toks,
                MachineState {
                    position: q,
                    env: env2,
                    frames: match f {
                        Some(fr) => st.frames.push(fr),
                        None => st.frames,
                    },
                },
                k,
                end,
            )
        }),
{
    let p = st.position;
    let d: nat = (st.frames.len() - k) as nat;
    let (q, env2, f) = statement(toks, st.env, p).1->Ok_0;
    match kind_at(toks, p) {
        Some(KindView::If) => {
            lemma_if_skips_alike(toks, st.env, p, d);
        },
        Some(KindView::While) => {
            let c = p + 2;
            assert(no_braces(toks, p, c));
            lemma_skip_braces_free(toks, p, c, d);
            lemma_loop_test_skips_alike(toks, st.env, c, d);
            assert((c as usize) as nat == c);
        },
        _ => {
            law_simple_statement_skips_alike(toks, st.env, p, d);
        },
    }
    lemma_enter_keeps_skips(toks, st, k, end, q, env2, f);
}

proof fn lemma_step_keeps_skips(toks: Seq<TokenView>, st: MachineState, k: nat, end: Result<nat, Fault>)
    requires
        toks.len() <= usize::MAX,
        skips_to(toks, st, k, end),
        !(st.frames.len() == k + 1 && kind_at(toks, st.position) == Some(KindView::RBrace)),
        !(leaves_branch(toks, st) && !chain_clean(toks, st.position + 1)),
        machine_step(toks, st).status is Running,
    ensures
        skips_to(toks, machine_step(toks, st).status->Running_0, k, end),
{
    let kp = kind_at(toks, st.position);
    if kp is None || kp == Some(KindView::RBrace) || kp == Some(KindView::Eof) {
        lemma_close_keeps_skips(toks, st, k, end);
    } else {
        lemma_statement_keeps_skips(toks, st, k, end);
    }
}

proof fn lemma_block_run_skips(
    toks: Seq<TokenView>,
    st: MachineState,
    k: nat,
    n: nat,
    end: Result<nat, Fault>,
)
    requires
        toks.len() <= usize::MAX,
        skips_to(toks, st, k, end),
        block_run(toks, st, k, n) is Some,
    ensures
        end == Ok::<nat, Fault>(block_run(toks, st, k, n)->0.position + 1),
        block_run(toks, st, k, n)->0.frames.len() == k + 1,
        kind_at(toks, block_run(toks, st, k, n)->0.position) == Some(KindView::RBrace),
    decreases n,
{
    if !(st.frames.len() == k + 1 && kind_at(toks, st.position) == Some(KindView::RBrace)) {
        lemma_step_keeps_skips(toks, st, k, end);
        let st2 = machine_step(toks, st).status->Running_0;
        lemma_block_run_skips(toks, st2, k, (n - 1) as nat, end);
    }
}

/// Skipping a block ends where running it ends. The interpreter stands just
/// inside the block whose `{` is at `b`, its frame the last of `k + 1`; run
/// to the block's closing `}`, through whatever `if`, `elif`, `else` and
/// `while` it holds, it stands where skipping the block from `b` stops,
/// before that `}`. (Branch conditions skipped unread must hold no brace.)
pub proof fn law_block_skips_alike(toks: Seq<TokenView>, b: nat, st: MachineState, k: nat, n: nat)
    requires
        toks.len() <= usize::MAX,
        kind_at(toks, b) == Some(KindView::LBrace),
        st.position == b + 1,
        st.frames.len() == k + 1,
        block_run(toks, st, k, n) is Some,
    ensures
        skip_block(toks, b) == Ok::<nat, Fault>(block_run(toks, st, k, n)->0.position + 1),
        block_run(toks, st, k, n)->0.frames.len() == k + 1,
        kind_at(toks, block_run(toks, st, k, n)->0.position) == Some(KindView::RBrace),
{
    let end = skip_braces(toks, b + 1, 1);
    assert(skips_to(toks, st, k, end));
    lemma_block_run_skips(toks, st, k, n, end);
}

// ---------------------------------------------------------------------------
// Laws
// ---------------------------------------------------------------------------

/// Division and remainder truncate toward zero: the quotient's magnitude is
/// that of the operands' magnitudes divided, the remainder takes the sign of
/// the dividend and is smaller than the divisor, and the two recombine.
pub proof fn law_truncated_division(a: int, b: int)
    requires
        b != 0,
    ensures
        trunc_div(a, b) * b + trunc_rem(a, b) == a,
        abs(trunc_div(a, b)) == abs(a) / abs(b),
        abs(trunc_rem(a, b)) < abs(b),
        trunc_rem(a, b) == 0 || (trunc_rem(a, b) < 0) == (a < 0),
{
    let n: int = abs(a) as int;
    let k: int = abs(b) as int;
    let q: int = n / k;
    let m: int = n % k;
    assert(q * k + m == n && 0 <= m < k && 0 <= q) by (nonlinear_arith)
        requires
            n >= 0,
            k >= 1,
            q == n / k,
            m == n % k,
    ;
    if a < 0 && b < 0 {
        assert(q * b == -(q * k)) by (nonlinear_arith)
            requires
                b == -k,
        ;
    } else if a < 0 {
        assert((-q) * b == -(q * k)) by (nonlinear_arith)
            requires
                b == k,
        ;
    } else if b < 0 {
        assert((-q) * b == q * k) by (nonlinear_arith)
            requires
                b == -k,
        ;
    } else {
        assert(q * b == q * k);
    }
}

/// A `while` loop tests its condition again, from its first token, each time
/// its body is left at the closing `}`.
pub proof fn law_loop_retests_condition(toks: Seq<TokenView>, st: MachineState, c: usize)
    requires
        st.frames.len() > 0,
        st.frames.last() == Frame::Loop(c),
        kind_at(toks, st.position) == Some(KindView::RBrace),
    ensures
        machine_step(toks, st).printed == Seq::<char>::empty(),
        machine_step(toks, st).status == match loop_test(toks, st.env, c as nat) {
            Err(e) => StepStatus::Failed(e),
            Ok((q, f)) => StepStatus::Running(
                MachineState {
                    position: q,
                    env: st.env,
                    frames: match f {
                        Some(fr) => st.frames.drop_last().push(fr),
                        None => st.frames.drop_last(),
                    },
                },
            ),
        },
{
}

/// A `let` statement binds its name to the value of its expression, with
/// the mutability it declares, replacing any earlier binding of the name.
pub proof fn law_let_binds(
    toks: Seq<TokenView>,
    env: Env,
    p: nat,
    is_mut: bool,
    name: Seq<char>,
    v: ValView,
    q: nat,
)
    requires
        kind_at(toks, p) == Some(KindView::Let),
        is_mut ==> kind_at(toks, p + 1) == Some(KindView::Mut),
        kind_at(toks, if is_mut { p + 2 } else { p + 1 }) == Some(KindView::Identifier(name)),
        kind_at(toks, if is_mut { p + 3 } else { p + 2 }) == Some(KindView::Equal),
        eval_expression(toks, env, if is_mut { p + 4 } else { p + 3 }) == Ok::<(ValView, nat), Fault>((v, q)),
        kind_at(toks, q) == Some(KindView::Semicolon),
    ensures
        let_statement(toks, env, p) == Ok::<(nat, Env), Fault>((q + 1, env.insert(name, (v, is_mut)))),
        statement(toks, env, p) == (Seq::<char>::empty(), Ok::<(nat, Env, Option<Frame>), Fault>((q + 1, env.insert(name, (v, is_mut)), None))),
{
}

/// Reading a variable gives back what was last bound to it; binding one
/// name leaves the others as they were.
pub proof fn law_read_after_bind(
    toks: Seq<TokenView>,
    env: Env,
    name: Seq<char>,
    entry: (ValView, bool),
    r: nat,
)
    requires
        kind_at(toks, r) is Some,
        kind_at(toks, r)->0 is Identifier,
    ensures
        kind_at(toks, r) == Some(KindView::Identifier(name)) ==> eval_primary(
            toks,
            env.insert(name, entry),
            r,
        ) == Ok::<(ValView, nat), Fault>((entry.0, r + 1)),
        kind_at(toks, r) != Some(KindView::Identifier(name)) ==> eval_primary(
            toks,
            env.insert(name, entry),
            r,
        ) == eval_primary(toks, env, r),
{
    let other = kind_at(toks, r)->0->Identifier_0;
    if other != name {
        assert(env.insert(name, entry).contains_key(other) == env.contains_key(other));
    }
}

/// Assigning to an immutable variable fails at its `=`, once the value has
/// been evaluated; the variable keeps its value.
pub proof fn law_assign_to_immutable_fails(
    toks: Seq<TokenView>,
    env: Env,
    name: Seq<char>,
    q: nat,
    v: ValView,
    r: nat,
)
    requires
        env.contains_key(name),
        !env[name].1,
        kind_at(toks, q) == Some(KindView::Equal),
        eval_expression(toks, env, q + 1) == Ok::<(ValView, nat), Fault>((v, r)),
        kind_at(toks, r) == Some(KindView::Semicolon),
    ensures
        assign_statement(toks, env, name, q) == Err::<(nat, Env), Fault>(
            Fault::At(q, msg_immutable(name)),
        ),
{
}

/// Assigning to a mutable variable replaces its value and keeps it mutable.
pub proof fn law_assign_to_mutable_updates(
    toks: Seq<TokenView>,
    env: Env,
    name: Seq<char>,
    q: nat,
    v: ValView,
    r: nat,
)
    requires
        env.contains_key(name),
        env[name].1,
        kind_at(toks, q) == Some(KindView::Equal),
        eval_expression(toks, env, q + 1) == Ok::<(ValView, nat), Fault>((v, r)),
        kind_at(toks, r) == Some(KindView::Semicolon),
    ensures
        assign_statement(toks, env, name, q) == Ok::<(nat, Env), Fault>(
            (r + 1, env.insert(name, (v, true))),
        ),
{
}

/// Assigning to a name never bound fails at its `=`.
pub proof fn law_assign_to_undefined_fails(
    toks: Seq<TokenView>,
    env: Env,
    name: Seq<char>,
    q: nat,
    v: ValView,
    r: nat,
)
    requires
        !env.contains_key(name),
        kind_at(toks, q) == Some(KindView::Equal),
        eval_expression(toks, env, q + 1) == Ok::<(ValView, nat), Fault>((v, r)),
        kind_at(toks, r) == Some(KindView::Semicolon),
    ensures
        assign_statement(toks, env, name, q) == Err::<(nat, Env), Fault>(
            Fault::At(q, msg_undefined(name)),
        ),
{
}

} // verus!
