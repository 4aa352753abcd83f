use vstd::prelude::*;
use vstd::hash_map::StringHashMap;
use crate::compiler::Compiler;
use crate::semantics::{
    BinOp, Env, Fault, Frame, MachineState, StepStatus, StepView, ValView, add_values,
    addition_op, addition_rest, assign_statement, close_block, compare_values, comparison_op,
    comparison_rest, elif_chain, eval_addition, eval_comparison, eval_multiplication,
    eval_primary, eval_unary, expect_at, expect_identifier, fault_at_current, if_statement,
    kind_at, let_statement, loop_test, machine_step, msg_expected, msg_expected_identifier,
    msg_expected_nothing, msg_immutable, msg_undefined, msg_unexpected_in_expression,
    msg_unexpected_statement, multiplication_op, multiplication_rest, multiply_values,
    print_items, print_statement, skip_block, skip_braces, skip_chain, skip_parens, statement,
    trunc_div, trunc_rem, value_text, while_statement,
};
use crate::text::{i64_to_text, nat_digits, usize_to_text};
use vstd::math::abs;
use crate::tokenize::{Token, TokenKind, TokenView, token_views};

verus! {

// ---------------------------------------------------------------------------
// Values and failures
// ---------------------------------------------------------------------------

/// A runtime value.
#[derive(Debug, Clone)]
pub enum Value {
    Integer(i64),
    String(String),
    Bool(bool),
}

impl View for Value {
    type V = ValView;

    open spec fn view(&self) -> ValView {
        match self {
            Value::Integer(n) => ValView::Int(*n),
            Value::String(s) => ValView::Str(s@),
            Value::Bool(b) => ValView::Bool(*b),
        }
    }
}

impl Value {
    /// The text `print` writes for the value.
    pub fn to_display_string(&self) -> (r: String)
        ensures
            r@ == value_text(self@),
    {
        match self {
            Value::Integer(n) => i64_to_text(*n),
            Value::String(s) => s.clone(),
            Value::Bool(b) => if *b {
                String::from_str("true")
            } else {
                String::from_str("false")
            },
        }
    }

    /// A copy of the value.
    pub fn duplicate(&self) -> (r: Value)
        ensures
            r@ == self@,
    {
        match self {
            Value::Integer(n) => Value::Integer(*n),
            Value::String(s) => Value::String(s.clone()),
            Value::Bool(b) => Value::Bool(*b),
        }
    }
}

/// A variable: its value and whether it may be reassigned.
pub struct Variable {
    pub value: Value,
    pub is_mut: bool,
}

/// A failure that stops the program.
#[derive(Debug)]
pub enum RunError {
    /// Reported at the token with this index.
    At { index: usize, message: String },
    /// Reported without a place.
    Bare { message: String },
    /// An arithmetic overflow, which aborts the program.
    Overflow { message: String },
}

impl View for RunError {
    type V = Fault;

    open spec fn view(&self) -> Fault {
        match self {
            RunError::At { index, message } => Fault::At(*index as nat, message@),
            RunError::Bare { message } => Fault::Bare(message@),
            RunError::Overflow { message } => Fault::Overflow(message@),
        }
    }
}

impl RunError {
    /// The message of the failure.
    pub fn message(&self) -> (r: String)
        ensures
            r@ == match self@ {
                Fault::At(_, m) => m,
                Fault::Bare(m) => m,
                Fault::Overflow(m) => m,
            },
    {
        match self {
            RunError::At { message, .. } => message.clone(),
            RunError::Bare { message } => message.clone(),
            RunError::Overflow { message } => message.clone(),
        }
    }
}

/// The view of an evaluation result.
pub open spec fn eval_view(r: Result<(Value, usize), RunError>) -> Result<(ValView, nat), Fault> {
    match r {
        Ok((v, q)) => Ok((v@, q as nat)),
        Err(e) => Err(e@),
    }
}

/// The view of a combination of two values.
pub open spec fn value_view(r: Result<Value, RunError>) -> Result<ValView, Fault> {
    match r {
        Ok(v) => Ok(v@),
        Err(e) => Err(e@),
    }
}

/// The view of a position result.
pub open spec fn pos_view(r: Result<usize, RunError>) -> Result<nat, Fault> {
    match r {
        Ok(q) => Ok(q as nat),
        Err(e) => Err(e@),
    }
}

/// The variables as a map from names to values and mutability.
pub open spec fn vars_view(m: Map<Seq<char>, Variable>) -> Env {
    Map::new(|k: Seq<char>| m.contains_key(k), |k: Seq<char>| (m[k].value@, m[k].is_mut))
}

// ---------------------------------------------------------------------------
// Messages
// ---------------------------------------------------------------------------

fn text(s: &str) -> (r: String)
    ensures
        r@ == s@,
{
    String::from_str(s)
}

fn expected_message(expected: &TokenKind, found: &TokenKind) -> (r: String)
    ensures
        r@ == msg_expected(expected@, found@),
{
    let mut m = text("expected \"");
    m.append(expected.to_display_string().as_str());
    m.append("\" but found \"");
    m.append(found.to_display_string().as_str());
    m.append("\"");
    m
}

fn expected_nothing_message(expected: &TokenKind) -> (r: String)
    ensures
        r@ == msg_expected_nothing(expected@),
{
    let mut m = text("expected \"");
    m.append(expected.to_display_string().as_str());
    m.append("\" but found nothing");
    m
}

fn expected_identifier_message(found: &TokenKind) -> (r: String)
    ensures
        r@ == msg_expected_identifier(found@),
{
    let mut m = text("expected an identifier but found \"");
    m.append(found.to_display_string().as_str());
    m.append("\"");
    m
}

fn undefined_message(name: &String) -> (r: String)
    ensures
        r@ == msg_undefined(name@),
{
    let mut m = text("undefined variable '");
    m.append(name.as_str());
    m.append("'");
    m
}

fn immutable_message(name: &String) -> (r: String)
    ensures
        r@ == msg_immutable(name@),
{
    let mut m = text("cannot assign to immutable variable '");
    m.append(name.as_str());
    m.append("'");
    m
}

fn unexpected_in_expression_message(found: &TokenKind) -> (r: String)
    ensures
        r@ == msg_unexpected_in_expression(found@),
{
    let mut m = text("unexpected token '");
    m.append(found.to_display_string().as_str());
    m.append("' in expression");
    m
}

fn unexpected_statement_message(found: &TokenKind) -> (r: String)
    ensures
        r@ == msg_unexpected_statement(found@),
{
    let mut m = text("unexpected token '");
    m.append(found.to_display_string().as_str());
    m.append("' at statement level");
    m
}

// ---------------------------------------------------------------------------
// Arithmetic
// ---------------------------------------------------------------------------

/// `checked_div` on a non-zero divisor is truncated division, and fails only
/// for the least integer divided by -1.
proof fn lemma_checked_div(a: i64, b: i64)
    requires
        b != 0,
    ensures
        a.checked_div(b) == if a == i64::MIN && b == -1 {
            None::<i64>
        } else {
            Some(trunc_div(a as int, b as int) as i64)
        },
{
    let x = a as int;
    let d = b as int;
    let n: int = if x < 0 { -x } else { x };
    let k: int = if d < 0 { -d } else { d };
    assert(n / k <= n) by (nonlinear_arith)
        requires
            n >= 0,
            k >= 1,
    ;
    assert(k >= 2 ==> n / k <= n / 2) by (nonlinear_arith)
        requires
            n >= 0,
            k >= 1,
    ;
    assert(k == 1 ==> n / k == n) by (nonlinear_arith)
        requires
            n >= 0,
    ;
    assert(0 <= n / k) by (nonlinear_arith)
        requires
            n >= 0,
            k >= 1,
    ;
}

/// `checked_rem` on a non-zero divisor is the remainder of truncated
/// division, and fails only for the least integer by -1.
proof fn lemma_checked_rem(a: i64, b: i64)
    requires
        b != 0,
    ensures
        a.checked_rem(b) == if a == i64::MIN && b == -1 {
            None::<i64>
        } else {
            Some(trunc_rem(a as int, b as int) as i64)
        },
{
    let x = a as int;
    let d = b as int;
    let n: int = if x < 0 { -x } else { x };
    let k: int = if d < 0 { -d } else { d };
    assert(0 <= n % k < k) by (nonlinear_arith)
        requires
            n >= 0,
            k >= 1,
    ;
    assert(n % k == abs(x) % abs(d));
    if !(a == i64::MIN && b == -1) {
        if x == 0 {
            assert(n % k == 0) by (nonlinear_arith)
                requires
                    n == 0,
                    k >= 1,
            ;
        }
    }
}


// ---------------------------------------------------------------------------
// The interpreter
// ---------------------------------------------------------------------------

/// A tree-walking interpreter that runs the token stream directly, one step
/// at a time.
pub struct Interpret<'a> {
    compiler: &'a Compiler,
    tokens: Vec<Token>,
    position: usize,
    variables: StringHashMap<Variable>,
    frames: Vec<Frame>,
}

/// What a step prints, and what it leads to.
pub struct Step {
    pub printed: String,
    pub status: Status,
}

/// Whether the program goes on, has finished, or has failed.
#[derive(Debug)]
pub enum Status {
    Running,
    Finished,
    Failed(RunError),
}

/// `r` is what the step `sv` says, from the state `before` to `after`; a
/// program that finishes or fails stays where it was.
pub open spec fn step_agrees(sv: StepView, r: Step, before: MachineState, after: MachineState) -> bool {
    &&& r.printed@ == sv.printed
    &&& match sv.status {
        StepStatus::Running(st) => r.status is Running && after == st,
        StepStatus::Finished => r.status is Finished && after == before,
        StepStatus::Failed(f) => r.status matches Status::Failed(e) && e@ == f && after == before,
    }
}

/// What a statement changes, before it is applied.
struct Effect {
    position: usize,
    binding: Option<(String, Variable)>,
    frame: Option<Frame>,
}

/// The variables after an effect's binding.
spec fn bound(env: Env, binding: Option<(String, Variable)>) -> Env {
    match binding {
        Some((name, var)) => env.insert(name@, (var.value@, var.is_mut)),
        None => env,
    }
}

spec fn effect_view(env: Env, r: Result<Effect, RunError>) -> Result<(nat, Env, Option<Frame>), Fault> {
    match r {
        Ok(eff) => Ok((eff.position as nat, bound(env, eff.binding), eff.frame)),
        Err(e) => Err(e@),
    }
}

spec fn frame_view(r: Result<(usize, Option<Frame>), RunError>) -> Result<(nat, Option<Frame>), Fault> {
    match r {
        Ok((q, f)) => Ok((q as nat, f)),
        Err(e) => Err(e@),
    }
}

/// A frame to push names a loop condition within `n` tokens.
spec fn frame_ok(f: Option<Frame>, n: nat) -> bool {
    match f {
        Some(Frame::Loop(c)) => c <= n,
        _ => true,
    }
}

/// The position and variables after a binding statement.
spec fn binding_view(env: Env, r: Result<Effect, RunError>) -> Result<(nat, Env), Fault> {
    match r {
        Ok(eff) => Ok((eff.position as nat, bound(env, eff.binding))),
        Err(e) => Err(e@),
    }
}

/// The position and entered block after a control statement.
spec fn control_view(r: Result<Effect, RunError>) -> Result<(nat, Option<Frame>), Fault> {
    match r {
        Ok(eff) => Ok((eff.position as nat, eff.frame)),
        Err(e) => Err(e@),
    }
}

/// The state after leaving the innermost block, as `close_block` computes it.
spec fn close_view(st: MachineState, r: Result<(usize, Option<Frame>), RunError>) -> Result<
    MachineState,
    Fault,
> {
    match r {
        Ok((q, f)) => Ok(
            MachineState {
                position: q as nat,
                env: st.env,
                frames: match f {
                    Some(fr) => st.frames.drop_last().push(fr),
                    None => st.frames.drop_last(),
                },
            },
        ),
        Err(e) => Err(e@),
    }
}

/// Up to `n` steps from `st`: what they print, the status after the last
/// one (`Running` when the steps ran out first) and the state then.
pub open spec fn run_steps(toks: Seq<TokenView>, st: MachineState, n: nat) -> (
    Seq<char>,
    StepStatus,
    MachineState,
)
    decreases n,
{
    if n == 0 {
        (Seq::empty(), StepStatus::Running(st), st)
    } else {
        let sv = machine_step(toks, st);
        match sv.status {
            StepStatus::Running(st2) => {
                let (out, status, last) = run_steps(toks, st2, (n - 1) as nat);
                (sv.printed + out, status, last)
            },
            StepStatus::Finished => (sv.printed, StepStatus::Finished, st),
            StepStatus::Failed(f) => (sv.printed, StepStatus::Failed(f), st),
        }
    }
}

/// Once a program has finished, running it further prints nothing and
/// leaves it finished where it was.
pub proof fn law_finished_is_final(toks: Seq<TokenView>, st: MachineState, n: nat)
    requires
        machine_step(toks, st).status is Finished,
        n > 0,
    ensures
        run_steps(toks, st, n) == (Seq::<char>::empty(), StepStatus::Finished, st),
{
}

/// The name of the source a token came from, as error reports show it: the
/// name its file was registered under, or `[No File]`.
pub open spec fn source_name_text(files: Seq<crate::compiler::FileData>, tok: TokenView) -> Seq<
    char,
> {
    if tok.isfile {
        match crate::compiler::name_of_id(files, tok.file_id) {
            Some(n) => n,
            None => "[No File]"@,
        }
    } else {
        "[No File]"@
    }
}

/// The line that reports a failure on the error stream. A failure at a token
/// names the token's source, line and column before its message; one without
/// a place, or at an index past the tokens, gives its message alone. An
/// overflow aborts the program, with its message as the panic's.
pub open spec fn report_text(
    toks: Seq<TokenView>,
    files: Seq<crate::compiler::FileData>,
    f: Fault,
) -> Seq<char> {
    match f {
        Fault::At(i, m) => if i < toks.len() {
            let t = toks[i as int];
            "[error] "@ + source_name_text(files, t) + ":"@ + nat_digits(t.line_no) + ":"@
                + nat_digits(t.col_no) + " -> "@ + m
        } else {
            "[error] "@ + m
        },
        Fault::Bare(m) => "[error] "@ + m,
        Fault::Overflow(m) => m,
    }
}

impl<'a> Interpret<'a> {
    /// The tokens, as values.
    pub closed spec fn token_seq(&self) -> Seq<TokenView> {
        token_views(self.tokens@)
    }

    /// The variables, as values.
    pub closed spec fn env(&self) -> Env {
        vars_view(self.variables@)
    }

    /// The files of the registry the interpreter reports against.
    pub closed spec fn source_files(&self) -> Seq<crate::compiler::FileData> {
        self.compiler.source_files@
    }

    /// Where the interpreter stands.
    pub closed spec fn state(&self) -> MachineState {
        MachineState {
            position: self.position as nat,
            env: self.env(),
            frames: self.frames@,
        }
    }

    /// The position lies within the tokens, as does the condition of every loop entered.
    pub closed spec fn wf(&self) -> bool {
        &&& self.position <= self.tokens@.len()
        &&& forall|i: int|
            0 <= i < self.frames@.len() ==> match #[trigger] self.frames@[i] {
                Frame::Loop(c) => c <= self.tokens@.len(),
                _ => true,
            }
    }

    /// An interpreter at the start of `tokens`, with no variables.
    pub fn new(compiler: &'a Compiler, tokens: Vec<Token>) -> (r: Self)
        ensures
            r.wf(),
            r.token_seq() == token_views(tokens@),
            r.source_files() == compiler.source_files@,
            r.state() == (MachineState { position: 0, env: Map::empty(), frames: Seq::empty() }),
    {
        let r = Interpret {
            compiler,
            tokens,
            position: 0,
            variables: StringHashMap::new(),
            frames: Vec::new(),
        };
        assert(r.env() =~= Map::empty());
        r
    }

    /// The token at index `index`, if there is one.
    pub fn token_at(&self, index: usize) -> (r: Option<Token>)
        ensures
            match r {
                Some(t) => index < self.token_seq().len() && t@ == self.token_seq()[index as int],
                None => index >= self.token_seq().len(),
            },
    {
        if index < self.tokens.len() {
            Some(self.tokens[index].duplicate())
        } else {
            None
        }
    }

    /// The name of the source a token came from, as error reports show it.
    pub fn source_name(&self, tok: &Token) -> (r: String)
        ensures
            r@ == source_name_text(self.source_files(), tok@),
    {
        if tok.isfile {
            match self.compiler.get_filename(tok.file_id) {
                Some(n) => n,
                None => text("[No File]"),
            }
        } else {
            text("[No File]")
        }
    }

    /// The line that reports `err` on the error stream.
    pub fn report_line(&self, err: &RunError) -> (r: String)
        ensures
            r@ == report_text(self.token_seq(), self.source_files(), err@),
    {
        match err {
            RunError::At { index, message } => match self.token_at(*index) {
                Some(tok) => {
                    let mut m = text("[error] ");
                    m.append(self.source_name(&tok).as_str());
                    m.append(":");
                    m.append(usize_to_text(tok.line_no).as_str());
                    m.append(":");
                    m.append(usize_to_text(tok.col_no).as_str());
                    m.append(" -> ");
                    m.append(message.as_str());
                    m
                },
                None => {
                    let mut m = text("[error] ");
                    m.append(message.as_str());
                    m
                },
            },
            RunError::Bare { message } => {
                let mut m = text("[error] ");
                m.append(message.as_str());
                m
            },
            RunError::Overflow { message } => message.clone(),
        }
    }

    // -----------------------------------------------------------------------
    // Token access
    // -----------------------------------------------------------------------

    fn current_kind(&self, p: usize) -> (r: Option<&TokenKind>)
        ensures
            match r {
                Some(k) => kind_at(self.token_seq(), p as nat) == Some(k@),
                None => kind_at(self.token_seq(), p as nat) is None,
            },
            r is Some <==> p < self.tokens.len(),
            self.token_seq().len() == self.tokens.len(),
    {
        if p < self.tokens.len() {
            Some(&self.tokens[p].kind)
        } else {
            None
        }
    }

    fn fail_at_current(&self, p: usize, message: String) -> (r: RunError)
        ensures
            r@ == fault_at_current(self.token_seq(), p as nat, message@),
    {
        if p < self.tokens.len() {
            RunError::At { index: p, message }
        } else {
            RunError::Bare { message }
        }
    }

    fn expect(&self, p: usize, kind: TokenKind) -> (r: Result<usize, RunError>)
        requires
            p <= self.token_seq().len(),
        ensures
            pos_view(r) == expect_at(self.token_seq(), p as nat, kind@),
            r matches Ok(q) ==> q == p + 1 && q <= self.token_seq().len(),
    {
        match self.current_kind(p) {
            Some(found) => {
                if found.same_as(&kind) {
                    Ok(p + 1)
                } else {
                    Err(RunError::At { index: p, message: expected_message(&kind, found) })
                }
            },
            None => Err(RunError::Bare { message: expected_nothing_message(&kind) }),
        }
    }

    fn expect_identifier(&self, p: usize) -> (r: Result<(String, usize), RunError>)
        requires
            p <= self.token_seq().len(),
        ensures
            match r {
                Ok((name, q)) => expect_identifier(self.token_seq(), p as nat) == Ok::<
                    (Seq<char>, nat),
                    Fault,
                >((name@, q as nat)) && q == p + 1,
                Err(e) => expect_identifier(self.token_seq(), p as nat) == Err::<
                    (Seq<char>, nat),
                    Fault,
                >(e@),
            },
    {
        match self.current_kind(p) {
            Some(TokenKind::Identifier(name)) => Ok((name.clone(), p + 1)),
            Some(found) => Err(RunError::At { index: p, message: expected_identifier_message(found) }),
            None => Err(RunError::Bare { message: text("expected an identifier but found nothing") }),
        }
    }

    // -----------------------------------------------------------------------
    // Operators
    // -----------------------------------------------------------------------

    fn comparison_op_at(&self, q: usize) -> (r: Option<BinOp>)
        ensures
            r == comparison_op(kind_at(self.token_seq(), q as nat)),
            r is Some ==> q < self.token_seq().len() && q < self.tokens.len(),
    {
        match self.current_kind(q) {
            Some(TokenKind::EqualEqual) => Some(BinOp::Eq),
            Some(TokenKind::NotEqual) => Some(BinOp::Ne),
            Some(TokenKind::Less) => Some(BinOp::Lt),
            Some(TokenKind::Greater) => Some(BinOp::Gt),
            _ => None,
        }
    }

    fn addition_op_at(&self, q: usize) -> (r: Option<BinOp>)
        ensures
            r == addition_op(kind_at(self.token_seq(), q as nat)),
            r is Some ==> q < self.token_seq().len() && q < self.tokens.len(),
    {
        match self.current_kind(q) {
            Some(TokenKind::Plus) => Some(BinOp::Add),
            Some(TokenKind::Minus) => Some(BinOp::Sub),
            _ => None,
        }
    }

    fn multiplication_op_at(&self, q: usize) -> (r: Option<BinOp>)
        ensures
            r == multiplication_op(kind_at(self.token_seq(), q as nat)),
            r is Some ==> q < self.token_seq().len() && q < self.tokens.len(),
    {
        match self.current_kind(q) {
            Some(TokenKind::Star) => Some(BinOp::Mul),
            Some(TokenKind::Slash) => Some(BinOp::Div),
            Some(TokenKind::Percent) => Some(BinOp::Rem),
            _ => None,
        }
    }

    fn apply_comparison(&self, op: BinOp, left: Value, right: Value, at: usize) -> (r: Result<
        Value,
        RunError,
    >)
        ensures
            value_view(r) == compare_values(self.token_seq(), op, left@, right@, at as nat),
    {
        match (left, right) {
            (Value::Integer(l), Value::Integer(r)) => Ok(
                Value::Bool(
                    match op {
                        BinOp::Eq => l == r,
                        BinOp::Ne => l != r,
                        BinOp::Lt => l < r,
                        _ => l > r,
                    },
                ),
            ),
            (Value::String(l), Value::String(r)) => match op {
                BinOp::Eq => Ok(Value::Bool(l == r)),
                BinOp::Ne => Ok(Value::Bool(l != r)),
                _ => Err(
                    self.fail_at_current(
                        at,
                        text("only == and != are supported for string comparison"),
                    ),
                ),
            },
            (Value::Bool(l), Value::Bool(r)) => match op {
                BinOp::Eq => Ok(Value::Bool(l == r)),
                BinOp::Ne => Ok(Value::Bool(l != r)),
                _ => Err(
                    self.fail_at_current(at, text("only == and != are supported for bool comparison")),
                ),
            },
            _ => Err(self.fail_at_current(at, text("type mismatch in comparison"))),
        }
    }

    fn apply_addition(&self, op: BinOp, left: Value, right: Value, at: usize) -> (r: Result<
        Value,
        RunError,
    >)
        ensures
            value_view(r) == add_values(self.token_seq(), op, left@, right@, at as nat),
    {
        match (left, right) {
            (Value::Integer(l), Value::Integer(r)) => {
                if op == BinOp::Add {
                    Ok(Value::Integer(l.wrapping_add(r)))
                } else {
                    Ok(Value::Integer(l.wrapping_sub(r)))
                }
            },
            (Value::String(l), Value::String(r)) => {
                if op == BinOp::Add {
                    Ok(Value::String(l.concat(r.as_str())))
                } else {
                    Err(
                        self.fail_at_current(
                            at,
                            text("operator not supported for strings (use + to concat)"),
                        ),
                    )
                }
            },
            _ => Err(self.fail_at_current(at, text("type mismatch in addition/subtraction"))),
        }
    }

    fn apply_multiplication(&self, op: BinOp, left: Value, right: Value, at: usize) -> (r: Result<
        Value,
        RunError,
    >)
        ensures
            value_view(r) == multiply_values(self.token_seq(), op, left@, right@, at as nat),
    {
        match (left, right) {
            (Value::Integer(l), Value::Integer(r)) => {
                if op == BinOp::Mul {
                    Ok(Value::Integer(l.wrapping_mul(r)))
                } else if op == BinOp::Div {
                    if r == 0 {
                        return Err(self.fail_at_current(at, text("division by zero")));
                    }
                    proof {
                        lemma_checked_div(l, r);
                    }
                    match l.checked_div(r) {
                        Some(v) => Ok(Value::Integer(v)),
                        None => Err(
                            RunError::Overflow { message: text("attempt to divide with overflow") },
                        ),
                    }
                } else {
                    if r == 0 {
                        return Err(self.fail_at_current(at, text("modulo by zero")));
                    }
                    proof {
                        lemma_checked_rem(l, r);
                    }
                    match l.checked_rem(r) {
                        Some(v) => Ok(Value::Integer(v)),
                        None => Err(
                            RunError::Overflow {
                                message: text("attempt to calculate the remainder with overflow"),
                            },
                        ),
                    }
                }
            },
            _ => Err(self.fail_at_current(at, text("arithmetic requires integer operands"))),
        }
    }

    // -----------------------------------------------------------------------
    // Expressions
    // -----------------------------------------------------------------------

    fn parse_expression(&self, p: usize) -> (r: Result<(Value, usize), RunError>)
        requires
            p <= self.token_seq().len(),
        ensures
            eval_view(r) == eval_comparison(self.token_seq(), self.env(), p as nat),
            r matches Ok((_, q)) ==> p < q <= self.token_seq().len(),
    {
        self.parse_comparison(p)
    }

    fn parse_comparison(&self, p: usize) -> (r: Result<(Value, usize), RunError>)
        requires
            p <= self.token_seq().len(),
        ensures
            eval_view(r) == eval_comparison(self.token_seq(), self.env(), p as nat),
            r matches Ok((_, q)) ==> p < q <= self.token_seq().len(),
        decreases self.token_seq().len() - p, 8int,
    {
        match self.parse_addition(p) {
            Err(e) => Err(e),
            Ok((v, q)) => self.comparison_rest(v, q),
        }
    }

    fn comparison_rest(&self, left: Value, q: usize) -> (r: Result<(Value, usize), RunError>)
        requires
            q <= self.token_seq().len(),
        ensures
            eval_view(r) == comparison_rest(self.token_seq(), self.env(), left@, q as nat),
            r matches Ok((_, q2)) ==> q <= q2 <= self.token_seq().len(),
        decreases self.token_seq().len() - q, 7int,
    {
        match self.comparison_op_at(q) {
            None => Ok((left, q)),
            Some(op) => match self.parse_addition(q + 1) {
                Err(e) => Err(e),
                Ok((right, q2)) => match self.apply_comparison(op, left, right, q2) {
                    Err(e) => Err(e),
                    Ok(v) => self.comparison_rest(v, q2),
                },
            },
        }
    }

    fn parse_addition(&self, p: usize) -> (r: Result<(Value, usize), RunError>)
        requires
            p <= self.token_seq().len(),
        ensures
            eval_view(r) == eval_addition(self.token_seq(), self.env(), p as nat),
            r matches Ok((_, q)) ==> p < q <= self.token_seq().len(),
        decreases self.token_seq().len() - p, 6int,
    {
        match self.parse_multiplication(p) {
            Err(e) => Err(e),
            Ok((v, q)) => self.addition_rest(v, q),
        }
    }

    fn addition_rest(&self, left: Value, q: usize) -> (r: Result<(Value, usize), RunError>)
        requires
            q <= self.token_seq().len(),
        ensures
            eval_view(r) == addition_rest(self.token_seq(), self.env(), left@, q as nat),
            r matches Ok((_, q2)) ==> q <= q2 <= self.token_seq().len(),
        decreases self.token_seq().len() - q, 5int,
    {
        match self.addition_op_at(q) {
            None => Ok((left, q)),
            Some(op) => match self.parse_multiplication(q + 1) {
                Err(e) => Err(e),
                Ok((right, q2)) => match self.apply_addition(op, left, right, q2) {
                    Err(e) => Err(e),
                    Ok(v) => self.addition_rest(v, q2),
                },
            },
        }
    }

    fn parse_multiplication(&self, p: usize) -> (r: Result<(Value, usize), RunError>)
        requires
            p <= self.token_seq().len(),
        ensures
            eval_view(r) == eval_multiplication(self.token_seq(), self.env(), p as nat),
            r matches Ok((_, q)) ==> p < q <= self.token_seq().len(),
        decreases self.token_seq().len() - p, 4int,
    {
        match self.parse_unary(p) {
            Err(e) => Err(e),
            Ok((v, q)) => self.multiplication_rest(v, q),
        }
    }

    fn multiplication_rest(&self, left: Value, q: usize) -> (r: Result<(Value, usize), RunError>)
        requires
            q <= self.token_seq().len(),
        ensures
            eval_view(r) == multiplication_rest(self.token_seq(), self.env(), left@, q as nat),
            r matches Ok((_, q2)) ==> q <= q2 <= self.token_seq().len(),
        decreases self.token_seq().len() - q, 3int,
    {
        match self.multiplication_op_at(q) {
            None => Ok((left, q)),
            Some(op) => match self.parse_unary(q + 1) {
                Err(e) => Err(e),
                Ok((right, q2)) => match self.apply_multiplication(op, left, right, q2) {
                    Err(e) => Err(e),
                    Ok(v) => self.multiplication_rest(v, q2),
                },
            },
        }
    }

    fn parse_unary(&self, p: usize) -> (r: Result<(Value, usize), RunError>)
        requires
            p <= self.token_seq().len(),
        ensures
            eval_view(r) == eval_unary(self.token_seq(), self.env(), p as nat),
            r matches Ok((_, q)) ==> p < q <= self.token_seq().len(),
        decreases self.token_seq().len() - p, 2int,
    {
        match self.current_kind(p) {
            Some(TokenKind::Minus) => match self.parse_unary(p + 1) {
                Err(e) => Err(e),
                Ok((Value::Integer(n), q)) => Ok((Value::Integer(0i64.wrapping_sub(n)), q)),
                Ok(_) => Err(
                    RunError::At {
                        index: p,
                        message: text("unary '-' requires an integer operand"),
                    },
                ),
            },
            Some(TokenKind::Not) => match self.parse_unary(p + 1) {
                Err(e) => Err(e),
                Ok((Value::Bool(b), q)) => Ok((Value::Bool(!b), q)),
                Ok(_) => Err(
                    RunError::At { index: p, message: text("unary '!' requires a boolean operand") },
                ),
            },
            _ => self.parse_primary(p),
        }
    }

    fn parse_primary(&self, p: usize) -> (r: Result<(Value, usize), RunError>)
        requires
            p <= self.token_seq().len(),
        ensures
            eval_view(r) == eval_primary(self.token_seq(), self.env(), p as nat),
            r matches Ok((_, q)) ==> p < q <= self.token_seq().len(),
        decreases self.token_seq().len() - p, 1int,
    {
        match self.current_kind(p) {
            None => Err(RunError::Bare { message: text("unexpected end of input in expression") }),
            Some(TokenKind::Integer(n)) => Ok((Value::Integer(*n), p + 1)),
            Some(TokenKind::String(s)) => Ok((Value::String(s.clone()), p + 1)),
            Some(TokenKind::Identifier(name)) => match self.variables.get(name.as_str()) {
                Some(var) => Ok((var.value.duplicate(), p + 1)),
                None => Err(RunError::At { index: p, message: undefined_message(name) }),
            },
            Some(TokenKind::LParen) => match self.parse_comparison(p + 1) {
                Err(e) => Err(e),
                Ok((v, q)) => match self.expect(q, TokenKind::RParen) {
                    Err(e) => Err(e),
                    Ok(q2) => Ok((v, q2)),
                },
            },
            Some(other) => Err(
                RunError::At { index: p, message: unexpected_in_expression_message(other) },
            ),
        }
    }

    // -----------------------------------------------------------------------
    // Skipping code that is not run
    // -----------------------------------------------------------------------

    fn skip_block(&self, p: usize) -> (r: Result<usize, RunError>)
        requires
            p <= self.token_seq().len(),
        ensures
            pos_view(r) == skip_block(self.token_seq(), p as nat),
            r matches Ok(q) ==> p < q <= self.token_seq().len(),
    {
        let p1 = match self.expect(p, TokenKind::LBrace) {
            Err(e) => {
                return Err(e);
            },
            Ok(q) => q,
        };
        let mut q = p1;
        let mut depth: usize = 1;
        loop
            invariant
                1 <= p1 <= q <= self.token_seq().len(),
                self.token_seq().len() == self.tokens@.len(),
                1 <= depth <= q - p1 + 1,
                skip_braces(self.token_seq(), q as nat, depth as nat) == skip_block(
                    self.token_seq(),
                    p as nat,
                ),
                p < p1,
            decreases self.token_seq().len() - q,
        {
            match self.current_kind(q) {
                None => {
                    return Err(self.fail_at_current(q, text("unterminated block")));
                },
                Some(TokenKind::LBrace) => {
                    depth = depth + 1;
                    q = q + 1;
                },
                Some(TokenKind::RBrace) => {
                    depth = depth - 1;
                    q = q + 1;
                    if depth == 0 {
                        return Ok(q);
                    }
                },
                Some(_) => {
                    q = q + 1;
                },
            }
        }
    }

    fn skip_parens(&self, p: usize) -> (r: Result<usize, RunError>)
        requires
            1 <= p <= self.token_seq().len(),
        ensures
            pos_view(r) == skip_parens(self.token_seq(), p as nat, 1),
            r matches Ok(q) ==> p < q <= self.token_seq().len(),
    {
        let mut q = p;
        let mut depth: usize = 1;
        loop
            invariant
                1 <= p <= q <= self.token_seq().len(),
                self.token_seq().len() == self.tokens@.len(),
                1 <= depth <= q - p + 1,
                skip_parens(self.token_seq(), q as nat, depth as nat) == skip_parens(
                    self.token_seq(),
                    p as nat,
                    1,
                ),
            decreases self.token_seq().len() - q,
        {
            match self.current_kind(q) {
                None => {
                    return Err(self.fail_at_current(q, text("unterminated elif condition")));
                },
                Some(TokenKind::LParen) => {
                    depth = depth + 1;
                    q = q + 1;
                },
                Some(TokenKind::RParen) => {
                    depth = depth - 1;
                    q = q + 1;
                    if depth == 0 {
                        return Ok(q);
                    }
                },
                Some(_) => {
                    q = q + 1;
                },
            }
        }
    }

    /// After a taken branch: skips the rest of its `elif`/`else` chain.
    fn skip_elif_else_chain(&self, p: usize) -> (r: Result<usize, RunError>)
        requires
            p <= self.token_seq().len(),
        ensures
            pos_view(r) == skip_chain(self.token_seq(), p as nat),
            r matches Ok(q) ==> p <= q <= self.token_seq().len(),
    {
        let mut q = p;
        loop
            invariant
                p <= q <= self.token_seq().len(),
                self.token_seq().len() == self.tokens@.len(),
                skip_chain(self.token_seq(), q as nat) == skip_chain(self.token_seq(), p as nat),
            decreases self.token_seq().len() - q,
        {
            match self.current_kind(q) {
                Some(TokenKind::Elif) => {
                    let p2 = match self.expect(q + 1, TokenKind::LParen) {
                        Err(e) => {
                            return Err(e);
                        },
                        Ok(v) => v,
                    };
                    let p3 = match self.skip_parens(p2) {
                        Err(e) => {
                            return Err(e);
                        },
                        Ok(v) => v,
                    };
                    let p4 = match self.skip_block(p3) {
                        Err(e) => {
                            return Err(e);
                        },
                        Ok(v) => v,
                    };
                    q = p4;
                },
                Some(TokenKind::Else) => {
                    return self.skip_block(q + 1);
                },
                _ => {
                    return Ok(q);
                },
            }
        }
    }

    // -----------------------------------------------------------------------
    // Statements
    // -----------------------------------------------------------------------

    /// Whether a condition holds: a bool as it is, an integer by being non-zero.
    fn truth(v: &Value) -> (r: Option<bool>)
        ensures
            r == crate::semantics::condition_truth(v@),
    {
        match v {
            Value::Bool(b) => Some(*b),
            Value::Integer(n) => Some(*n != 0),
            Value::String(_) => None,
        }
    }

    /// When the `if` condition was false: tries the `elif` and `else` branches.
    fn interpret_elif_else_chain(&self, p: usize) -> (r: Result<Effect, RunError>)
        requires
            p <= self.token_seq().len(),
        ensures
            control_view(r) == elif_chain(self.token_seq(), self.env(), p as nat),
            r matches Ok(eff) ==> eff.binding is None && p <= eff.position <= self.token_seq().len()
                && frame_ok(eff.frame, self.token_seq().len()),
    {
        let mut q = p;
        loop
            invariant
                p <= q <= self.token_seq().len(),
                self.token_seq().len() == self.tokens@.len(),
                elif_chain(self.token_seq(), self.env(), q as nat) == elif_chain(
                    self.token_seq(),
                    self.env(),
                    p as nat,
                ),
            decreases self.token_seq().len() - q,
        {
            match self.current_kind(q) {
                Some(TokenKind::Elif) => {
                    let p2 = match self.expect(q + 1, TokenKind::LParen) {
                        Err(e) => {
                            return Err(e);
                        },
                        Ok(v) => v,
                    };
                    let (c, p3) = match self.parse_expression(p2) {
                        Err(e) => {
                            return Err(e);
                        },
                        Ok(v) => v,
                    };
                    let p4 = match self.expect(p3, TokenKind::RParen) {
                        Err(e) => {
                            return Err(e);
                        },
                        Ok(v) => v,
                    };
                    match Self::truth(&c) {
                        None => {
                            return Err(
                                self.fail_at_current(
                                    p4,
                                    text("elif condition must evaluate to a bool or integer"),
                                ),
                            );
                        },
                        Some(true) => {
                            return match self.expect(p4, TokenKind::LBrace) {
                                Err(e) => Err(e),
                                Ok(p5) => Ok(
                                    Effect { position: p5, binding: None, frame: Some(Frame::Branch) },
                                ),
                            };
                        },
                        Some(false) => {
                            let p5 = match self.skip_block(p4) {
                                Err(e) => {
                                    return Err(e);
                                },
                                Ok(v) => v,
                            };
                            q = p5;
                        },
                    }
                },
                Some(TokenKind::Else) => {
                    return match self.expect(q + 1, TokenKind::LBrace) {
                        Err(e) => Err(e),
                        Ok(p2) => Ok(
                            Effect { position: p2, binding: None, frame: Some(Frame::Otherwise) },
                        ),
                    };
                },
                _ => {
                    return Ok(Effect { position: q, binding: None, frame: None });
                },
            }
        }
    }

    /// `if ( expr ) { block } [elif ( expr ) { block }]* [else { block }]`
    fn interpret_if_statement(&self, p: usize) -> (r: Result<Effect, RunError>)
        requires
            p <= self.token_seq().len(),
        ensures
            control_view(r) == if_statement(self.token_seq(), self.env(), p as nat),
            r matches Ok(eff) ==> eff.binding is None && p <= eff.position <= self.token_seq().len()
                && frame_ok(eff.frame, self.token_seq().len()),
    {
        let p1 = match self.expect(p, TokenKind::If) {
            Err(e) => {
                return Err(e);
            },
            Ok(v) => v,
        };
        let p2 = match self.expect(p1, TokenKind::LParen) {
            Err(e) => {
                return Err(e);
            },
            Ok(v) => v,
        };
        let (c, p3) = match self.parse_expression(p2) {
            Err(e) => {
                return Err(e);
            },
            Ok(v) => v,
        };
        let p4 = match self.expect(p3, TokenKind::RParen) {
            Err(e) => {
                return Err(e);
            },
            Ok(v) => v,
        };
        match Self::truth(&c) {
            None => Err(
                self.fail_at_current(p4, text("if condition must evaluate to a bool or integer")),
            ),
            Some(true) => match self.expect(p4, TokenKind::LBrace) {
                Err(e) => Err(e),
                Ok(p5) => Ok(Effect { position: p5, binding: None, frame: Some(Frame::Branch) }),
            },
            Some(false) => match self.skip_block(p4) {
                Err(e) => Err(e),
                Ok(p5) => self.interpret_elif_else_chain(p5),
            },
        }
    }

    /// Tests the condition of the loop whose condition starts at `c`.
    fn loop_test(&self, c: usize) -> (r: Result<Effect, RunError>)
        requires
            c <= self.token_seq().len(),
        ensures
            control_view(r) == loop_test(self.token_seq(), self.env(), c as nat),
            r matches Ok(eff) ==> eff.binding is None && eff.position <= self.token_seq().len()
                && frame_ok(eff.frame, self.token_seq().len()),
    {
        let (v, q) = match self.parse_expression(c) {
            Err(e) => {
                return Err(e);
            },
            Ok(x) => x,
        };
        let q1 = match self.expect(q, TokenKind::RParen) {
            Err(e) => {
                return Err(e);
            },
            Ok(x) => x,
        };
        match Self::truth(&v) {
            None => Err(
                self.fail_at_current(q1, text("while condition must evaluate to a bool or integer")),
            ),
            Some(true) => match self.expect(q1, TokenKind::LBrace) {
                Err(e) => Err(e),
                Ok(q2) => Ok(Effect { position: q2, binding: None, frame: Some(Frame::Loop(c)) }),
            },
            Some(false) => match self.skip_block(q1) {
                Err(e) => Err(e),
                Ok(q2) => Ok(Effect { position: q2, binding: None, frame: None }),
            },
        }
    }

    /// `while ( expr ) { block }`
    fn interpret_while_statement(&self, p: usize) -> (r: Result<Effect, RunError>)
        requires
            p <= self.token_seq().len(),
        ensures
            control_view(r) == while_statement(self.token_seq(), self.env(), p as nat),
            r matches Ok(eff) ==> eff.binding is None && eff.position <= self.token_seq().len()
                && frame_ok(eff.frame, self.token_seq().len()),
    {
        let p1 = match self.expect(p, TokenKind::While) {
            Err(e) => {
                return Err(e);
            },
            Ok(v) => v,
        };
        let c = match self.expect(p1, TokenKind::LParen) {
            Err(e) => {
                return Err(e);
            },
            Ok(v) => v,
        };
        self.loop_test(c)
    }

    /// `let [mut] name = expr ;`
    fn interpret_let_statement(&self, p: usize) -> (r: Result<Effect, RunError>)
        requires
            p <= self.token_seq().len(),
        ensures
            binding_view(self.env(), r) == let_statement(self.token_seq(), self.env(), p as nat),
            r matches Ok(eff) ==> eff.frame is None && eff.position <= self.token_seq().len(),
    {
        let p1 = match self.expect(p, TokenKind::Let) {
            Err(e) => {
                return Err(e);
            },
            Ok(v) => v,
        };
        let is_mut = match self.current_kind(p1) {
            Some(TokenKind::Mut) => true,
            _ => false,
        };
        let p2 = if is_mut {
            p1 + 1
        } else {
            p1
        };
        let (name, p3) = match self.expect_identifier(p2) {
            Err(e) => {
                return Err(e);
            },
            Ok(v) => v,
        };
        let p4 = match self.expect(p3, TokenKind::Equal) {
            Err(e) => {
                return Err(e);
            },
            Ok(v) => v,
        };
        let (value, p5) = match self.parse_expression(p4) {
            Err(e) => {
                return Err(e);
            },
            Ok(v) => v,
        };
        let p6 = match self.expect(p5, TokenKind::Semicolon) {
            Err(e) => {
                return Err(e);
            },
            Ok(v) => v,
        };
        Ok(Effect { position: p6, binding: Some((name, Variable { value, is_mut })), frame: None })
    }

    /// `name = expr ;` from its `=` at `q`.
    fn interpret_assign_statement(&self, name: &String, q: usize) -> (r: Result<Effect, RunError>)
        requires
            q <= self.token_seq().len(),
        ensures
            binding_view(self.env(), r) == assign_statement(
                self.token_seq(),
                self.env(),
                name@,
                q as nat,
            ),
            r matches Ok(eff) ==> eff.frame is None && eff.position <= self.token_seq().len(),
    {
        let q1 = match self.expect(q, TokenKind::Equal) {
            Err(e) => {
                return Err(e);
            },
            Ok(v) => v,
        };
        let (value, q2) = match self.parse_expression(q1) {
            Err(e) => {
                return Err(e);
            },
            Ok(v) => v,
        };
        let q3 = match self.expect(q2, TokenKind::Semicolon) {
            Err(e) => {
                return Err(e);
            },
            Ok(v) => v,
        };
        match self.variables.get(name.as_str()) {
            Some(var) => {
                if var.is_mut {
                    Ok(
                        Effect {
                            position: q3,
                            binding: Some((name.clone(), Variable { value, is_mut: true })),
                            frame: None,
                        },
                    )
                } else {
                    Err(RunError::At { index: q, message: immutable_message(name) })
                }
            },
            None => Err(RunError::At { index: q, message: undefined_message(name) }),
        }
    }

    /// The values of a `print` statement from `p` on, and the text they print.
    fn print_items(&self, p: usize, first: bool) -> (r: (String, Result<usize, RunError>))
        requires
            p <= self.token_seq().len(),
        ensures
            (r.0@, pos_view(r.1)) == print_items(self.token_seq(), self.env(), p as nat, first),
            r.1 matches Ok(q) ==> p <= q <= self.token_seq().len(),
        decreases self.token_seq().len() - p,
    {
        let is_end = match self.current_kind(p) {
            None => true,
            Some(TokenKind::Semicolon) => true,
            Some(_) => false,
        };
        if is_end {
            return (String::new(), Ok(p));
        }
        let is_comma = match self.current_kind(p) {
            Some(TokenKind::Comma) => true,
            _ => false,
        };
        let p1 = if !first && is_comma {
            p + 1
        } else {
            p
        };
        match self.parse_expression(p1) {
            Err(e) => (String::new(), Err(e)),
            Ok((v, p2)) => {
                let (rest, r) = self.print_items(p2, false);
                let mut out = v.to_display_string();
                out.append(rest.as_str());
                (out, r)
            },
        }
    }

    /// `print expr [, expr]* ;`
    fn interpret_print_statement(&self, p: usize) -> (r: (String, Result<usize, RunError>))
        requires
            p <= self.token_seq().len(),
        ensures
            (r.0@, pos_view(r.1)) == print_statement(self.token_seq(), self.env(), p as nat),
            r.1 matches Ok(q) ==> q <= self.token_seq().len(),
    {
        let p1 = match self.expect(p, TokenKind::Print) {
            Err(e) => {
                return (String::new(), Err(e));
            },
            Ok(v) => v,
        };
        let (mut out, r) = self.print_items(p1, true);
        match r {
            Err(e) => (out, Err(e)),
            Ok(p2) => {
                out.append("\n");
                (out, self.expect(p2, TokenKind::Semicolon))
            },
        }
    }

    /// One statement, starting at `p`.
    fn interpret_statement(&self, p: usize) -> (r: (String, Result<Effect, RunError>))
        requires
            p <= self.token_seq().len(),
        ensures
            (r.0@, effect_view(self.env(), r.1)) == statement(
                self.token_seq(),
                self.env(),
                p as nat,
            ),
            r.1 matches Ok(eff) ==> eff.position <= self.token_seq().len() && frame_ok(
                eff.frame,
                self.token_seq().len(),
            ),
    {
        match self.current_kind(p) {
            Some(TokenKind::Let) => (String::new(), self.interpret_let_statement(p)),
            Some(TokenKind::Print) => {
                let (out, r) = self.interpret_print_statement(p);
                (
                    out,
                    match r {
                        Err(e) => Err(e),
                        Ok(q) => Ok(Effect { position: q, binding: None, frame: None }),
                    },
                )
            },
            Some(TokenKind::If) => (String::new(), self.interpret_if_statement(p)),
            Some(TokenKind::While) => (String::new(), self.interpret_while_statement(p)),
            Some(TokenKind::Identifier(name)) => {
                let next_is_equal = match self.current_kind(p + 1) {
                    Some(TokenKind::Equal) => true,
                    _ => false,
                };
                if next_is_equal {
                    (String::new(), self.interpret_assign_statement(name, p + 1))
                } else {
                    (
                        String::new(),
                        Err(
                            RunError::At {
                                index: p,
                                message: text("expected '=' after identifier for assignment"),
                            },
                        ),
                    )
                }
            },
            Some(TokenKind::EOF) => (String::new(), Ok(Effect { position: p, binding: None, frame: None })),
            None => (String::new(), Ok(Effect { position: p, binding: None, frame: None })),
            Some(other) => (
                String::new(),
                Err(RunError::At { index: p, message: unexpected_statement_message(other) }),
            ),
        }
    }

    // -----------------------------------------------------------------------
    // Steps
    // -----------------------------------------------------------------------

    /// Leaves the innermost block at its `}`; gives the position after it and
    /// the frame that replaces it, if any.
    fn close_block(&self) -> (r: Result<(usize, Option<Frame>), RunError>)
        requires
            self.wf(),
            self.frames@.len() > 0,
        ensures
            close_view(self.state(), r) == close_block(self.token_seq(), self.state()),
            r matches Ok((q, f)) ==> q <= self.token_seq().len() && frame_ok(
                f,
                self.token_seq().len(),
            ),
    {
        let frame = self.frames[self.frames.len() - 1];
        let p1 = match self.expect(self.position, TokenKind::RBrace) {
            Err(e) => {
                return Err(e);
            },
            Ok(v) => v,
        };
        assert(self.frames@.last() == frame);
        match frame {
            Frame::Branch => match self.skip_elif_else_chain(p1) {
                Err(e) => Err(e),
                Ok(p2) => Ok((p2, None)),
            },
            Frame::Otherwise => Ok((p1, None)),
            Frame::Loop(c) => {
                assert(self.frames@[self.frames@.len() - 1] == frame);
                match self.loop_test(c) {
                    Err(e) => Err(e),
                    Ok(eff) => Ok((eff.position, eff.frame)),
                }
            },
        }
    }


    /// Pops the innermost frame, pushes `f` if any, and moves to `q`.
    fn leave_block(&mut self, q: usize, f: Option<Frame>)
        requires
            old(self).wf(),
            old(self).frames@.len() > 0,
            q <= old(self).token_seq().len(),
            frame_ok(f, old(self).token_seq().len()),
        ensures
            final(self).wf(),
            final(self).token_seq() == old(self).token_seq(),
            final(self).source_files() == old(self).source_files(),
            close_view(old(self).state(), Ok::<(usize, Option<Frame>), RunError>((q, f)))
                == Ok::<MachineState, Fault>(final(self).state()),
    {
        let ghost before = self.frames@;
        self.frames.pop();
        match f {
            Some(fr) => {
                self.frames.push(fr);
            },
            None => {},
        }
        self.position = q;
        proof {
            assert forall|i: int| 0 <= i < self.frames@.len() implies match #[trigger] self.frames@[i] {
                Frame::Loop(c) => c <= self.tokens@.len(),
                _ => true,
            } by {
                if i < before.len() - 1 {
                    assert(self.frames@[i] == before[i]);
                }
            }
        }
    }

    /// Applies what a statement changes.
    fn apply(&mut self, eff: Effect)
        requires
            old(self).wf(),
            eff.position <= old(self).token_seq().len(),
            frame_ok(eff.frame, old(self).token_seq().len()),
        ensures
            final(self).wf(),
            final(self).token_seq() == old(self).token_seq(),
            final(self).source_files() == old(self).source_files(),
            final(self).state() == (MachineState {
                position: eff.position as nat,
                env: bound(old(self).env(), eff.binding),
                frames: match eff.frame {
                    Some(fr) => old(self).state().frames.push(fr),
                    None => old(self).state().frames,
                },
            }),
    {
        let ghost env0 = self.env();
        let ghost before = self.frames@;
        match eff.binding {
            Some((name, var)) => {
                let ghost key = name@;
                let ghost entry = (var.value@, var.is_mut);
                self.variables.insert(name, var);
                assert(self.env() =~= env0.insert(key, entry));
            },
            None => {},
        }
        match eff.frame {
            Some(fr) => {
                self.frames.push(fr);
            },
            None => {},
        }
        self.position = eff.position;
        proof {
            assert forall|i: int| 0 <= i < self.frames@.len() implies match #[trigger] self.frames@[i] {
                Frame::Loop(c) => c <= self.tokens@.len(),
                _ => true,
            } by {
                if i < before.len() {
                    assert(self.frames@[i] == before[i]);
                }
            }
        }
    }

    /// Runs one step of the program: outside any block the end of the tokens
    /// finishes it; inside a block its `}` leaves it (the end of the program
    /// there fails as a missing `}`); otherwise one statement runs. A program
    /// that finishes or fails is left where it was.
    #[verifier::rlimit(40)]
    pub fn step(&mut self) -> (r: Step)
        requires
            old(self).wf(),
        ensures
            final(self).wf(),
            final(self).token_seq() == old(self).token_seq(),
            final(self).source_files() == old(self).source_files(),
            step_agrees(
                machine_step(old(self).token_seq(), old(self).state()),
                r,
                old(self).state(),
                final(self).state(),
            ),
    {
        let p = self.position;
        let (at_end, at_close) = match self.current_kind(p) {
            None => (true, true),
            Some(TokenKind::EOF) => (true, true),
            Some(TokenKind::RBrace) => (false, true),
            Some(_) => (false, false),
        };
        if self.frames.len() == 0 && at_end {
            return Step { printed: String::new(), status: Status::Finished };
        }
        if self.frames.len() > 0 && at_close {
            return match self.close_block() {
                Err(e) => Step { printed: String::new(), status: Status::Failed(e) },
                Ok((q, f)) => {
                    self.leave_block(q, f);
                    Step { printed: String::new(), status: Status::Running }
                },
            };
        }
        let (out, r) = self.interpret_statement(p);
        match r {
            Err(e) => Step { printed: out, status: Status::Failed(e) },
            Ok(eff) => {
                self.apply(eff);
                Step { printed: out, status: Status::Running }
            },
        }
    }

    /// Runs the program for at most `max_steps` steps, collecting what it
    /// prints; stops early when it finishes or fails. `Running` means the
    /// steps ran out first.
    pub fn run(&mut self, max_steps: usize) -> (r: Step)
        requires
            old(self).wf(),
        ensures
            final(self).wf(),
            final(self).token_seq() == old(self).token_seq(),
            final(self).source_files() == old(self).source_files(),
            ({
                let (out, status, last) = run_steps(
                    old(self).token_seq(),
                    old(self).state(),
                    max_steps as nat,
                );
                &&& r.printed@ == out
                &&& final(self).state() == last
                &&& match status {
                    StepStatus::Running(_) => r.status is Running,
                    StepStatus::Finished => r.status is Finished,
                    StepStatus::Failed(f) => r.status matches Status::Failed(e) && e@ == f,
                }
            }),
    {
        let mut out = String::new();
        let mut n = max_steps;
        let ghost toks = self.token_seq();
        loop
            invariant
                self.wf(),
                self.token_seq() == toks,
                toks == old(self).token_seq(),
                self.source_files() == old(self).source_files(),
                ({
                    let whole = run_steps(toks, old(self).state(), max_steps as nat);
                    let rest = run_steps(toks, self.state(), n as nat);
                    whole == (out@ + rest.0, rest.1, rest.2)
                }),
            decreases n,
        {
            if n == 0 {
                assert(out@ + Seq::<char>::empty() =~= out@);
                return Step { printed: out, status: Status::Running };
            }
            let ghost st = self.state();
            let step = self.step();
            let ghost prev = out@;
            out.append(step.printed.as_str());
            match step.status {
                Status::Running => {
                    n = n - 1;
                    proof {
                        let rest = run_steps(toks, self.state(), n as nat);
                        assert(prev + (step.printed@ + rest.0) =~= out@ + rest.0);
                    }
                },
                Status::Finished => {
                    return Step { printed: out, status: Status::Finished };
                },
                Status::Failed(e) => {
                    return Step { printed: out, status: Status::Failed(e) };
                },
            }
        }
    }
}

} // verus!
