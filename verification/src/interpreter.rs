//! The evaluator: locates the function named "main" in a module and executes
//! it against a single flat environment of variable bindings, collecting
//! everything the built-in "print" writes. Bindings persist across calls for
//! the whole run; any error aborts the run at once, with the output emitted
//! so far preserved.

use vstd::prelude::*;
use vstd::string::StringExecFns;

use crate::lex::{dec_digits, digit_char_of};
use crate::parse::{
    arg_views, function_views, literal_views, stmt_views, Arg, ArgV, BinaryOp, Expr, ExprV,
    Function, FunctionV, Literal, LiteralV, Module, ModuleV, Stmt, StmtV,
};

verus! {

/// A literal with the variable case eliminated: a resolved run-time value.
#[derive(Debug, PartialEq, Clone)]
pub enum NonVarLiteral {
    Integer(i64),
    Bool(bool),
    String(String),
}

/// Mathematical model of a resolved value.
pub enum NonVarLiteralV {
    Integer(i64),
    Bool(bool),
    Str(Seq<char>),
}

impl View for NonVarLiteral {
    type V = NonVarLiteralV;

    open spec fn view(&self) -> NonVarLiteralV {
        match self {
            NonVarLiteral::Integer(n) => NonVarLiteralV::Integer(*n),
            NonVarLiteral::Bool(b) => NonVarLiteralV::Bool(*b),
            NonVarLiteral::String(s) => NonVarLiteralV::Str(s@),
        }
    }
}

/// The kind of a resolved value, as reported by operator errors.
#[derive(Debug, PartialEq, Eq, Structural, Clone, Copy)]
pub enum ValueKind {
    Integer,
    Bool,
    Str,
}

/// An evaluation failure.
#[derive(Debug, PartialEq, Clone)]
pub enum EvalError {
    UndefinedVariable(String),
    InvalidOperation(ValueKind, BinaryOp, ValueKind),
    FunctionNotFound(String),
    MissingArgument { index: usize, expected: String },
    NoMainFunction,
    DivisionByZero,
    IntegerOverflow,
    RecursionLimitExceeded,
}

/// Mathematical model of an evaluation failure.
pub enum EvalErrorV {
    UndefinedVariable(Seq<char>),
    InvalidOperation(ValueKind, BinaryOp, ValueKind),
    FunctionNotFound(Seq<char>),
    MissingArgument { index: int, expected: Seq<char> },
    NoMainFunction,
    DivisionByZero,
    IntegerOverflow,
    RecursionLimitExceeded,
}

impl View for EvalError {
    type V = EvalErrorV;

    open spec fn view(&self) -> EvalErrorV {
        match self {
            EvalError::UndefinedVariable(s) => EvalErrorV::UndefinedVariable(s@),
            EvalError::InvalidOperation(l, op, r) => EvalErrorV::InvalidOperation(*l, *op, *r),
            EvalError::FunctionNotFound(s) => EvalErrorV::FunctionNotFound(s@),
            EvalError::MissingArgument { index, expected } => EvalErrorV::MissingArgument {
                index: *index as int,
                expected: expected@,
            },
            EvalError::NoMainFunction => EvalErrorV::NoMainFunction,
            EvalError::DivisionByZero => EvalErrorV::DivisionByZero,
            EvalError::IntegerOverflow => EvalErrorV::IntegerOverflow,
            EvalError::RecursionLimitExceeded => EvalErrorV::RecursionLimitExceeded,
        }
    }
}

/// The run-time state: the flat environment and the output so far.
pub struct StateV {
    pub env: Map<Seq<char>, NonVarLiteralV>,
    pub output: Seq<Seq<char>>,
}

/// The views of a sequence of strings.
pub open spec fn string_views(ss: Seq<String>) -> Seq<Seq<char>> {
    ss.map_values(|s: String| s@)
}

/// The views of a sequence of resolved values.
pub open spec fn value_views(vs: Seq<NonVarLiteral>) -> Seq<NonVarLiteralV> {
    vs.map_values(|v: NonVarLiteral| v@)
}

/// The kind of a resolved value.
pub open spec fn kind_of(v: NonVarLiteralV) -> ValueKind {
    match v {
        NonVarLiteralV::Integer(_) => ValueKind::Integer,
        NonVarLiteralV::Bool(_) => ValueKind::Bool,
        NonVarLiteralV::Str(_) => ValueKind::Str,
    }
}

/// Resolve a literal: a variable reference looks its name up in the
/// environment, failing when it is unbound; every other literal resolves to
/// itself.
pub open spec fn resolve_lit(env: Map<Seq<char>, NonVarLiteralV>, lit: LiteralV) -> Result<
    NonVarLiteralV,
    EvalErrorV,
> {
    match lit {
        LiteralV::Integer(n) => Ok(NonVarLiteralV::Integer(n)),
        LiteralV::Bool(b) => Ok(NonVarLiteralV::Bool(b)),
        LiteralV::Str(s) => Ok(NonVarLiteralV::Str(s)),
        LiteralV::Variable(name) => if env.contains_key(name) {
            Ok(env[name])
        } else {
            Err(EvalErrorV::UndefinedVariable(name))
        },
    }
}

/// Truncating integer division, as machine division behaves: the quotient of
/// the magnitudes, with the sign of the exact quotient.
pub open spec fn trunc_div(x: int, d: int) -> int {
    if x == 0 {
        0
    } else if x > 0 && d > 0 {
        x / d
    } else if x < 0 && d < 0 {
        (x * -1) / (d * -1)
    } else if x < 0 {
        ((x * -1) / d) * -1
    } else {
        (x / (d * -1)) * -1
    }
}

/// Apply a binary operator: defined only for integer operands, with overflow
/// and division by zero as errors; any other kind combination is an invalid
/// operation.
pub open spec fn apply_binop(l: NonVarLiteralV, op: BinaryOp, r: NonVarLiteralV) -> Result<
    NonVarLiteralV,
    EvalErrorV,
> {
    match (l, r) {
        (NonVarLiteralV::Integer(a), NonVarLiteralV::Integer(b)) => match op {
            BinaryOp::Add => if i64::MIN <= a + b <= i64::MAX {
                Ok(NonVarLiteralV::Integer((a + b) as i64))
            } else {
                Err(EvalErrorV::IntegerOverflow)
            },
            BinaryOp::Sub => if i64::MIN <= a - b <= i64::MAX {
                Ok(NonVarLiteralV::Integer((a - b) as i64))
            } else {
                Err(EvalErrorV::IntegerOverflow)
            },
            BinaryOp::Mul => if i64::MIN <= a * b <= i64::MAX {
                Ok(NonVarLiteralV::Integer((a * b) as i64))
            } else {
                Err(EvalErrorV::IntegerOverflow)
            },
            BinaryOp::Div => if b == 0 {
                Err(EvalErrorV::DivisionByZero)
            } else {
                let q = trunc_div(a as int, b as int);
                if q < i64::MIN || q > i64::MAX {
                    Err(EvalErrorV::IntegerOverflow)
                } else {
                    Ok(NonVarLiteralV::Integer(q as i64))
                }
            },
        },
        _ => Err(EvalErrorV::InvalidOperation(kind_of(l), op, kind_of(r))),
    }
}

/// Evaluate an expression: resolve the left literal, recursively evaluate
/// the right sub-expression, then apply the operator.
pub open spec fn spec_eval_expr(env: Map<Seq<char>, NonVarLiteralV>, e: ExprV) -> Result<
    NonVarLiteralV,
    EvalErrorV,
>
    decreases e,
{
    match e {
        ExprV::Literal(lit) => resolve_lit(env, lit),
        ExprV::Binary(lit, op, rhs) => match resolve_lit(env, lit) {
            Err(er) => Err(er),
            Ok(l) => match spec_eval_expr(env, *rhs) {
                Err(er) => Err(er),
                Ok(r) => apply_binop(l, op, r),
            },
        },
    }
}

/// The decimal rendering of an integer, with a leading minus sign when it is
/// negative.
pub open spec fn render_int(n: int) -> Seq<char> {
    if n < 0 {
        seq!['-'] + dec_digits((-n) as nat)
    } else {
        dec_digits(n as nat)
    }
}

/// The natural textual form of a resolved value: decimal for integers,
/// `true`/`false` for booleans, the raw content for strings.
pub open spec fn render_value(v: NonVarLiteralV) -> Seq<char> {
    match v {
        NonVarLiteralV::Integer(n) => render_int(n as int),
        NonVarLiteralV::Bool(b) => if b {
            "true"@
        } else {
            "false"@
        },
        NonVarLiteralV::Str(s) => s,
    }
}

/// Resolve every actual argument, in order, in the caller's environment,
/// before anything is bound or written: the first failure is the call's.
pub open spec fn resolve_args(
    env: Map<Seq<char>, NonVarLiteralV>,
    args: Seq<LiteralV>,
    i: int,
) -> Result<Seq<NonVarLiteralV>, EvalErrorV>
    decreases args.len() - i,
{
    if i < 0 || i >= args.len() {
        Ok(Seq::empty())
    } else {
        match resolve_lit(env, args[i]) {
            Err(e) => Err(e),
            Ok(v) => match resolve_args(env, args, i + 1) {
                Ok(rest) => Ok(seq![v] + rest),
                Err(e) => Err(e),
            },
        }
    }
}

/// The textual forms of a list of resolved values, one line per value.
pub open spec fn render_all(vals: Seq<NonVarLiteralV>) -> Seq<Seq<char>> {
    vals.map_values(|v: NonVarLiteralV| render_value(v))
}

/// Bind each declared formal, in declared order, to the already-resolved
/// value of the corresponding actual; fail with a missing-argument error
/// when the values run out; surplus values are ignored. The formals bound
/// before the failing index stay bound.
pub open spec fn spec_bind_args(
    env: Map<Seq<char>, NonVarLiteralV>,
    formals: Seq<ArgV>,
    vals: Seq<NonVarLiteralV>,
    i: int,
) -> (Map<Seq<char>, NonVarLiteralV>, Option<EvalErrorV>)
    decreases formals.len() - i,
{
    if i < 0 || i >= formals.len() {
        (env, None)
    } else if i >= vals.len() {
        (env, Some(EvalErrorV::MissingArgument { index: i, expected: formals[i].name }))
    } else {
        spec_bind_args(env.insert(formals[i].name, vals[i]), formals, vals, i + 1)
    }
}

/// First-match resolution of a name over the function list, in declaration
/// order.
pub open spec fn find_fn(fns: Seq<FunctionV>, name: Seq<char>) -> Option<FunctionV>
    decreases fns.len(),
{
    if fns.len() == 0 {
        None
    } else if fns[0].name == name {
        Some(fns[0])
    } else {
        find_fn(fns.drop_first(), name)
    }
}

/// Execute one statement against the state, yielding the state afterwards
/// and the failure, if any.
pub open spec fn spec_exec_stmt(fns: Seq<FunctionV>, st: StateV, s: StmtV, fuel: nat) -> (
    StateV,
    Option<EvalErrorV>,
)
    decreases fuel, 0nat, 0nat,
{
    match s {
        StmtV::SetVariable(sv) => match spec_eval_expr(st.env, sv.value) {
            Err(e) => (st, Some(e)),
            Ok(v) => (StateV { env: st.env.insert(sv.name, v), output: st.output }, None),
        },
        StmtV::FunctionCall(c) => match find_fn(fns, c.name) {
            None => (st, Some(EvalErrorV::FunctionNotFound(c.name))),
            Some(f) => if fuel == 0 {
                (st, Some(EvalErrorV::RecursionLimitExceeded))
            } else {
                spec_exec_fn(fns, st, f, c.args, (fuel - 1) as nat)
            },
        },
    }
}

/// Execute a statement list in order, stopping at the first failure.
pub open spec fn spec_exec_stmts(fns: Seq<FunctionV>, st: StateV, body: Seq<StmtV>, fuel: nat) -> (
    StateV,
    Option<EvalErrorV>,
)
    decreases fuel, 1nat, body.len(),
{
    if body.len() == 0 {
        (st, None)
    } else {
        let (st1, err) = spec_exec_stmt(fns, st, body[0], fuel);
        match err {
            Some(e) => (st1, Some(e)),
            None => spec_exec_stmts(fns, st1, body.drop_first(), fuel),
        }
    }
}

/// Invoke a function: every actual is first resolved in the caller's
/// environment; then "print", recognized by name ahead of everything else,
/// writes each resolved value to the output, one per line; any other
/// function binds the values to its formals in declared order and runs its
/// body against the shared environment.
pub open spec fn spec_exec_fn(
    fns: Seq<FunctionV>,
    st: StateV,
    f: FunctionV,
    actuals: Seq<LiteralV>,
    fuel: nat,
) -> (StateV, Option<EvalErrorV>)
    decreases fuel, 2nat, 0nat,
{
    match resolve_args(st.env, actuals, 0) {
        Err(e) => (st, Some(e)),
        Ok(vals) => if f.name == "print"@ {
            (StateV { env: st.env, output: st.output + render_all(vals) }, None)
        } else {
            let (env, err) = spec_bind_args(st.env, f.args, vals, 0);
            let st1 = StateV { env, output: st.output };
            match err {
                Some(e) => (st1, Some(e)),
                None => spec_exec_stmts(fns, st1, f.body, fuel),
            }
        },
    }
}

/// The synthetic zero-argument "print" function appended to every module
/// before execution.
pub open spec fn print_fn_v() -> FunctionV {
    FunctionV { name: "print"@, args: Seq::empty(), body: Seq::empty() }
}

/// Run a module: append the synthetic "print", locate "main" by first match,
/// and execute it with no arguments from an empty environment; a module with
/// no "main" fails before any statement runs.
pub open spec fn spec_interpret(m: ModuleV, fuel: nat) -> (Seq<Seq<char>>, Option<EvalErrorV>) {
    let fns = m.functions.push(print_fn_v());
    match find_fn(fns, "main"@) {
        None => (Seq::empty(), Some(EvalErrorV::NoMainFunction)),
        Some(mainf) => {
            let (st, err) = spec_exec_fn(
                fns,
                StateV { env: Map::empty(), output: Seq::empty() },
                mainf,
                Seq::empty(),
                fuel,
            );
            (st.output, err)
        },
    }
}

// ---------------------------------------------------------------------------
// The executable evaluator.
// ---------------------------------------------------------------------------

/// The environment a sequence of bindings denotes: later bindings of a name
/// shadow earlier ones.
pub open spec fn env_map(entries: Seq<(String, NonVarLiteral)>) -> Map<Seq<char>, NonVarLiteralV>
    decreases entries.len(),
{
    if entries.len() == 0 {
        Map::empty()
    } else {
        env_map(entries.drop_last()).insert(entries.last().0@, entries.last().1@)
    }
}

/// Looking a name up in the environment finds the value of its latest
/// binding.
proof fn lemma_env_map_get(entries: Seq<(String, NonVarLiteral)>, name: Seq<char>, k: int)
    requires
        0 <= k < entries.len(),
        entries[k].0@ == name,
        forall|j: int| k < j < entries.len() ==> entries[j].0@ != name,
    ensures
        env_map(entries).contains_key(name),
        env_map(entries)[name] == entries[k].1@,
    decreases entries.len(),
{
    if k == entries.len() - 1 {
    } else {
        assert(entries.last().0@ != name);
        assert(forall|j: int| k < j < entries.len() - 1 ==> entries.drop_last()[j] == entries[j]);
        lemma_env_map_get(entries.drop_last(), name, k);
    }
}

/// A name bound nowhere is absent from the environment.
proof fn lemma_env_map_absent(entries: Seq<(String, NonVarLiteral)>, name: Seq<char>)
    requires
        forall|j: int| 0 <= j < entries.len() ==> entries[j].0@ != name,
    ensures
        !env_map(entries).contains_key(name),
    decreases entries.len(),
{
    if entries.len() > 0 {
        assert(forall|j: int| 0 <= j < entries.len() - 1 ==> entries.drop_last()[j] == entries[j]);
        lemma_env_map_absent(entries.drop_last(), name);
    }
}

/// The tree-walking evaluator's mutable state: the flat environment, as the
/// ordered list of bindings performed, and the output written so far.
pub struct Interpreter {
    pub vars: Vec<(String, NonVarLiteral)>,
    pub output: Vec<String>,
}

impl Interpreter {
    /// The environment this state denotes.
    pub open spec fn env(&self) -> Map<Seq<char>, NonVarLiteralV> {
        env_map(self.vars@)
    }

    /// The output written so far.
    pub open spec fn out(&self) -> Seq<Seq<char>> {
        string_views(self.output@)
    }

    /// A fresh evaluator: empty environment, no output.
    pub fn new() -> (r: Interpreter)
        ensures
            r.env() == Map::<Seq<char>, NonVarLiteralV>::empty(),
            r.out() == Seq::<Seq<char>>::empty(),
    {
        let r = Interpreter { vars: Vec::new(), output: Vec::new() };
        proof {
            assert(r.out() =~= Seq::<Seq<char>>::empty());
        }
        r
    }

    /// The value of the latest binding of `name`, if any.
    fn get_var(&self, name: &String) -> (r: Option<NonVarLiteral>)
        ensures
            match r {
                Some(v) => self.env().contains_key(name@) && v@ == self.env()[name@],
                None => !self.env().contains_key(name@),
            },
    {
        let mut k = self.vars.len();
        while k > 0
            invariant
                k <= self.vars@.len(),
                forall|j: int| k <= j < self.vars@.len() ==> self.vars@[j].0@ != name@,
            decreases k,
        {
            k = k - 1;
            if self.vars[k].0 == *name {
                proof {
                    lemma_env_map_get(self.vars@, name@, k as int);
                }
                return Some(self.vars[k].1.duplicate());
            }
        }
        proof {
            lemma_env_map_absent(self.vars@, name@);
        }
        None
    }

    /// Bind `name` to `value`, shadowing any earlier binding.
    fn set_var(&mut self, name: String, value: NonVarLiteral)
        ensures
            final(self).env() == old(self).env().insert(name@, value@),
            final(self).out() == old(self).out(),
            final(self).output@ == old(self).output@,
    {
        let ghost oldvars = self.vars@;
        self.vars.push((name, value));
        proof {
            assert(self.vars@.drop_last() =~= oldvars);
        }
    }

    /// Resolve a literal to a value that can never contain a variable: a
    /// variable reference is looked up in the environment, everything else
    /// resolves to itself.
    pub fn to_nonvar_literal(&self, literal: &Literal) -> (r: Result<NonVarLiteral, EvalError>)
        ensures
            match r {
                Ok(v) => resolve_lit(self.env(), literal@) == Ok::<NonVarLiteralV, EvalErrorV>(v@),
                Err(e) => resolve_lit(self.env(), literal@) == Err::<NonVarLiteralV, EvalErrorV>(
                    e@,
                ),
            },
    {
        match literal {
            Literal::Variable(name) => match self.get_var(name) {
                Some(v) => Ok(v),
                None => Err(EvalError::UndefinedVariable(name.clone())),
            },
            Literal::Integer(i) => Ok(NonVarLiteral::Integer(*i)),
            Literal::Bool(b) => Ok(NonVarLiteral::Bool(*b)),
            Literal::String(s) => Ok(NonVarLiteral::String(s.clone())),
        }
    }

    /// Evaluate an expression against the environment: the left literal is
    /// resolved, the right sub-expression evaluated recursively, and the
    /// operator applied to the two values.
    pub fn compute_expr(&self, expr: &Expr) -> (r: Result<NonVarLiteral, EvalError>)
        ensures
            match r {
                Ok(v) => spec_eval_expr(self.env(), expr@) == Ok::<NonVarLiteralV, EvalErrorV>(v@),
                Err(e) => spec_eval_expr(self.env(), expr@) == Err::<NonVarLiteralV, EvalErrorV>(
                    e@,
                ),
            },
        decreases expr,
    {
        match expr {
            Expr::Literal(lit) => self.to_nonvar_literal(lit),
            Expr::Binary(lit, op, rhs) => match self.to_nonvar_literal(lit) {
                Err(e) => Err(e),
                Ok(l) => match self.compute_expr(rhs) {
                    Err(e) => Err(e),
                    Ok(rv) => apply_binop_exec(l, *op, rv),
                },
            },
        }
    }
}

impl NonVarLiteral {
    /// A structurally equal copy of the value.
    fn duplicate(&self) -> (r: NonVarLiteral)
        ensures
            r@ == self@,
    {
        match self {
            NonVarLiteral::Integer(n) => NonVarLiteral::Integer(*n),
            NonVarLiteral::Bool(b) => NonVarLiteral::Bool(*b),
            NonVarLiteral::String(s) => NonVarLiteral::String(s.clone()),
        }
    }

    /// The kind of the value.
    fn kind(&self) -> (k: ValueKind)
        ensures
            k == kind_of(self@),
    {
        match self {
            NonVarLiteral::Integer(_) => ValueKind::Integer,
            NonVarLiteral::Bool(_) => ValueKind::Bool,
            NonVarLiteral::String(_) => ValueKind::Str,
        }
    }
}

/// Apply a binary operator to two resolved values.
fn apply_binop_exec(l: NonVarLiteral, op: BinaryOp, r: NonVarLiteral) -> (res: Result<
    NonVarLiteral,
    EvalError,
>)
    ensures
        match res {
            Ok(v) => apply_binop(l@, op, r@) == Ok::<NonVarLiteralV, EvalErrorV>(v@),
            Err(e) => apply_binop(l@, op, r@) == Err::<NonVarLiteralV, EvalErrorV>(e@),
        },
{
    let lk = l.kind();
    let rk = r.kind();
    match (l, r) {
        (NonVarLiteral::Integer(a), NonVarLiteral::Integer(b)) => match op {
            BinaryOp::Add => match a.checked_add(b) {
                Some(v) => Ok(NonVarLiteral::Integer(v)),
                None => Err(EvalError::IntegerOverflow),
            },
            BinaryOp::Sub => match a.checked_sub(b) {
                Some(v) => Ok(NonVarLiteral::Integer(v)),
                None => Err(EvalError::IntegerOverflow),
            },
            BinaryOp::Mul => match a.checked_mul(b) {
                Some(v) => Ok(NonVarLiteral::Integer(v)),
                None => Err(EvalError::IntegerOverflow),
            },
            BinaryOp::Div => if b == 0 {
                Err(EvalError::DivisionByZero)
            } else {
                match a.checked_div(b) {
                    Some(v) => Ok(NonVarLiteral::Integer(v)),
                    None => Err(EvalError::IntegerOverflow),
                }
            },
        },
        _ => Err(EvalError::InvalidOperation(lk, op, rk)),
    }
}

/// The decimal digit characters of `n`, most significant first.
fn u64_to_digits(n: u64) -> (v: Vec<char>)
    ensures
        v@ == dec_digits(n as nat),
    decreases n,
{
    let d: char = match n % 10 {
        0 => '0',
        1 => '1',
        2 => '2',
        3 => '3',
        4 => '4',
        5 => '5',
        6 => '6',
        7 => '7',
        8 => '8',
        _ => '9',
    };
    proof {
        assert(d == digit_char_of((n % 10) as nat));
    }
    if n < 10 {
        let mut v: Vec<char> = Vec::new();
        v.push(d);
        proof {
            assert(v@ =~= seq![digit_char_of(n as nat)]);
        }
        v
    } else {
        let mut v = u64_to_digits(n / 10);
        v.push(d);
        v
    }
}

/// The decimal rendering of an integer, with a leading minus sign when it is
/// negative.
fn int_to_string(value: i64) -> (s: String)
    ensures
        s@ == render_int(value as int),
{
    if value >= 0 {
        let digits = u64_to_digits(value as u64);
        crate::lex::build_string(&digits, 0, digits.len())
    } else {
        let mag: u64 = (-(value + 1)) as u64 + 1;
        proof {
            assert(mag as nat == (-(value as int)) as nat);
        }
        let digits = u64_to_digits(mag);
        let mut all: Vec<char> = Vec::new();
        all.push('-');
        let mut j: usize = 0;
        while j < digits.len()
            invariant
                j <= digits@.len(),
                all@ == seq!['-'] + digits@.take(j as int),
            decreases digits@.len() - j,
        {
            all.push(digits[j]);
            proof {
                let ghost pre: Seq<char> = seq!['-'];
                assert((pre + digits@.take(j as int)).push(digits@[j as int]) =~= pre
                    + digits@.take(j as int + 1));
            }
            j += 1;
        }
        proof {
            assert(digits@.take(digits@.len() as int) =~= digits@);
        }
        crate::lex::build_string(&all, 0, all.len())
    }
}

/// The natural textual form of a resolved value.
fn render_nonvar(v: &NonVarLiteral) -> (s: String)
    ensures
        s@ == render_value(v@),
{
    match v {
        NonVarLiteral::Integer(n) => int_to_string(*n),
        NonVarLiteral::Bool(b) => if *b {
            String::from_str("true")
        } else {
            String::from_str("false")
        },
        NonVarLiteral::String(s) => s.clone(),
    }
}

/// First-match lookup of a function by name over the declaration list,
/// yielding its index.
fn find_function(functions: &Vec<Function>, name: &String) -> (r: Option<usize>)
    ensures
        match r {
            Some(i) => i < functions@.len() && find_fn(function_views(functions@), name@) == Some(
                functions@[i as int]@,
            ),
            None => find_fn(function_views(functions@), name@) is None,
        },
{
    let ghost fvs = function_views(functions@);
    proof {
        assert(fvs.skip(0) =~= fvs);
    }
    let mut k: usize = 0;
    while k < functions.len()
        invariant
            k <= functions@.len(),
            fvs == function_views(functions@),
            find_fn(fvs, name@) == find_fn(fvs.skip(k as int), name@),
        decreases functions@.len() - k,
    {
        proof {
            assert(fvs.skip(k as int)[0] == fvs[k as int]);
            assert(fvs[k as int] == functions@[k as int]@);
        }
        if functions[k].name == *name {
            return Some(k);
        }
        proof {
            assert(fvs.skip(k as int).drop_first() =~= fvs.skip(k as int + 1));
        }
        k += 1;
    }
    proof {
        assert(fvs.skip(functions@.len() as int) =~= Seq::<FunctionV>::empty());
    }
    None
}

/// A structurally equal copy of a literal.
fn dup_literal(l: &Literal) -> (r: Literal)
    ensures
        r@ == l@,
{
    match l {
        Literal::Integer(n) => Literal::Integer(*n),
        Literal::Bool(b) => Literal::Bool(*b),
        Literal::String(s) => Literal::String(s.clone()),
        Literal::Variable(s) => Literal::Variable(s.clone()),
    }
}

impl Interpreter {
    /// Execute one statement: a binding evaluates its expression and rebinds
    /// the name unconditionally; a call resolves the callee by first match
    /// over the module's function list and invokes it with one unit of the
    /// recursion budget spent.
    pub fn interpret_stmt(&mut self, ast: &Module, stmt: &Stmt, fuel: u64) -> (r: Result<
        (),
        EvalError,
    >)
        ensures
            ({
                let (st1, err) = spec_exec_stmt(
                    function_views(ast.functions@),
                    StateV { env: old(self).env(), output: old(self).out() },
                    stmt@,
                    fuel as nat,
                );
                final (self).env() == st1.env && final (self).out() == st1.output && (match r {
                    Ok(u) => err is None,
                    Err(e) => err == Some(e@),
                })
            }),
        decreases fuel, 0nat,
    {
        match stmt {
            Stmt::SetVariable(sv) => match self.compute_expr(&sv.value) {
                Err(e) => Err(e),
                Ok(v) => {
                    self.set_var(sv.name.clone(), v);
                    Ok(())
                },
            },
            Stmt::FunctionCall(c) => match find_function(&ast.functions, &c.name) {
                None => Err(EvalError::FunctionNotFound(c.name.clone())),
                Some(idx) => {
                    if fuel == 0 {
                        Err(EvalError::RecursionLimitExceeded)
                    } else {
                        let args = clone_literals(&c.args);
                        let f = &ast.functions[idx];
                        self.interpret_fn(ast, f, args, fuel - 1)
                    }
                },
            },
        }
    }

    /// Invoke a function: every actual argument is first resolved in the
    /// caller's environment; then "print", recognized by name ahead of user
    /// functions, writes each resolved value to the output, one per line;
    /// any other function binds the values to its formals in declared order,
    /// failing when they run out and ignoring surplus ones, then executes
    /// its body statements in order against the shared environment.
    #[verifier::loop_isolation(false)]
    pub fn interpret_fn(
        &mut self,
        ast: &Module,
        function: &Function,
        input_args: Vec<Literal>,
        fuel: u64,
    ) -> (r: Result<(), EvalError>)
        ensures
            ({
                let (st1, err) = spec_exec_fn(
                    function_views(ast.functions@),
                    StateV { env: old(self).env(), output: old(self).out() },
                    function@,
                    literal_views(input_args@),
                    fuel as nat,
                );
                final (self).env() == st1.env && final (self).out() == st1.output && (match r {
                    Ok(u) => err is None,
                    Err(e) => err == Some(e@),
                })
            }),
        decreases fuel, 1nat,
    {
        let ghost fns = function_views(ast.functions@);
        let ghost env0 = self.env();
        let ghost out0 = self.out();
        let ghost argsv = literal_views(input_args@);
        // resolve every actual in the caller's environment, before anything
        // is bound or written
        let mut vals: Vec<NonVarLiteral> = Vec::new();
        proof {
            match resolve_args(env0, argsv, 0) {
                Ok(rest) => {
                    assert(value_views(vals@) =~= Seq::<NonVarLiteralV>::empty());
                    assert(Seq::<NonVarLiteralV>::empty() + rest =~= rest);
                },
                Err(e) => {},
            }
        }
        let mut i: usize = 0;
        while i < input_args.len()
            invariant
                i <= input_args@.len(),
                vals@.len() == i,
                self.vars@ == old(self).vars@,
                self.output@ == old(self).output@,
                resolve_args(env0, argsv, 0) == (match resolve_args(env0, argsv, i as int) {
                    Ok(rest) => Ok::<Seq<NonVarLiteralV>, EvalErrorV>(value_views(vals@) + rest),
                    Err(e) => Err::<Seq<NonVarLiteralV>, EvalErrorV>(e),
                }),
            decreases input_args@.len() - i,
        {
            proof {
                assert(argsv[i as int] == input_args@[i as int]@);
            }
            match self.to_nonvar_literal(&input_args[i]) {
                Err(e) => {
                    proof {
                        assert(resolve_args(env0, argsv, i as int) == Err::<
                            Seq<NonVarLiteralV>,
                            EvalErrorV,
                        >(e@));
                    }
                    return Err(e);
                },
                Ok(v) => {
                    let ghost oldvals = vals@;
                    let ghost vv = v@;
                    vals.push(v);
                    proof {
                        assert(value_views(vals@) =~= value_views(oldvals).push(vv));
                        match resolve_args(env0, argsv, i as int + 1) {
                            Ok(rest) => {
                                assert(value_views(oldvals) + (seq![vv] + rest) =~= value_views(
                                    vals@,
                                ) + rest);
                            },
                            Err(e) => {},
                        }
                    }
                },
            }
            i += 1;
        }
        proof {
            assert(resolve_args(env0, argsv, input_args@.len() as int) == Ok::<
                Seq<NonVarLiteralV>,
                EvalErrorV,
            >(Seq::empty()));
            assert(value_views(vals@) + Seq::<NonVarLiteralV>::empty() =~= value_views(vals@));
        }
        let ghost valsv = value_views(vals@);
        let print_name = String::from_str("print");
        if function.name == print_name {
            let mut j: usize = 0;
            proof {
                assert(out0 + render_all(valsv).take(0) =~= out0);
            }
            while j < vals.len()
                invariant
                    j <= vals@.len(),
                    valsv == value_views(vals@),
                    self.vars@ == old(self).vars@,
                    self.out() == out0 + render_all(valsv).take(j as int),
                decreases vals@.len() - j,
            {
                proof {
                    assert(valsv[j as int] == vals@[j as int]@);
                    assert(render_all(valsv)[j as int] == render_value(valsv[j as int]));
                }
                let ghost outp = self.out();
                let s = render_nonvar(&vals[j]);
                self.output.push(s);
                proof {
                    assert(self.out() =~= outp.push(render_value(vals@[j as int]@)));
                    assert(outp.push(render_value(valsv[j as int])) =~= out0 + render_all(
                        valsv,
                    ).take(j as int + 1));
                }
                j += 1;
            }
            proof {
                assert(render_all(valsv).take(valsv.len() as int) =~= render_all(valsv));
            }
            Ok(())
        } else {
            let ghost formalsv = arg_views(function.args@);
            let mut k: usize = 0;
            while k < function.args.len()
                invariant
                    k <= function.args@.len(),
                    valsv == value_views(vals@),
                    self.output@ == old(self).output@,
                    spec_bind_args(env0, formalsv, valsv, 0) == spec_bind_args(
                        self.env(),
                        formalsv,
                        valsv,
                        k as int,
                    ),
                decreases function.args@.len() - k,
            {
                proof {
                    assert(formalsv[k as int] == function.args@[k as int]@);
                }
                if k < vals.len() {
                    proof {
                        assert(valsv[k as int] == vals@[k as int]@);
                    }
                    let v = vals[k].duplicate();
                    self.set_var(function.args[k].name.clone(), v);
                } else {
                    let err = EvalError::MissingArgument {
                        index: k,
                        expected: function.args[k].name.clone(),
                    };
                    proof {
                        assert(spec_bind_args(self.env(), formalsv, valsv, k as int) == (
                            self.env(),
                            Some(err@),
                        ));
                    }
                    return Err(err);
                }
                k += 1;
            }
            let ghost st_bind = StateV { env: self.env(), output: self.out() };
            let ghost bodyv = stmt_views(function.body@);
            proof {
                assert(bodyv.skip(0) =~= bodyv);
            }
            let mut j: usize = 0;
            while j < function.body.len()
                invariant
                    j <= function.body@.len(),
                    bodyv == stmt_views(function.body@),
                    fns == function_views(ast.functions@),
                    spec_exec_stmts(fns, st_bind, bodyv, fuel as nat) == spec_exec_stmts(
                        fns,
                        StateV { env: self.env(), output: self.out() },
                        bodyv.skip(j as int),
                        fuel as nat,
                    ),
                decreases function.body@.len() - j,
            {
                proof {
                    assert(bodyv.skip(j as int)[0] == bodyv[j as int]);
                    assert(bodyv[j as int] == function.body@[j as int]@);
                    assert(bodyv.skip(j as int).drop_first() =~= bodyv.skip(j as int + 1));
                }
                let ghost stpre = StateV { env: self.env(), output: self.out() };
                match self.interpret_stmt(ast, &function.body[j], fuel) {
                    Err(e) => {
                        proof {
                            assert(spec_exec_stmts(fns, stpre, bodyv.skip(j as int), fuel as nat)
                                == (StateV { env: self.env(), output: self.out() }, Some(e@)));
                        }
                        return Err(e);
                    },
                    Ok(u) => {},
                }
                j += 1;
            }
            proof {
                assert(bodyv.skip(function.body@.len() as int) =~= Seq::<StmtV>::empty());
            }
            Ok(())
        }
    }
}

/// The recursion-depth limit imposed on nested function calls.
pub const RECURSION_LIMIT: u64 = 1024;

/// Run a module to completion: append the synthetic "print" function, locate
/// "main", and execute it with no arguments. The output written so far comes
/// back beside the result, so that output preceding a failure remains
/// observed.
pub fn interpet(ast: Module) -> (r: (Vec<String>, Result<(), EvalError>))
    ensures
        ({
            let (out, err) = spec_interpret(ast@, RECURSION_LIMIT as nat);
            string_views(r.0@) == out && (match r.1 {
                Ok(u) => err is None,
                Err(e) => err == Some(e@),
            })
        }),
{
    let ghost m0 = ast@;
    let mut m = ast;
    m.functions.push(
        Function { name: String::from_str("print"), args: Vec::new(), body: Vec::new() },
    );
    proof {
        assert(arg_views(Seq::<Arg>::empty()) =~= Seq::<ArgV>::empty());
        assert(stmt_views(Seq::<Stmt>::empty()) =~= Seq::<StmtV>::empty());
        assert(function_views(m.functions@) =~= m0.functions.push(print_fn_v()));
    }
    let main_name = String::from_str("main");
    match find_function(&m.functions, &main_name) {
        None => {
            let out: Vec<String> = Vec::new();
            proof {
                assert(string_views(out@) =~= Seq::<Seq<char>>::empty());
            }
            (out, Err(EvalError::NoMainFunction))
        },
        Some(idx) => {
            let mut interp = Interpreter::new();
            let empty_args: Vec<Literal> = Vec::new();
            proof {
                assert(literal_views(empty_args@) =~= Seq::<LiteralV>::empty());
            }
            let res = interp.interpret_fn(&m, &m.functions[idx], empty_args, RECURSION_LIMIT);
            (interp.output, res)
        },
    }
}

/// No function list without the name holds it under first-match lookup.
pub proof fn lemma_find_fn_absent(fns: Seq<FunctionV>, name: Seq<char>)
    requires
        forall|i: int| 0 <= i < fns.len() ==> fns[i].name != name,
    ensures
        find_fn(fns, name) is None,
    decreases fns.len(),
{
    if fns.len() > 0 {
        assert(forall|i: int| 0 <= i < fns.len() - 1 ==> fns.drop_first()[i] == fns[i + 1]);
        lemma_find_fn_absent(fns.drop_first(), name);
    }
}

/// A module containing no function named "main" fails with the structural
/// no-main error before any statement runs, and produces no output.
pub proof fn lemma_no_main_fails(m: ModuleV, fuel: nat)
    requires
        forall|i: int| 0 <= i < m.functions.len() ==> m.functions[i].name != "main"@,
    ensures
        spec_interpret(m, fuel) == (
            Seq::<Seq<char>>::empty(),
            Some(EvalErrorV::NoMainFunction),
        ),
{
    reveal_strlit("print");
    reveal_strlit("main");
    let fns = m.functions.push(print_fn_v());
    assert forall|i: int| 0 <= i < fns.len() implies fns[i].name != "main"@ by {
        if i == fns.len() - 1 {
            assert(fns[i] == print_fn_v());
            assert("print"@.len() != "main"@.len());
        } else {
            assert(fns[i] == m.functions[i]);
        }
    }
    lemma_find_fn_absent(fns, "main"@);
}

/// A structurally equal copy of a literal list.
fn clone_literals(ls: &Vec<Literal>) -> (r: Vec<Literal>)
    ensures
        literal_views(r@) == literal_views(ls@),
{
    let mut r: Vec<Literal> = Vec::new();
    let mut k: usize = 0;
    while k < ls.len()
        invariant
            k <= ls@.len(),
            r@.len() == k,
            forall|j: int| 0 <= j < k ==> r@[j]@ == ls@[j]@,
        decreases ls@.len() - k,
    {
        r.push(dup_literal(&ls[k]));
        k += 1;
    }
    proof {
        assert(literal_views(r@) =~= literal_views(ls@));
    }
    r
}

} // verus!
