//! The parser: consumes the immutable token sequence through a random-access
//! cursor and produces a Module AST. Alternatives try a sub-parser and, on
//! failure, rewind to the original position before trying the next one; a
//! failed parse of the whole module yields a structured error carrying the
//! attempted construct and the token position.

use vstd::prelude::*;

use vstd::string::StringExecFns;

use crate::lex::{token_views, Token, TokenV};

verus! {

/// Something that can be reduced to a value: a literal or a variable
/// reference, prior to lookup.
#[derive(Debug, PartialEq, Clone)]
pub enum Literal {
    Integer(i64),
    Bool(bool),
    String(String),
    Variable(String),
}

/// Mathematical model of a literal.
pub enum LiteralV {
    Integer(i64),
    Bool(bool),
    Str(Seq<char>),
    Variable(Seq<char>),
}

impl View for Literal {
    type V = LiteralV;

    open spec fn view(&self) -> LiteralV {
        match self {
            Literal::Integer(n) => LiteralV::Integer(*n),
            Literal::Bool(b) => LiteralV::Bool(*b),
            Literal::String(s) => LiteralV::Str(s@),
            Literal::Variable(s) => LiteralV::Variable(s@),
        }
    }
}

#[derive(Debug, PartialEq, Eq, Structural, Clone, Copy)]
pub enum BinaryOp {
    Add,
    Sub,
    Mul,
    Div,
}

/// An expression: a bare literal, or a right-nested binary chain whose left
/// operand is always a single literal.
#[derive(Debug)]
pub enum Expr {
    Literal(Literal),
    Binary(Literal, BinaryOp, Box<Expr>),
}

/// Mathematical model of an expression.
pub enum ExprV {
    Literal(LiteralV),
    Binary(LiteralV, BinaryOp, Box<ExprV>),
}

/// Mathematical model of an expression, by structural recursion.
pub open spec fn expr_view(e: Expr) -> ExprV
    decreases e,
{
    match e {
        Expr::Literal(lit) => ExprV::Literal(lit@),
        Expr::Binary(lit, op, rhs) => ExprV::Binary(lit@, op, Box::new(expr_view(*rhs))),
    }
}

impl View for Expr {
    type V = ExprV;

    open spec fn view(&self) -> ExprV {
        expr_view(*self)
    }
}

/// Structural equality of two literals, stated over their views.
fn literal_eq(a: &Literal, b: &Literal) -> (r: bool)
    ensures
        r == (a@ == b@),
{
    match (a, b) {
        (Literal::Integer(x), Literal::Integer(y)) => *x == *y,
        (Literal::Bool(x), Literal::Bool(y)) => *x == *y,
        (Literal::String(x), Literal::String(y)) => *x == *y,
        (Literal::Variable(x), Literal::Variable(y)) => *x == *y,
        _ => false,
    }
}

impl PartialEq for Expr {
    fn eq(&self, other: &Expr) -> (r: bool)
        decreases self,
    {
        match (self, other) {
            (Expr::Literal(a), Expr::Literal(b)) => literal_eq(a, b),
            (Expr::Binary(a, opa, ra), Expr::Binary(b, opb, rb)) => literal_eq(a, b) && *opa
                == *opb && (&**ra).eq(&**rb),
            _ => false,
        }
    }
}

impl vstd::std_specs::cmp::PartialEqSpecImpl for Expr {
    open spec fn obeys_eq_spec() -> bool {
        true
    }

    open spec fn eq_spec(&self, other: &Expr) -> bool {
        expr_view(*self) == expr_view(*other)
    }
}

/// A call statement: a function name and its literal arguments.
#[derive(Debug, PartialEq, Clone)]
pub struct FunctionCall {
    pub name: String,
    pub args: Vec<Literal>,
}

pub struct FunctionCallV {
    pub name: Seq<char>,
    pub args: Seq<LiteralV>,
}

/// The views of a sequence of literals.
pub open spec fn literal_views(ls: Seq<Literal>) -> Seq<LiteralV> {
    ls.map_values(|l: Literal| l@)
}

impl View for FunctionCall {
    type V = FunctionCallV;

    open spec fn view(&self) -> FunctionCallV {
        FunctionCallV { name: self.name@, args: literal_views(self.args@) }
    }
}

/// A binding statement: `set name -> expr`.
#[derive(Debug, PartialEq)]
pub struct SetVariable {
    pub name: String,
    pub value: Expr,
}

pub struct SetVariableV {
    pub name: Seq<char>,
    pub value: ExprV,
}

impl View for SetVariable {
    type V = SetVariableV;

    open spec fn view(&self) -> SetVariableV {
        SetVariableV { name: self.name@, value: self.value@ }
    }
}

/// A line of code.
#[derive(Debug, PartialEq)]
pub enum Stmt {
    FunctionCall(FunctionCall),
    SetVariable(SetVariable),
}

pub enum StmtV {
    FunctionCall(FunctionCallV),
    SetVariable(SetVariableV),
}

impl View for Stmt {
    type V = StmtV;

    open spec fn view(&self) -> StmtV {
        match self {
            Stmt::FunctionCall(c) => StmtV::FunctionCall(c@),
            Stmt::SetVariable(s) => StmtV::SetVariable(s@),
        }
    }
}

/// A declared argument: a name and a type name, the latter carried but not
/// enforced.
#[derive(Debug, PartialEq, Clone)]
pub struct Arg {
    pub name: String,
    pub ty_name: String,
}

pub struct ArgV {
    pub name: Seq<char>,
    pub ty_name: Seq<char>,
}

impl View for Arg {
    type V = ArgV;

    open spec fn view(&self) -> ArgV {
        ArgV { name: self.name@, ty_name: self.ty_name@ }
    }
}

/// A function definition.
#[derive(Debug, PartialEq)]
pub struct Function {
    pub name: String,
    pub args: Vec<Arg>,
    pub body: Vec<Stmt>,
}

pub struct FunctionV {
    pub name: Seq<char>,
    pub args: Seq<ArgV>,
    pub body: Seq<StmtV>,
}

/// The views of a sequence of declared arguments.
pub open spec fn arg_views(args: Seq<Arg>) -> Seq<ArgV> {
    args.map_values(|a: Arg| a@)
}

/// The views of a sequence of statements.
pub open spec fn stmt_views(ss: Seq<Stmt>) -> Seq<StmtV> {
    ss.map_values(|s: Stmt| s@)
}

impl View for Function {
    type V = FunctionV;

    open spec fn view(&self) -> FunctionV {
        FunctionV { name: self.name@, args: arg_views(self.args@), body: stmt_views(self.body@) }
    }
}

/// A module is a program (`Bin`) iff some function is named "main";
/// otherwise it is a library (`Lib`).
#[derive(Debug, PartialEq, Eq, Structural, Clone, Copy)]
pub enum ModuleType {
    Bin,
    Lib,
}

/// AST (Abstract Syntax Tree) and metadata of a module.
#[derive(Debug, PartialEq)]
pub struct Module {
    pub functions: Vec<Function>,
    pub module_type: ModuleType,
}

pub struct ModuleV {
    pub functions: Seq<FunctionV>,
    pub module_type: ModuleType,
}

/// The views of a sequence of function definitions.
pub open spec fn function_views(fs: Seq<Function>) -> Seq<FunctionV> {
    fs.map_values(|f: Function| f@)
}

impl View for Module {
    type V = ModuleV;

    open spec fn view(&self) -> ModuleV {
        ModuleV { functions: function_views(self.functions@), module_type: self.module_type }
    }
}

/// The construct a failed parse was attempting.
#[derive(Debug, PartialEq, Eq, Structural, Clone, Copy)]
pub enum Construct {
    Function,
}

/// A parse failure: the attempted construct and the token position where the
/// attempt began.
#[derive(Debug, PartialEq, Eq, Structural, Clone, Copy)]
pub struct ParseError {
    pub construct: Construct,
    pub pos: usize,
}

// ---------------------------------------------------------------------------
// The grammar, as pure functions from a cursor position to either a node and
// a new position or no match.
// ---------------------------------------------------------------------------

/// Literal := Number | String | Bool | Ident (as a variable reference).
pub open spec fn spec_parse_literal(t: Seq<TokenV>, p: int) -> Option<(LiteralV, int)> {
    if 0 <= p < t.len() {
        match t[p] {
            TokenV::Number(n) => Some((LiteralV::Integer(n), p + 1)),
            TokenV::Str(s) => Some((LiteralV::Str(s), p + 1)),
            TokenV::Bool(b) => Some((LiteralV::Bool(b), p + 1)),
            TokenV::Ident(s) => Some((LiteralV::Variable(s), p + 1)),
            _ => None,
        }
    } else {
        None
    }
}

/// BinaryOp := '+' | '-' | '*' | '/'.
pub open spec fn spec_parse_binop(t: Seq<TokenV>, p: int) -> Option<(BinaryOp, int)> {
    if 0 <= p < t.len() {
        match t[p] {
            TokenV::Add => Some((BinaryOp::Add, p + 1)),
            TokenV::Sub => Some((BinaryOp::Sub, p + 1)),
            TokenV::Mul => Some((BinaryOp::Mul, p + 1)),
            TokenV::Div => Some((BinaryOp::Div, p + 1)),
            _ => None,
        }
    } else {
        None
    }
}

/// Expr := Literal BinaryOp Expr | Literal, tried in that order, rewinding
/// to the literal alternative when the longer form fails.
pub open spec fn spec_parse_expr(t: Seq<TokenV>, p: int) -> Option<(ExprV, int)>
    decreases t.len() - p,
{
    match spec_parse_literal(t, p) {
        None => None,
        Some((lit, p1)) => match spec_parse_binop(t, p1) {
            None => Some((ExprV::Literal(lit), p1)),
            Some((op, p2)) => if p < p2 <= t.len() {
                match spec_parse_expr(t, p2) {
                    Some((rhs, p3)) => Some((ExprV::Binary(lit, op, Box::new(rhs)), p3)),
                    None => Some((ExprV::Literal(lit), p1)),
                }
            } else {
                Some((ExprV::Literal(lit), p1))
            },
        },
    }
}

/// The `(',' Literal)* ')'` tail of a call argument list.
pub open spec fn spec_parse_call_rest(t: Seq<TokenV>, p: int) -> Option<(Seq<LiteralV>, int)>
    decreases t.len() - p,
{
    if 0 <= p < t.len() && t[p] is RParen {
        Some((Seq::empty(), p + 1))
    } else if 0 <= p < t.len() && t[p] is Comma {
        match spec_parse_literal(t, p + 1) {
            None => None,
            Some((lit, p1)) => if p < p1 <= t.len() {
                match spec_parse_call_rest(t, p1) {
                    Some((rest, p2)) => Some((seq![lit] + rest, p2)),
                    None => None,
                }
            } else {
                None
            },
        }
    } else {
        None
    }
}

/// The `(Literal (',' Literal)*)? ')'` of a call argument list.
pub open spec fn spec_parse_call_args(t: Seq<TokenV>, p: int) -> Option<(Seq<LiteralV>, int)> {
    if 0 <= p < t.len() && t[p] is RParen {
        Some((Seq::empty(), p + 1))
    } else {
        match spec_parse_literal(t, p) {
            None => None,
            Some((lit, p1)) => match spec_parse_call_rest(t, p1) {
                Some((rest, p2)) => Some((seq![lit] + rest, p2)),
                None => None,
            },
        }
    }
}

/// FunctionCall := Ident '(' (Literal (',' Literal)*)? ')'.
pub open spec fn spec_parse_function_call(t: Seq<TokenV>, p: int) -> Option<(FunctionCallV, int)> {
    if 0 <= p && p + 1 < t.len() && t[p] is Ident && t[p + 1] is LParen {
        match spec_parse_call_args(t, p + 2) {
            Some((args, p1)) => Some((FunctionCallV { name: t[p]->Ident_0, args }, p1)),
            None => None,
        }
    } else {
        None
    }
}

/// SetVariable := 'set' Ident '->' Expr.
pub open spec fn spec_parse_set_variable(t: Seq<TokenV>, p: int) -> Option<(SetVariableV, int)> {
    if 0 <= p && p + 2 < t.len() && t[p] is SetKw && t[p + 1] is Ident && t[p + 2] is Arrow {
        match spec_parse_expr(t, p + 3) {
            Some((e, p1)) => Some((SetVariableV { name: t[p + 1]->Ident_0, value: e }, p1)),
            None => None,
        }
    } else {
        None
    }
}

/// Stmt := FunctionCall | SetVariable, tried in that order.
pub open spec fn spec_parse_stmt(t: Seq<TokenV>, p: int) -> Option<(StmtV, int)> {
    match spec_parse_function_call(t, p) {
        Some((c, p1)) => Some((StmtV::FunctionCall(c), p1)),
        None => match spec_parse_set_variable(t, p) {
            Some((s, p1)) => Some((StmtV::SetVariable(s), p1)),
            None => None,
        },
    }
}

/// The statement list of a function body, up to and including the closing
/// brace; semicolons between statements are discarded.
pub open spec fn spec_parse_stmts(t: Seq<TokenV>, p: int) -> Option<(Seq<StmtV>, int)>
    decreases t.len() - p,
{
    if 0 <= p < t.len() && t[p] is RBrace {
        Some((Seq::empty(), p + 1))
    } else if 0 <= p < t.len() && t[p] is Semicolon {
        spec_parse_stmts(t, p + 1)
    } else {
        match spec_parse_stmt(t, p) {
            None => None,
            Some((st, p1)) => if p < p1 <= t.len() {
                match spec_parse_stmts(t, p1) {
                    Some((rest, p2)) => Some((seq![st] + rest, p2)),
                    None => None,
                }
            } else {
                None
            },
        }
    }
}

/// Arg := Ident ':' Ident.
pub open spec fn spec_parse_arg(t: Seq<TokenV>, p: int) -> Option<(ArgV, int)> {
    if 0 <= p && p + 2 < t.len() && t[p] is Ident && t[p + 1] is Colon && t[p + 2] is Ident {
        Some((ArgV { name: t[p]->Ident_0, ty_name: t[p + 2]->Ident_0 }, p + 3))
    } else {
        None
    }
}

/// The `(',' Arg)* ')'` tail of a declared argument list.
pub open spec fn spec_parse_args_rest(t: Seq<TokenV>, p: int) -> Option<(Seq<ArgV>, int)>
    decreases t.len() - p,
{
    if 0 <= p < t.len() && t[p] is RParen {
        Some((Seq::empty(), p + 1))
    } else if 0 <= p < t.len() && t[p] is Comma {
        match spec_parse_arg(t, p + 1) {
            None => None,
            Some((a, p1)) => if p < p1 <= t.len() {
                match spec_parse_args_rest(t, p1) {
                    Some((rest, p2)) => Some((seq![a] + rest, p2)),
                    None => None,
                }
            } else {
                None
            },
        }
    } else {
        None
    }
}

/// The `(Arg (',' Arg)*)? ')'` of a declared argument list.
pub open spec fn spec_parse_args(t: Seq<TokenV>, p: int) -> Option<(Seq<ArgV>, int)> {
    if 0 <= p < t.len() && t[p] is RParen {
        Some((Seq::empty(), p + 1))
    } else {
        match spec_parse_arg(t, p) {
            None => None,
            Some((a, p1)) => match spec_parse_args_rest(t, p1) {
                Some((rest, p2)) => Some((seq![a] + rest, p2)),
                None => None,
            },
        }
    }
}

/// Function := 'fn' Ident '(' (Arg (',' Arg)*)? ')' '{' Stmt* '}'.
pub open spec fn spec_parse_function(t: Seq<TokenV>, p: int) -> Option<(FunctionV, int)> {
    if 0 <= p && p + 2 < t.len() && t[p] is Fn && t[p + 1] is Ident && t[p + 2] is LParen {
        match spec_parse_args(t, p + 3) {
            None => None,
            Some((args, p1)) => if 0 <= p1 < t.len() && t[p1] is LBrace {
                match spec_parse_stmts(t, p1 + 1) {
                    Some((body, p2)) => Some(
                        (FunctionV { name: t[p + 1]->Ident_0, args, body }, p2),
                    ),
                    None => None,
                }
            } else {
                None
            },
        }
    } else {
        None
    }
}

/// Module := Function*: functions are taken greedily; the position where no
/// further function matches comes back with them.
pub open spec fn spec_parse_functions(t: Seq<TokenV>, p: int) -> (Seq<FunctionV>, int)
    decreases t.len() - p,
{
    match spec_parse_function(t, p) {
        None => (Seq::empty(), p),
        Some((f, p1)) => if p < p1 <= t.len() {
            let (rest, p2) = spec_parse_functions(t, p1);
            (seq![f] + rest, p2)
        } else {
            (seq![f], p1)
        },
    }
}

/// True when some function in the list is named "main".
pub open spec fn has_main(fns: Seq<FunctionV>) -> bool {
    exists|i: int| 0 <= i < fns.len() && fns[i].name == "main"@
}

/// The module the token sequence denotes: every token must belong to some
/// function; otherwise the parse fails at the position where no function
/// could be read.
pub open spec fn spec_parse_module(t: Seq<TokenV>) -> Result<ModuleV, ParseError> {
    let (fns, p) = spec_parse_functions(t, 0);
    if p == t.len() {
        Ok(
            ModuleV {
                functions: fns,
                module_type: if has_main(fns) {
                    ModuleType::Bin
                } else {
                    ModuleType::Lib
                },
            },
        )
    } else {
        Err(ParseError { construct: Construct::Function, pos: p as usize })
    }
}

// ---------------------------------------------------------------------------
// The executable parser, each production proved equal to its grammar
// function.
// ---------------------------------------------------------------------------

/// Parse a single literal token at `pos`.
pub fn parse_literal(tokens: &Vec<Token>, pos: usize) -> (r: Option<(Literal, usize)>)
    ensures
        match r {
            Some((lit, q)) => spec_parse_literal(token_views(tokens@), pos as int) == Some(
                (lit@, q as int),
            ) && pos < q <= tokens@.len(),
            None => spec_parse_literal(token_views(tokens@), pos as int) is None,
        },
{
    proof {
        if pos < tokens@.len() {
            assert(token_views(tokens@)[pos as int] == tokens@[pos as int]@);
        }
    }
    if pos < tokens.len() {
        match &tokens[pos] {
            Token::Number(n) => Some((Literal::Integer(*n), pos + 1)),
            Token::String(s) => Some((Literal::String(s.clone()), pos + 1)),
            Token::Bool(b) => Some((Literal::Bool(*b), pos + 1)),
            Token::Ident(s) => Some((Literal::Variable(s.clone()), pos + 1)),
            _ => None,
        }
    } else {
        None
    }
}

/// Parse a single binary-operator token at `pos`.
fn parse_binary_op(tokens: &Vec<Token>, pos: usize) -> (r: Option<(BinaryOp, usize)>)
    ensures
        match r {
            Some((op, q)) => spec_parse_binop(token_views(tokens@), pos as int) == Some(
                (op, q as int),
            ) && pos < q <= tokens@.len(),
            None => spec_parse_binop(token_views(tokens@), pos as int) is None,
        },
{
    proof {
        if pos < tokens@.len() {
            assert(token_views(tokens@)[pos as int] == tokens@[pos as int]@);
        }
    }
    if pos < tokens.len() {
        match &tokens[pos] {
            Token::Add => Some((BinaryOp::Add, pos + 1)),
            Token::Sub => Some((BinaryOp::Sub, pos + 1)),
            Token::Mul => Some((BinaryOp::Mul, pos + 1)),
            Token::Div => Some((BinaryOp::Div, pos + 1)),
            _ => None,
        }
    } else {
        None
    }
}

/// Parse an expression at `pos`: a binary chain when one matches, else a
/// bare literal.
pub fn parse_expr(tokens: &Vec<Token>, pos: usize) -> (r: Option<(Expr, usize)>)
    ensures
        match r {
            Some((e, q)) => spec_parse_expr(token_views(tokens@), pos as int) == Some(
                (e@, q as int),
            ) && pos < q <= tokens@.len(),
            None => spec_parse_expr(token_views(tokens@), pos as int) is None,
        },
    decreases tokens@.len() - pos,
{
    match parse_literal(tokens, pos) {
        None => None,
        Some((lit, p1)) => match parse_binary_op(tokens, p1) {
            None => Some((Expr::Literal(lit), p1)),
            Some((op, p2)) => match parse_expr(tokens, p2) {
                Some((rhs, p3)) => Some((Expr::Binary(lit, op, Box::new(rhs)), p3)),
                None => Some((Expr::Literal(lit), p1)),
            },
        },
    }
}

/// Parse the comma-separated tail of a call argument list, through the
/// closing parenthesis.
fn parse_call_rest(tokens: &Vec<Token>, pos: usize) -> (r: Option<(Vec<Literal>, usize)>)
    ensures
        match r {
            Some((args, q)) => spec_parse_call_rest(token_views(tokens@), pos as int) == Some(
                (literal_views(args@), q as int),
            ) && pos < q <= tokens@.len(),
            None => spec_parse_call_rest(token_views(tokens@), pos as int) is None,
        },
    decreases tokens@.len() - pos,
{
    proof {
        if pos < tokens@.len() {
            assert(token_views(tokens@)[pos as int] == tokens@[pos as int]@);
        }
    }
    if pos < tokens.len() && matches!(&tokens[pos], Token::RParen) {
        let args: Vec<Literal> = Vec::new();
        proof {
            assert(literal_views(args@) =~= Seq::<LiteralV>::empty());
        }
        Some((args, pos + 1))
    } else if pos < tokens.len() && matches!(&tokens[pos], Token::Comma) {
        match parse_literal(tokens, pos + 1) {
            None => None,
            Some((lit, p1)) => match parse_call_rest(tokens, p1) {
                None => None,
                Some((mut rest, p2)) => {
                    let ghost old_rest = rest@;
                    let ghost litv = lit@;
                    rest.insert(0, lit);
                    proof {
                        assert(literal_views(rest@) =~= seq![litv] + literal_views(old_rest));
                    }
                    Some((rest, p2))
                },
            },
        }
    } else {
        None
    }
}

/// Parse a possibly empty call argument list, through the closing
/// parenthesis.
fn parse_call_args(tokens: &Vec<Token>, pos: usize) -> (r: Option<(Vec<Literal>, usize)>)
    ensures
        match r {
            Some((args, q)) => spec_parse_call_args(token_views(tokens@), pos as int) == Some(
                (literal_views(args@), q as int),
            ) && pos < q <= tokens@.len(),
            None => spec_parse_call_args(token_views(tokens@), pos as int) is None,
        },
{
    proof {
        if pos < tokens@.len() {
            assert(token_views(tokens@)[pos as int] == tokens@[pos as int]@);
        }
    }
    if pos < tokens.len() && matches!(&tokens[pos], Token::RParen) {
        let args: Vec<Literal> = Vec::new();
        proof {
            assert(literal_views(args@) =~= Seq::<LiteralV>::empty());
        }
        Some((args, pos + 1))
    } else {
        match parse_literal(tokens, pos) {
            None => None,
            Some((lit, p1)) => match parse_call_rest(tokens, p1) {
                None => None,
                Some((mut rest, p2)) => {
                    let ghost old_rest = rest@;
                    let ghost litv = lit@;
                    rest.insert(0, lit);
                    proof {
                        assert(literal_views(rest@) =~= seq![litv] + literal_views(old_rest));
                    }
                    Some((rest, p2))
                },
            },
        }
    }
}

/// Parse a call statement at `pos`.
fn parse_function_call(tokens: &Vec<Token>, pos: usize) -> (r: Option<(FunctionCall, usize)>)
    ensures
        match r {
            Some((c, q)) => spec_parse_function_call(token_views(tokens@), pos as int) == Some(
                (c@, q as int),
            ) && pos < q <= tokens@.len(),
            None => spec_parse_function_call(token_views(tokens@), pos as int) is None,
        },
{
    proof {
        if pos < tokens@.len() {
            assert(token_views(tokens@)[pos as int] == tokens@[pos as int]@);
        }
        if pos + 1 < tokens@.len() {
            assert(token_views(tokens@)[pos as int + 1] == tokens@[pos as int + 1]@);
        }
    }
    if pos < tokens.len() && pos + 1 < tokens.len() {
        match (&tokens[pos], &tokens[pos + 1]) {
            (Token::Ident(name), Token::LParen) => {
                match parse_call_args(tokens, pos + 2) {
                    Some((args, p1)) => Some((FunctionCall { name: name.clone(), args }, p1)),
                    None => None,
                }
            },
            _ => None,
        }
    } else {
        None
    }
}

/// Parse a binding statement at `pos`.
fn parse_set_variable(tokens: &Vec<Token>, pos: usize) -> (r: Option<(SetVariable, usize)>)
    ensures
        match r {
            Some((s, q)) => spec_parse_set_variable(token_views(tokens@), pos as int) == Some(
                (s@, q as int),
            ) && pos < q <= tokens@.len(),
            None => spec_parse_set_variable(token_views(tokens@), pos as int) is None,
        },
{
    proof {
        if pos < tokens@.len() {
            assert(token_views(tokens@)[pos as int] == tokens@[pos as int]@);
        }
        if pos + 1 < tokens@.len() {
            assert(token_views(tokens@)[pos as int + 1] == tokens@[pos as int + 1]@);
        }
        if pos + 2 < tokens@.len() {
            assert(token_views(tokens@)[pos as int + 2] == tokens@[pos as int + 2]@);
        }
    }
    if pos < tokens.len() && pos + 1 < tokens.len() && pos + 2 < tokens.len() {
        match (&tokens[pos], &tokens[pos + 1], &tokens[pos + 2]) {
            (Token::SetKw, Token::Ident(name), Token::Arrow) => {
                match parse_expr(tokens, pos + 3) {
                    Some((e, p1)) => Some((SetVariable { name: name.clone(), value: e }, p1)),
                    None => None,
                }
            },
            _ => None,
        }
    } else {
        None
    }
}

/// Parse a statement at `pos`: a call when one matches, else a binding.
pub fn parse_stmt(tokens: &Vec<Token>, pos: usize) -> (r: Option<(Stmt, usize)>)
    ensures
        match r {
            Some((s, q)) => spec_parse_stmt(token_views(tokens@), pos as int) == Some(
                (s@, q as int),
            ) && pos < q <= tokens@.len(),
            None => spec_parse_stmt(token_views(tokens@), pos as int) is None,
        },
{
    match parse_function_call(tokens, pos) {
        Some((c, p1)) => Some((Stmt::FunctionCall(c), p1)),
        None => match parse_set_variable(tokens, pos) {
            Some((s, p1)) => Some((Stmt::SetVariable(s), p1)),
            None => None,
        },
    }
}

/// Parse a statement list through the closing brace, discarding semicolons
/// between statements.
fn parse_stmts(tokens: &Vec<Token>, pos: usize) -> (r: Option<(Vec<Stmt>, usize)>)
    ensures
        match r {
            Some((body, q)) => spec_parse_stmts(token_views(tokens@), pos as int) == Some(
                (stmt_views(body@), q as int),
            ) && pos < q <= tokens@.len(),
            None => spec_parse_stmts(token_views(tokens@), pos as int) is None,
        },
    decreases tokens@.len() - pos,
{
    proof {
        if pos < tokens@.len() {
            assert(token_views(tokens@)[pos as int] == tokens@[pos as int]@);
        }
    }
    if pos < tokens.len() && matches!(&tokens[pos], Token::RBrace) {
        let body: Vec<Stmt> = Vec::new();
        proof {
            assert(stmt_views(body@) =~= Seq::<StmtV>::empty());
        }
        Some((body, pos + 1))
    } else if pos < tokens.len() && matches!(&tokens[pos], Token::Semicolon) {
        parse_stmts(tokens, pos + 1)
    } else {
        match parse_stmt(tokens, pos) {
            None => None,
            Some((st, p1)) => match parse_stmts(tokens, p1) {
                None => None,
                Some((mut rest, p2)) => {
                    let ghost old_rest = rest@;
                    let ghost stv = st@;
                    rest.insert(0, st);
                    proof {
                        assert(stmt_views(rest@) =~= seq![stv] + stmt_views(old_rest));
                    }
                    Some((rest, p2))
                },
            },
        }
    }
}

/// Parse one declared argument, `name ':' type`, at `pos`.
fn parse_arg(tokens: &Vec<Token>, pos: usize) -> (r: Option<(Arg, usize)>)
    ensures
        match r {
            Some((a, q)) => spec_parse_arg(token_views(tokens@), pos as int) == Some(
                (a@, q as int),
            ) && pos < q <= tokens@.len(),
            None => spec_parse_arg(token_views(tokens@), pos as int) is None,
        },
{
    proof {
        if pos < tokens@.len() {
            assert(token_views(tokens@)[pos as int] == tokens@[pos as int]@);
        }
        if pos + 1 < tokens@.len() {
            assert(token_views(tokens@)[pos as int + 1] == tokens@[pos as int + 1]@);
        }
        if pos + 2 < tokens@.len() {
            assert(token_views(tokens@)[pos as int + 2] == tokens@[pos as int + 2]@);
        }
    }
    if pos < tokens.len() && pos + 1 < tokens.len() && pos + 2 < tokens.len() {
        match (&tokens[pos], &tokens[pos + 1], &tokens[pos + 2]) {
            (Token::Ident(name), Token::Colon, Token::Ident(ty)) => Some(
                (Arg { name: name.clone(), ty_name: ty.clone() }, pos + 3),
            ),
            _ => None,
        }
    } else {
        None
    }
}

/// Parse the comma-separated tail of a declared argument list, through the
/// closing parenthesis.
fn parse_args_rest(tokens: &Vec<Token>, pos: usize) -> (r: Option<(Vec<Arg>, usize)>)
    ensures
        match r {
            Some((args, q)) => spec_parse_args_rest(token_views(tokens@), pos as int) == Some(
                (arg_views(args@), q as int),
            ) && pos < q <= tokens@.len(),
            None => spec_parse_args_rest(token_views(tokens@), pos as int) is None,
        },
    decreases tokens@.len() - pos,
{
    proof {
        if pos < tokens@.len() {
            assert(token_views(tokens@)[pos as int] == tokens@[pos as int]@);
        }
    }
    if pos < tokens.len() && matches!(&tokens[pos], Token::RParen) {
        let args: Vec<Arg> = Vec::new();
        proof {
            assert(arg_views(args@) =~= Seq::<ArgV>::empty());
        }
        Some((args, pos + 1))
    } else if pos < tokens.len() && matches!(&tokens[pos], Token::Comma) {
        match parse_arg(tokens, pos + 1) {
            None => None,
            Some((a, p1)) => match parse_args_rest(tokens, p1) {
                None => None,
                Some((mut rest, p2)) => {
                    let ghost old_rest = rest@;
                    let ghost av = a@;
                    rest.insert(0, a);
                    proof {
                        assert(arg_views(rest@) =~= seq![av] + arg_views(old_rest));
                    }
                    Some((rest, p2))
                },
            },
        }
    } else {
        None
    }
}

/// Parse a possibly empty declared argument list, through the closing
/// parenthesis.
fn parse_args(tokens: &Vec<Token>, pos: usize) -> (r: Option<(Vec<Arg>, usize)>)
    ensures
        match r {
            Some((args, q)) => spec_parse_args(token_views(tokens@), pos as int) == Some(
                (arg_views(args@), q as int),
            ) && pos < q <= tokens@.len(),
            None => spec_parse_args(token_views(tokens@), pos as int) is None,
        },
{
    proof {
        if pos < tokens@.len() {
            assert(token_views(tokens@)[pos as int] == tokens@[pos as int]@);
        }
    }
    if pos < tokens.len() && matches!(&tokens[pos], Token::RParen) {
        let args: Vec<Arg> = Vec::new();
        proof {
            assert(arg_views(args@) =~= Seq::<ArgV>::empty());
        }
        Some((args, pos + 1))
    } else {
        match parse_arg(tokens, pos) {
            None => None,
            Some((a, p1)) => match parse_args_rest(tokens, p1) {
                None => None,
                Some((mut rest, p2)) => {
                    let ghost old_rest = rest@;
                    let ghost av = a@;
                    rest.insert(0, a);
                    proof {
                        assert(arg_views(rest@) =~= seq![av] + arg_views(old_rest));
                    }
                    Some((rest, p2))
                },
            },
        }
    }
}

/// Parse one function definition at `pos`.
pub fn parse_function(tokens: &Vec<Token>, pos: usize) -> (r: Option<(Function, usize)>)
    ensures
        match r {
            Some((f, q)) => spec_parse_function(token_views(tokens@), pos as int) == Some(
                (f@, q as int),
            ) && pos < q <= tokens@.len(),
            None => spec_parse_function(token_views(tokens@), pos as int) is None,
        },
{
    proof {
        if pos < tokens@.len() {
            assert(token_views(tokens@)[pos as int] == tokens@[pos as int]@);
        }
        if pos + 1 < tokens@.len() {
            assert(token_views(tokens@)[pos as int + 1] == tokens@[pos as int + 1]@);
        }
        if pos + 2 < tokens@.len() {
            assert(token_views(tokens@)[pos as int + 2] == tokens@[pos as int + 2]@);
        }
    }
    if pos < tokens.len() && pos + 1 < tokens.len() && pos + 2 < tokens.len() {
        match (&tokens[pos], &tokens[pos + 1], &tokens[pos + 2]) {
            (Token::Fn, Token::Ident(name), Token::LParen) => {
                match parse_args(tokens, pos + 3) {
                    None => None,
                    Some((args, p1)) => {
                        proof {
                            if p1 < tokens@.len() {
                                assert(token_views(tokens@)[p1 as int] == tokens@[p1 as int]@);
                            }
                        }
                        if p1 < tokens.len() && matches!(&tokens[p1], Token::LBrace) {
                            match parse_stmts(tokens, p1 + 1) {
                                Some((body, p2)) => Some(
                                    (Function { name: name.clone(), args, body }, p2),
                                ),
                                None => None,
                            }
                        } else {
                            None
                        }
                    },
                }
            },
            _ => None,
        }
    } else {
        None
    }
}

/// Parse functions greedily from `pos`, also yielding the position where no
/// further function matched.
fn parse_functions(tokens: &Vec<Token>, pos: usize) -> (r: (Vec<Function>, usize))
    requires
        pos <= tokens@.len(),
    ensures
        ({
            let (fs, q) = spec_parse_functions(token_views(tokens@), pos as int);
            fs == function_views(r.0@) && q == r.1 as int && pos <= r.1 <= tokens@.len()
        }),
    decreases tokens@.len() - pos,
{
    match parse_function(tokens, pos) {
        None => {
            let fs: Vec<Function> = Vec::new();
            proof {
                assert(function_views(fs@) =~= Seq::<FunctionV>::empty());
            }
            (fs, pos)
        },
        Some((f, p1)) => {
            let (mut rest, p2) = parse_functions(tokens, p1);
            let ghost old_rest = rest@;
            let ghost fv = f@;
            rest.insert(0, f);
            proof {
                assert(function_views(rest@) =~= seq![fv] + function_views(old_rest));
            }
            (rest, p2)
        },
    }
}

/// True when some function in the list is named "main".
pub fn module_has_main(functions: &Vec<Function>) -> (b: bool)
    ensures
        b == has_main(function_views(functions@)),
{
    let ghost fvs = function_views(functions@);
    let main_name: String = String::from_str("main");
    let mut k: usize = 0;
    while k < functions.len()
        invariant
            k <= functions@.len(),
            fvs == function_views(functions@),
            main_name@ == "main"@,
            forall|j: int| 0 <= j < k ==> fvs[j].name != "main"@,
        decreases functions@.len() - k,
    {
        proof {
            assert(fvs[k as int] == functions@[k as int]@);
        }
        if functions[k].name == main_name {
            return true;
        }
        k += 1;
    }
    false
}

/// Parse a whole module: every token must belong to some function, and the
/// module is classified `Bin` iff some function is named "main".
pub fn parse_module(tokens: &Vec<Token>) -> (r: Result<Module, ParseError>)
    ensures
        match r {
            Ok(m) => spec_parse_module(token_views(tokens@)) == Ok::<ModuleV, ParseError>(m@),
            Err(e) => spec_parse_module(token_views(tokens@)) == Err::<ModuleV, ParseError>(e),
        },
{
    let (functions, p) = parse_functions(tokens, 0);
    if p == tokens.len() {
        let module_type = if module_has_main(&functions) {
            ModuleType::Bin
        } else {
            ModuleType::Lib
        };
        Ok(Module { functions, module_type })
    } else {
        Err(ParseError { construct: Construct::Function, pos: p })
    }
}

/// Parse a token sequence into a module.
pub fn parse(tokens: Vec<Token>) -> (r: Result<Module, ParseError>)
    ensures
        match r {
            Ok(m) => spec_parse_module(token_views(tokens@)) == Ok::<ModuleV, ParseError>(m@),
            Err(e) => spec_parse_module(token_views(tokens@)) == Err::<ModuleV, ParseError>(e),
        },
{
    parse_module(&tokens)
}


/// A parsed module is classified `Lib` exactly when no function in it is
/// named "main", and `Bin` exactly when one is.
pub proof fn lemma_classification(t: Seq<TokenV>)
    ensures
        spec_parse_module(t) matches Ok(m) ==> (m.module_type == ModuleType::Lib <==> !has_main(
            m.functions,
        )),
        spec_parse_module(t) matches Ok(m) ==> (m.module_type == ModuleType::Bin <==> has_main(
            m.functions,
        )),
{
}

} // verus!
