//! The Cordial parser: a recursive-descent parser from the token list of
//! `lexer::tokenize` to statements and expressions.
//!
//! The grammar is stated by the spec functions `p_*` over token values and
//! positions; each executable `parse_*` function returns exactly what its
//! spec function gives. A successful parse always takes at least one token
//! and ends inside the list.
use vstd::prelude::*;
use crate::cells::{cell_address, parse_cell_address, CellRefTarget, FormulaRef};
use crate::lexer::{clone_opt, kind_of, lex, tokens_of, opt_view, token_kind, token_view, tokens_view, Kind, SpicePrefix, Token, TokenModel};
use crate::text::{lowercase, str_equal, to_lowercase_string};

verus! {

// ---------------------------------------------------------------------------
// Syntax trees
// ---------------------------------------------------------------------------

/// An operator.
#[derive(Debug, Clone, Copy, PartialEq, Eq, Structural)]
pub enum Op {
    Add,
    Sub,
    Mul,
    Div,
    Mod,
    Pow,
    Eq,
    Neq,
    Lt,
    Gt,
    Lte,
    Gte,
    And,
    Or,
    Not,
    Neg,
    /// `~expr`: the value without its declared type.
    Strip,
}

/// An expression.
#[derive(Debug)]
pub enum Expr {
    /// A number literal: its text, its exponent and, for a SPICE literal,
    /// the prefix that scales it.
    Num { text: String, exp: Option<String>, prefix: Option<SpicePrefix> },
    Str(String),
    Bool(bool),
    Ident(String),
    BinOp(Op, Box<Expr>, Box<Expr>),
    UnaryOp(Op, Box<Expr>),
    Call(String, Vec<Expr>),
    Array(Vec<Expr>),
    Index(Box<Expr>, Box<Expr>),
    Range(Box<Expr>, Box<Expr>),
    /// `expr is type_name`.
    IsCheck(Box<Expr>, String),
    /// `@[block::]table[:cell[:cell] | [cell:cell]]`, or a bare `A1:B4`
    /// (no block, no table).
    CellRef { block: Option<String>, table: Option<String>, target: CellRefTarget },
    /// `solve!(var, source_fn)` or `solve!(var from source_fn)`.
    SolveMacro { var: String, source_fn: String },
}

/// A statement.
#[derive(Debug)]
pub enum Stmt {
    Let(String, Option<String>, Expr),
    Assign(String, Expr),
    While(Expr, Vec<Stmt>),
    IfElse(Expr, Vec<Stmt>, Option<Vec<Stmt>>),
    ForLoop(String, Expr, Vec<Stmt>),
    /// `fn name(p [: T], …) [-> R] { body }`.
    FnDef { name: String, params: Vec<(String, Option<String>)>, return_type: Option<String>, body: Vec<Stmt> },
    Return(Expr),
    /// `use module` or `use module::item`.
    Use(String, Option<String>),
    /// `@[block::]table:A1 = expr`.
    CellAssign { block: Option<String>, table: String, cell: (u32, u32), value: Expr },
    /// `let name(params) = target where source_fn(args) = result`.
    SolveDef {
        name: String,
        params: Vec<String>,
        target_var: String,
        source_fn: String,
        source_args: Vec<String>,
        result_var: String,
    },
    ExprStmt(Expr),
}

/// An expression as a value.
pub enum ExprModel {
    Num(Seq<char>, Option<Seq<char>>, Option<SpicePrefix>),
    Str(Seq<char>),
    Bool(bool),
    Ident(Seq<char>),
    BinOp(Op, Box<ExprModel>, Box<ExprModel>),
    UnaryOp(Op, Box<ExprModel>),
    Call(Seq<char>, Seq<ExprModel>),
    Array(Seq<ExprModel>),
    Index(Box<ExprModel>, Box<ExprModel>),
    Range(Box<ExprModel>, Box<ExprModel>),
    IsCheck(Box<ExprModel>, Seq<char>),
    CellRef(Option<Seq<char>>, Option<Seq<char>>, CellRefTarget),
    SolveMacro(Seq<char>, Seq<char>),
}

/// A statement as a value.
pub enum StmtModel {
    Let(Seq<char>, Option<Seq<char>>, ExprModel),
    Assign(Seq<char>, ExprModel),
    While(ExprModel, Seq<StmtModel>),
    IfElse(ExprModel, Seq<StmtModel>, Option<Seq<StmtModel>>),
    ForLoop(Seq<char>, ExprModel, Seq<StmtModel>),
    FnDef(Seq<char>, Seq<(Seq<char>, Option<Seq<char>>)>, Option<Seq<char>>, Seq<StmtModel>),
    Return(ExprModel),
    Use(Seq<char>, Option<Seq<char>>),
    CellAssign(Option<Seq<char>>, Seq<char>, (u32, u32), ExprModel),
    SolveDef(Seq<char>, Seq<Seq<char>>, Seq<char>, Seq<char>, Seq<Seq<char>>, Seq<char>),
    ExprStmt(ExprModel),
}

/// The value of an expression.
pub open spec fn expr_view(e: Expr) -> ExprModel
    decreases e,
{
    match e {
        Expr::Num { text, exp, prefix } => ExprModel::Num(text@, opt_view(exp), prefix),
        Expr::Str(s) => ExprModel::Str(s@),
        Expr::Bool(b) => ExprModel::Bool(b),
        Expr::Ident(s) => ExprModel::Ident(s@),
        Expr::BinOp(op, l, r) => ExprModel::BinOp(op, Box::new(expr_view(*l)), Box::new(expr_view(*r))),
        Expr::UnaryOp(op, x) => ExprModel::UnaryOp(op, Box::new(expr_view(*x))),
        Expr::Call(name, args) => ExprModel::Call(name@, exprs_view(args@)),
        Expr::Array(items) => ExprModel::Array(exprs_view(items@)),
        Expr::Index(x, i) => ExprModel::Index(Box::new(expr_view(*x)), Box::new(expr_view(*i))),
        Expr::Range(a, b) => ExprModel::Range(Box::new(expr_view(*a)), Box::new(expr_view(*b))),
        Expr::IsCheck(x, ty) => ExprModel::IsCheck(Box::new(expr_view(*x)), ty@),
        Expr::CellRef { block, table, target } => ExprModel::CellRef(opt_view(block), opt_view(table), target),
        Expr::SolveMacro { var, source_fn } => ExprModel::SolveMacro(var@, source_fn@),
    }
}

/// The values of a list of expressions.
pub open spec fn exprs_view(s: Seq<Expr>) -> Seq<ExprModel>
    decreases s,
{
    if s.len() == 0 {
        seq![]
    } else {
        exprs_view(s.subrange(0, s.len() - 1)).push(expr_view(s[s.len() - 1]))
    }
}

/// The values of a list of statements.
pub open spec fn stmts_view(s: Seq<Stmt>) -> Seq<StmtModel>
    decreases s,
{
    if s.len() == 0 {
        seq![]
    } else {
        stmts_view(s.subrange(0, s.len() - 1)).push(stmt_view(s[s.len() - 1]))
    }
}

/// The characters of each string.
pub open spec fn names_view(s: Seq<String>) -> Seq<Seq<char>> {
    s.map_values(|x: String| x@)
}

/// A parameter as a value: its name and type annotation.
pub open spec fn param_view(p: (String, Option<String>)) -> (Seq<char>, Option<Seq<char>>) {
    (p.0@, opt_view(p.1))
}

/// The values of a parameter list.
pub open spec fn params_view(s: Seq<(String, Option<String>)>) -> Seq<(Seq<char>, Option<Seq<char>>)> {
    s.map_values(|x: (String, Option<String>)| param_view(x))
}

/// The value of a statement.
pub open spec fn stmt_view(st: Stmt) -> StmtModel
    decreases st,
{
    match st {
        Stmt::Let(name, ty, e) => StmtModel::Let(name@, opt_view(ty), expr_view(e)),
        Stmt::Assign(name, e) => StmtModel::Assign(name@, expr_view(e)),
        Stmt::While(c, body) => StmtModel::While(expr_view(c), stmts_view(body@)),
        Stmt::IfElse(c, th, el) => StmtModel::IfElse(
            expr_view(c),
            stmts_view(th@),
            match el {
                Some(b) => Some(stmts_view(b@)),
                None => None,
            },
        ),
        Stmt::ForLoop(v, it, body) => StmtModel::ForLoop(v@, expr_view(it), stmts_view(body@)),
        Stmt::FnDef { name, params, return_type, body } => StmtModel::FnDef(
            name@,
            params_view(params@),
            opt_view(return_type),
            stmts_view(body@),
        ),
        Stmt::Return(e) => StmtModel::Return(expr_view(e)),
        Stmt::Use(m, item) => StmtModel::Use(m@, opt_view(item)),
        Stmt::CellAssign { block, table, cell, value } => StmtModel::CellAssign(
            opt_view(block),
            table@,
            cell,
            expr_view(value),
        ),
        Stmt::SolveDef { name, params, target_var, source_fn, source_args, result_var } =>
            StmtModel::SolveDef(
            name@,
            names_view(params@),
            target_var@,
            source_fn@,
            names_view(source_args@),
            result_var@,
        ),
        Stmt::ExprStmt(e) => StmtModel::ExprStmt(expr_view(e)),
    }
}

// ---------------------------------------------------------------------------
// Errors
// ---------------------------------------------------------------------------

/// What the parser looked for where a name or address had to stand.
#[derive(Debug, Clone, Copy, PartialEq, Eq, Structural)]
pub enum Wanted {
    /// "identifier after 'let'"
    IdentAfterLet,
    /// "type name after ':'"
    TypeNameAfterColon,
    /// "parameter name"
    ParamName,
    /// "source function name after 'where'"
    SourceAfterWhere,
    /// "argument name"
    ArgName,
    /// "result variable after '='"
    ResultAfterEq,
    /// "loop variable"
    LoopVar,
    /// "module name after 'use'"
    ModuleAfterUse,
    /// "item name after '::'"
    ItemAfterColons,
    /// "identifier after '@'"
    IdentAfterAt,
    /// "table name after '::'"
    TableAfterColons,
    /// "'solve'"
    Solve,
    /// "target variable after 'solve!('"
    TargetAfterSolve,
    /// "',' or 'from' in solve!(...)"
    CommaOrFrom,
    /// "source function name in solve!(...)"
    SourceInSolve,
    /// "cell address"
    CellAddress,
    /// "function name"
    FnName,
    /// "return type after '->'"
    ReturnType,
    /// "type after ':'"
    ParamType,
    /// "type name after 'is'"
    TypeAfterIs,
}

/// A parse error.
#[derive(Debug)]
pub enum ParseError {
    /// A token of kind `expected` had to come next; `got` came.
    Expected { expected: Kind, got: Token },
    /// A name or address had to come next; `got` came.
    Missing { wanted: Wanted, got: Token },
    /// A `where` clause after something other than a single variable.
    TargetBeforeWhere,
    /// An identifier that is no cell address where one had to stand.
    InvalidCellAddress(String),
    /// A token that cannot start an expression.
    Unexpected(Token),
    /// `@Table = …`.
    AssignWholeTable,
    /// `@Table:A1:B2 = …`.
    AssignRange,
    /// A cell assignment of another shape.
    CellAssignForm,
}

/// A parse error as a value. `Stalled` is what a grammar rule gives if a
/// sub-parse took no token; no parse takes that branch.
pub enum ErrModel {
    Expected(Kind, TokenModel),
    Missing(Wanted, TokenModel),
    TargetBeforeWhere,
    InvalidCellAddress(Seq<char>),
    Unexpected(TokenModel),
    AssignWholeTable,
    AssignRange,
    CellAssignForm,
    Stalled,
}

/// The value of a parse error.
#[verifier::opaque]
pub open spec fn err_view(e: ParseError) -> ErrModel {
    match e {
        ParseError::Expected { expected, got } => ErrModel::Expected(expected, token_view(got)),
        ParseError::Missing { wanted, got } => ErrModel::Missing(wanted, token_view(got)),
        ParseError::TargetBeforeWhere => ErrModel::TargetBeforeWhere,
        ParseError::InvalidCellAddress(s) => ErrModel::InvalidCellAddress(s@),
        ParseError::Unexpected(t) => ErrModel::Unexpected(token_view(t)),
        ParseError::AssignWholeTable => ErrModel::AssignWholeTable,
        ParseError::AssignRange => ErrModel::AssignRange,
        ParseError::CellAssignForm => ErrModel::CellAssignForm,
    }
}

/// A parse result as a value.
pub open spec fn expr_res(r: Result<(Expr, usize), ParseError>) -> Result<(ExprModel, int), ErrModel> {
    match r {
        Ok((e, q)) => Ok((expr_view(e), q as int)),
        Err(x) => Err(err_view(x)),
    }
}

/// A list parse result as a value.
pub open spec fn exprs_res(r: Result<(Vec<Expr>, usize), ParseError>) -> Result<(Seq<ExprModel>, int), ErrModel> {
    match r {
        Ok((e, q)) => Ok((exprs_view(e@), q as int)),
        Err(x) => Err(err_view(x)),
    }
}

/// A position result as a value.
pub open spec fn pos_res(r: Result<usize, ParseError>) -> Result<int, ErrModel> {
    match r {
        Ok(q) => Ok(q as int),
        Err(x) => Err(err_view(x)),
    }
}

/// A successful parse from `p` ended at `q`, after `p` and inside the list.
pub open spec fn moved(n: int, p: int, q: int) -> bool {
    p < q <= n
}

/// An expression result that, when it succeeds, ended past `p`.
pub open spec fn ok_moved(r: Result<(Expr, usize), ParseError>, n: int, p: int) -> bool {
    match r {
        Ok((_, q)) => moved(n, p, q as int),
        Err(_) => true,
    }
}

// ---------------------------------------------------------------------------
// Tokens by position
// ---------------------------------------------------------------------------

/// The values of a token list; kept opaque so that proofs about positions
/// do not unfold every token.
#[verifier::opaque]
pub open spec fn token_values(toks: Seq<Token>) -> Seq<TokenModel> {
    tokens_view(toks)
}

/// There are as many token values as tokens.
proof fn lemma_token_values_len(toks: Seq<Token>)
    ensures
        token_values(toks).len() == toks.len(),
{
    reveal(token_values);
}


/// The token at `p`; past the end, `Eof`.
pub open spec fn tok(t: Seq<TokenModel>, p: int) -> TokenModel {
    if 0 <= p < t.len() {
        t[p]
    } else {
        TokenModel::Eof
    }
}

/// The kind of the token at `p`.
pub open spec fn kind_at(t: Seq<TokenModel>, p: int) -> Kind {
    if 0 <= p < t.len() {
        kind_of(t[p])
    } else {
        Kind::Eof
    }
}

/// The position after the token at `p`; past the end it stays.
pub open spec fn adv(t: Seq<TokenModel>, p: int) -> int {
    if 0 <= p < t.len() {
        p + 1
    } else {
        p
    }
}

/// Takes a token of kind `k`.
pub open spec fn expect(t: Seq<TokenModel>, p: int, k: Kind) -> Result<int, ErrModel> {
    if kind_at(t, p) == k {
        Ok(adv(t, p))
    } else {
        Err(ErrModel::Expected(k, tok(t, p)))
    }
}

fn kind_at_exec(toks: &[Token], p: usize) -> (k: Kind)
    ensures
        k == kind_at(token_values(toks@), p as int),
        k != Kind::Eof ==> p < toks@.len(),
        toks@.len() <= usize::MAX,
{
    proof {
        lemma_token_values_len(toks@);
    }
    reveal(token_values);
    reveal(kind_of);
    if p < toks.len() {
        token_kind(&toks[p])
    } else {
        Kind::Eof
    }
}

fn tok_clone(toks: &[Token], p: usize) -> (r: Token)
    ensures
        token_view(r) == tok(token_values(toks@), p as int),
{
    proof {
        lemma_token_values_len(toks@);
    }
    reveal(token_values);
    if p < toks.len() {
        toks[p].clone()
    } else {
        Token::Eof
    }
}

fn expect_exec(toks: &[Token], p: usize, k: Kind) -> (r: Result<usize, ParseError>)
    requires
        p <= toks@.len(),
    ensures
        pos_res(r) == expect(token_values(toks@), p as int, k),
        r matches Ok(q) ==> q <= toks@.len() && (q == p + 1 || (q == p && p == toks@.len())),
{
    proof {
        lemma_token_values_len(toks@);
    }
    reveal(err_view);
    if kind_at_exec(toks, p) == k {
        Ok(if p < toks.len() { p + 1 } else { p })
    } else {
        Err(ParseError::Expected { expected: k, got: tok_clone(toks, p) })
    }
}

/// The name of the identifier at `p`.
fn ident_at(toks: &[Token], p: usize) -> (r: Option<String>)
    ensures
        r is Some ==> p < toks@.len(),
        toks@.len() <= usize::MAX,
        match tok(token_values(toks@), p as int) {
            TokenModel::Ident(s) => r matches Some(x) && x@ == s,
            _ => r is None,
        },
{
    proof {
        lemma_token_values_len(toks@);
    }
    reveal(token_values);
    if p < toks.len() {
        match &toks[p] {
            Token::Ident(s) => Some(s.clone()),
            _ => None,
        }
    } else {
        None
    }
}

/// `expr_view` one level down.
proof fn lemma_expr_view(e: Expr)
    ensures
        expr_view(e) == match e {
            Expr::Num { text, exp, prefix } => ExprModel::Num(text@, opt_view(exp), prefix),
            Expr::Str(s) => ExprModel::Str(s@),
            Expr::Bool(b) => ExprModel::Bool(b),
            Expr::Ident(s) => ExprModel::Ident(s@),
            Expr::BinOp(op, l, r) => ExprModel::BinOp(op, Box::new(expr_view(*l)), Box::new(expr_view(*r))),
            Expr::UnaryOp(op, x) => ExprModel::UnaryOp(op, Box::new(expr_view(*x))),
            Expr::Call(name, args) => ExprModel::Call(name@, exprs_view(args@)),
            Expr::Array(items) => ExprModel::Array(exprs_view(items@)),
            Expr::Index(x, i) => ExprModel::Index(Box::new(expr_view(*x)), Box::new(expr_view(*i))),
            Expr::Range(a, b) => ExprModel::Range(Box::new(expr_view(*a)), Box::new(expr_view(*b))),
            Expr::IsCheck(x, ty) => ExprModel::IsCheck(Box::new(expr_view(*x)), ty@),
            Expr::CellRef { block, table, target } => ExprModel::CellRef(opt_view(block), opt_view(table), target),
            Expr::SolveMacro { var, source_fn } => ExprModel::SolveMacro(var@, source_fn@),
        },
{
}

/// The value of the token at `i`.
proof fn lemma_token_value_at(toks: Seq<Token>, i: int)
    requires
        0 <= i < toks.len(),
    ensures
        token_values(toks)[i] == token_view(toks[i]),
{
    reveal(token_values);
}

/// The value of an unexpected-token error.
proof fn lemma_err_unexpected(tk: Token)
    ensures
        err_view(ParseError::Unexpected(tk)) == ErrModel::Unexpected(token_view(tk)),
{
    reveal(err_view);
}

proof fn lemma_token_variant(tk: Token)
    ensures
        token_view(tk) is Number <==> tk is Number,
        token_view(tk) is Spice <==> tk is Spice,
        token_view(tk) is Str <==> tk is Str,
        token_view(tk) is Bool <==> tk is Bool,
        token_view(tk) is Ident <==> tk is Ident,
        token_view(tk) is At <==> tk is At,
        token_view(tk) is LParen <==> tk is LParen,
        token_view(tk) is LBracket <==> tk is LBracket,
{
}

proof fn lemma_view_ident(e: Expr)
    ensures
        expr_view(e) is Ident <==> e is Ident,
{
}

proof fn lemma_exprs_view_push(s: Seq<Expr>, e: Expr)
    ensures
        exprs_view(s.push(e)) == exprs_view(s).push(expr_view(e)),
{
    assert(s.push(e).subrange(0, s.len() as int) =~= s);
}

proof fn lemma_stmts_view_push(s: Seq<Stmt>, e: Stmt)
    ensures
        stmts_view(s.push(e)) == stmts_view(s).push(stmt_view(e)),
{
    assert(s.push(e).subrange(0, s.len() as int) =~= s);
}

// ---------------------------------------------------------------------------
// The expression grammar
// ---------------------------------------------------------------------------

/// Result of parsing an expression: the expression and the position after it.
pub type ExprResult = Result<(ExprModel, int), ErrModel>;

/// A cell address token: an identifier naming a cell.
#[verifier::opaque]
pub open spec fn cell_addr(t: Seq<TokenModel>, p: int) -> Result<((u32, u32), int), ErrModel> {
    match tok(t, p) {
        TokenModel::Ident(n) => match cell_address(n) {
            Some(a) => Ok((a, p + 1)),
            None => Err(ErrModel::InvalidCellAddress(n)),
        },
        other => Err(ErrModel::Missing(Wanted::CellAddress, other)),
    }
}

/// What a cell reference points at, from `p`: `:A1`, `:A1:B2`, `[A1:B2]`,
/// or (nothing of these) the whole table.
#[verifier::opaque]
pub open spec fn cell_target(t: Seq<TokenModel>, p: int) -> Result<(CellRefTarget, int), ErrModel> {
    if kind_at(t, p) == Kind::Colon {
        match cell_addr(t, p + 1) {
            Err(e) => Err(e),
            Ok((a, q)) => if kind_at(t, q) == Kind::Colon {
                match cell_addr(t, q + 1) {
                    Err(e) => Err(e),
                    Ok((b, q2)) => Ok((CellRefTarget::Range(a.0, a.1, b.0, b.1), q2)),
                }
            } else {
                Ok((CellRefTarget::Cell(a.0, a.1), q))
            },
        }
    } else if kind_at(t, p) == Kind::LBracket {
        match cell_addr(t, p + 1) {
            Err(e) => Err(e),
            Ok((a, q)) => match expect(t, q, Kind::Colon) {
                Err(e) => Err(e),
                Ok(q1) => match cell_addr(t, q1) {
                    Err(e) => Err(e),
                    Ok((b, q2)) => match expect(t, q2, Kind::RBracket) {
                        Err(e) => Err(e),
                        Ok(q3) => Ok((CellRefTarget::Range(a.0, a.1, b.0, b.1), q3)),
                    },
                },
            },
        }
    } else {
        Ok((CellRefTarget::Whole, p))
    }
}

/// `@[block::]table[target]`, names lower-cased.
#[verifier::opaque]
pub open spec fn cell_ref(t: Seq<TokenModel>, p: int) -> ExprResult {
    match expect(t, p, Kind::At) {
        Err(e) => Err(e),
        Ok(p1) => match tok(t, p1) {
            TokenModel::Ident(first) => {
                let named: Result<(Option<Seq<char>>, Seq<char>, int), ErrModel> = if kind_at(t, p1 + 1)
                    == Kind::ColonColon {
                    match tok(t, p1 + 2) {
                        TokenModel::Ident(tn) => Ok((Some(lowercase(first)), lowercase(tn), p1 + 3)),
                        other => Err(ErrModel::Missing(Wanted::TableAfterColons, other)),
                    }
                } else {
                    Ok((None, lowercase(first), p1 + 1))
                };
                match named {
                    Err(e) => Err(e),
                    Ok((block, table, q)) => match cell_target(t, q) {
                        Err(e) => Err(e),
                        Ok((target, q2)) => Ok((ExprModel::CellRef(block, Some(table), target), q2)),
                    },
                }
            },
            other => Err(ErrModel::Missing(Wanted::IdentAfterAt, other)),
        },
    }
}

/// `solve!(var, source)` or `solve!(var from source)`.
#[verifier::opaque]
pub open spec fn solve_macro(t: Seq<TokenModel>, p: int) -> ExprResult {
    let head: Result<int, ErrModel> = match tok(t, p) {
        TokenModel::Ident(n) => if n == "solve"@ {
            Ok(p + 1)
        } else {
            Err(ErrModel::Missing(Wanted::Solve, TokenModel::Ident(n)))
        },
        other => Err(ErrModel::Missing(Wanted::Solve, other)),
    };
    match head {
        Err(e) => Err(e),
        Ok(p1) => match expect(t, p1, Kind::Bang) {
            Err(e) => Err(e),
            Ok(p2) => match expect(t, p2, Kind::LParen) {
                Err(e) => Err(e),
                Ok(p3) => match tok(t, p3) {
                    TokenModel::Ident(var) => {
                        let sep = tok(t, p3 + 1);
                        if kind_of(sep) == Kind::Comma || sep == TokenModel::Ident("from"@) {
                            match tok(t, p3 + 2) {
                                TokenModel::Ident(src) => match expect(t, p3 + 3, Kind::RParen) {
                                    Err(e) => Err(e),
                                    Ok(q) => Ok((ExprModel::SolveMacro(var, src), q)),
                                },
                                other => Err(ErrModel::Missing(Wanted::SourceInSolve, other)),
                            }
                        } else {
                            Err(ErrModel::Missing(Wanted::CommaOrFrom, sep))
                        }
                    },
                    other => Err(ErrModel::Missing(Wanted::TargetAfterSolve, other)),
                },
            },
        },
    }
}

/// `expr := or ('..' or)?`, or a bare cell range `A1:B4`.
pub open spec fn p_expr(t: Seq<TokenModel>, p: int) -> ExprResult
    decreases t.len() - p, 12int,
{
    match p_or(t, p) {
        Err(e) => Err(e),
        Ok((l, q)) => if !moved(t.len() as int, p, q) {
            Err(ErrModel::Stalled)
        } else if kind_at(t, q) == Kind::DotDot {
            match p_or(t, q + 1) {
                Err(e) => Err(e),
                Ok((r, q2)) => Ok((ExprModel::Range(Box::new(l), Box::new(r)), q2)),
            }
        } else {
            Ok(bare_range(t, l, q))
        },
    }
}

/// `A1:B4` after a plain identifier naming a cell: a range in the current
/// table; otherwise the expression as it is.
#[verifier::opaque]
pub open spec fn bare_range(t: Seq<TokenModel>, l: ExprModel, q: int) -> (ExprModel, int) {
    match l {
        ExprModel::Ident(start) => match (cell_address(start), tok(t, q + 1)) {
            (Some(a), TokenModel::Ident(end)) => if kind_at(t, q) == Kind::Colon && cell_address(
                end,
            ) is Some {
                let b = cell_address(end).unwrap();
                (ExprModel::CellRef(None, None, CellRefTarget::Range(a.0, a.1, b.0, b.1)), q + 2)
            } else {
                (l, q)
            },
            _ => (l, q),
        },
        _ => (l, q),
    }
}

/// `or := and ('||' and)*`.
pub open spec fn p_or(t: Seq<TokenModel>, p: int) -> ExprResult
    decreases t.len() - p, 11int,
{
    match p_and(t, p) {
        Err(e) => Err(e),
        Ok((l, q)) => if !moved(t.len() as int, p, q) {
            Err(ErrModel::Stalled)
        } else {
            or_tail(t, l, q)
        },
    }
}

/// The `('||' and)*` after `l`, which ends at `p`.
pub open spec fn or_tail(t: Seq<TokenModel>, l: ExprModel, p: int) -> ExprResult
    decreases t.len() - p, 0int,
{
    if kind_at(t, p) == Kind::Or {
        match p_and(t, p + 1) {
            Err(e) => Err(e),
            Ok((r, q)) => if !moved(t.len() as int, p + 1, q) {
                Err(ErrModel::Stalled)
            } else {
                or_tail(t, ExprModel::BinOp(Op::Or, Box::new(l), Box::new(r)), q)
            },
        }
    } else {
        Ok((l, p))
    }
}

/// `and := comparison ('&&' comparison)*`.
pub open spec fn p_and(t: Seq<TokenModel>, p: int) -> ExprResult
    decreases t.len() - p, 10int,
{
    match p_comparison(t, p) {
        Err(e) => Err(e),
        Ok((l, q)) => if !moved(t.len() as int, p, q) {
            Err(ErrModel::Stalled)
        } else {
            and_tail(t, l, q)
        },
    }
}

/// The `('&&' comparison)*` after `l`, which ends at `p`.
pub open spec fn and_tail(t: Seq<TokenModel>, l: ExprModel, p: int) -> ExprResult
    decreases t.len() - p, 0int,
{
    if kind_at(t, p) == Kind::And {
        match p_comparison(t, p + 1) {
            Err(e) => Err(e),
            Ok((r, q)) => if !moved(t.len() as int, p + 1, q) {
                Err(ErrModel::Stalled)
            } else {
                and_tail(t, ExprModel::BinOp(Op::And, Box::new(l), Box::new(r)), q)
            },
        }
    } else {
        Ok((l, p))
    }
}

/// The comparison operator of a token kind.
pub open spec fn comparison_op(k: Kind) -> Option<Op> {
    match k {
        Kind::EqEq => Some(Op::Eq),
        Kind::BangEq => Some(Op::Neq),
        Kind::Lt => Some(Op::Lt),
        Kind::Gt => Some(Op::Gt),
        Kind::LtEq => Some(Op::Lte),
        Kind::GtEq => Some(Op::Gte),
        _ => None,
    }
}

/// `comparison := additive (('==' | '!=' | '<' | '>' | '<=' | '>=') additive | 'is' type)*`.
pub open spec fn p_comparison(t: Seq<TokenModel>, p: int) -> ExprResult
    decreases t.len() - p, 9int,
{
    match p_add(t, p) {
        Err(e) => Err(e),
        Ok((l, q)) => if !moved(t.len() as int, p, q) {
            Err(ErrModel::Stalled)
        } else {
            comparison_tail(t, l, q)
        },
    }
}

/// The comparisons and `is` checks after `l`, which ends at `p`.
pub open spec fn comparison_tail(t: Seq<TokenModel>, l: ExprModel, p: int) -> ExprResult
    decreases t.len() - p, 0int,
{
    if kind_at(t, p) == Kind::Is {
        match tok(t, p + 1) {
            TokenModel::Ident(ty) => comparison_tail(t, ExprModel::IsCheck(Box::new(l), ty), p + 2),
            other => Err(ErrModel::Missing(Wanted::TypeAfterIs, other)),
        }
    } else if comparison_op(kind_at(t, p)) is Some {
        match p_add(t, p + 1) {
            Err(e) => Err(e),
            Ok((r, q)) => if !moved(t.len() as int, p + 1, q) {
                Err(ErrModel::Stalled)
            } else {
                comparison_tail(
                    t,
                    ExprModel::BinOp(comparison_op(kind_at(t, p)).unwrap(), Box::new(l), Box::new(r)),
                    q,
                )
            },
        }
    } else {
        Ok((l, p))
    }
}

/// How a comparison operator is written in Cordial source.
pub open spec fn comparison_spelling(op: Op) -> Option<Seq<char>> {
    match op {
        Op::Eq => Some("=="@),
        Op::Neq => Some("!="@),
        Op::Lt => Some("<"@),
        Op::Gt => Some(">"@),
        Op::Lte => Some("<="@),
        Op::Gte => Some(">="@),
        _ => None,
    }
}

/// Every comparison operator, written out in source, lexes to one token
/// (then the end) that the parser reads back as that same operator.
pub proof fn lemma_comparison_spelling_roundtrip(op: Op, spice: bool)
    requires
        comparison_spelling(op) is Some,
    ensures
        tokens_of(comparison_spelling(op)->0, spice) matches Ok(ts) && ts.len() == 2
            && comparison_op(kind_of(ts[0])) == Some(op),
{
    reveal(kind_of);
    reveal_with_fuel(lex, 3);
    reveal_strlit("==");
    reveal_strlit("!=");
    reveal_strlit("<");
    reveal_strlit(">");
    reveal_strlit("<=");
    reveal_strlit(">=");
    let w = comparison_spelling(op)->0;
    assert(w.len() >= 1);
    crate::lexer::lemma_step_advances(w, 0, true, spice);
}

/// How an arithmetic operator is written in Cordial source.
pub open spec fn arithmetic_spelling(op: Op) -> Option<Seq<char>> {
    match op {
        Op::Add => Some("+"@),
        Op::Sub => Some("-"@),
        Op::Mul => Some("*"@),
        Op::Div => Some("/"@),
        Op::Mod => Some("%"@),
        _ => None,
    }
}

/// Every arithmetic operator, written out in source, lexes to one token
/// (then the end) that the parser reads back as that same operator, at the
/// additive or at the multiplicative level.
pub proof fn lemma_arithmetic_spelling_roundtrip(op: Op, spice: bool)
    requires
        arithmetic_spelling(op) is Some,
    ensures
        tokens_of(arithmetic_spelling(op)->0, spice) matches Ok(ts) && ts.len() == 2 && (
        add_op(kind_of(ts[0])) == Some(op) || mul_op(kind_of(ts[0])) == Some(op)),
{
    reveal(kind_of);
    reveal_with_fuel(lex, 3);
    reveal_strlit("+");
    reveal_strlit("-");
    reveal_strlit("*");
    reveal_strlit("/");
    reveal_strlit("%");
    let w = arithmetic_spelling(op)->0;
    assert(w.len() >= 1);
    crate::lexer::lemma_step_advances(w, 0, true, spice);
}

/// Distinct additive or multiplicative tokens parse to distinct operators.
pub proof fn lemma_arithmetic_op_injective(a: Kind, b: Kind)
    ensures
        add_op(a) is Some && add_op(a) == add_op(b) ==> a == b,
        mul_op(a) is Some && mul_op(a) == mul_op(b) ==> a == b,
{
}

/// Distinct comparison tokens parse to distinct operators.
pub proof fn lemma_comparison_op_injective(a: Kind, b: Kind)
    requires
        comparison_op(a) is Some,
        comparison_op(a) == comparison_op(b),
    ensures
        a == b,
{
}

/// The additive operator of a token kind.
pub open spec fn add_op(k: Kind) -> Option<Op> {
    match k {
        Kind::Plus => Some(Op::Add),
        Kind::Minus => Some(Op::Sub),
        _ => None,
    }
}

/// `additive := multiplicative (('+' | '-') multiplicative)*`.
pub open spec fn p_add(t: Seq<TokenModel>, p: int) -> ExprResult
    decreases t.len() - p, 8int,
{
    match p_mul(t, p) {
        Err(e) => Err(e),
        Ok((l, q)) => if !moved(t.len() as int, p, q) {
            Err(ErrModel::Stalled)
        } else {
            add_tail(t, l, q)
        },
    }
}

/// The `(('+' | '-') multiplicative)*` after `l`, which ends at `p`.
pub open spec fn add_tail(t: Seq<TokenModel>, l: ExprModel, p: int) -> ExprResult
    decreases t.len() - p, 0int,
{
    if add_op(kind_at(t, p)) is Some {
        match p_mul(t, p + 1) {
            Err(e) => Err(e),
            Ok((r, q)) => if !moved(t.len() as int, p + 1, q) {
                Err(ErrModel::Stalled)
            } else {
                add_tail(
                    t,
                    ExprModel::BinOp(add_op(kind_at(t, p)).unwrap(), Box::new(l), Box::new(r)),
                    q,
                )
            },
        }
    } else {
        Ok((l, p))
    }
}

/// The multiplicative operator of a token kind.
pub open spec fn mul_op(k: Kind) -> Option<Op> {
    match k {
        Kind::Star => Some(Op::Mul),
        Kind::Slash => Some(Op::Div),
        Kind::Percent => Some(Op::Mod),
        _ => None,
    }
}

/// `multiplicative := power (('*' | '/' | '%') power)*`.
pub open spec fn p_mul(t: Seq<TokenModel>, p: int) -> ExprResult
    decreases t.len() - p, 7int,
{
    match p_power(t, p) {
        Err(e) => Err(e),
        Ok((l, q)) => if !moved(t.len() as int, p, q) {
            Err(ErrModel::Stalled)
        } else {
            mul_tail(t, l, q)
        },
    }
}

/// The `(('*' | '/' | '%') power)*` after `l`, which ends at `p`.
pub open spec fn mul_tail(t: Seq<TokenModel>, l: ExprModel, p: int) -> ExprResult
    decreases t.len() - p, 0int,
{
    if mul_op(kind_at(t, p)) is Some {
        match p_power(t, p + 1) {
            Err(e) => Err(e),
            Ok((r, q)) => if !moved(t.len() as int, p + 1, q) {
                Err(ErrModel::Stalled)
            } else {
                mul_tail(
                    t,
                    ExprModel::BinOp(mul_op(kind_at(t, p)).unwrap(), Box::new(l), Box::new(r)),
                    q,
                )
            },
        }
    } else {
        Ok((l, p))
    }
}

/// `power := unary ('^' power)?`: right-associative.
pub open spec fn p_power(t: Seq<TokenModel>, p: int) -> ExprResult
    decreases t.len() - p, 6int,
{
    match p_unary(t, p) {
        Err(e) => Err(e),
        Ok((b, q)) => if !moved(t.len() as int, p, q) {
            Err(ErrModel::Stalled)
        } else if kind_at(t, q) == Kind::Caret {
            match p_power(t, q + 1) {
                Err(e) => Err(e),
                Ok((x, q2)) => Ok((ExprModel::BinOp(Op::Pow, Box::new(b), Box::new(x)), q2)),
            }
        } else {
            Ok((b, q))
        },
    }
}

/// The prefix operator of a token kind.
pub open spec fn unary_op(k: Kind) -> Option<Op> {
    match k {
        Kind::Bang => Some(Op::Not),
        Kind::Minus => Some(Op::Neg),
        Kind::Tilde => Some(Op::Strip),
        _ => None,
    }
}

/// `unary := ('!' | '-' | '~') unary | call`.
pub open spec fn p_unary(t: Seq<TokenModel>, p: int) -> ExprResult
    decreases t.len() - p, 5int,
{
    if unary_op(kind_at(t, p)) is Some {
        match p_unary(t, p + 1) {
            Err(e) => Err(e),
            Ok((x, q)) => Ok((ExprModel::UnaryOp(unary_op(kind_at(t, p)).unwrap(), Box::new(x)), q)),
        }
    } else {
        p_call(t, p)
    }
}

/// `call := atom ('(' items ')')? ('[' expr ']')*`, the argument list only
/// after a plain identifier.
pub open spec fn p_call(t: Seq<TokenModel>, p: int) -> ExprResult
    decreases t.len() - p, 4int,
{
    match p_atom(t, p) {
        Err(e) => Err(e),
        Ok((x, q)) => if !moved(t.len() as int, p, q) {
            Err(ErrModel::Stalled)
        } else {
            match x {
                ExprModel::Ident(name) => if kind_at(t, q) == Kind::LParen {
                    match p_items(t, q + 1, Kind::RParen) {
                        Err(e) => Err(e),
                        Ok((args, q2)) => match expect(t, q2, Kind::RParen) {
                            Err(e) => Err(e),
                            Ok(q3) => if !moved(t.len() as int, p, q3) {
                                Err(ErrModel::Stalled)
                            } else {
                                index_tail(t, ExprModel::Call(name, args), q3)
                            },
                        },
                    }
                } else {
                    index_tail(t, x, q)
                },
                _ => index_tail(t, x, q),
            }
        },
    }
}

/// The `('[' expr ']')*` after `x`, which ends at `p`.
pub open spec fn index_tail(t: Seq<TokenModel>, x: ExprModel, p: int) -> ExprResult
    decreases t.len() - p, 0int,
{
    if kind_at(t, p) == Kind::LBracket {
        match p_expr(t, p + 1) {
            Err(e) => Err(e),
            Ok((i, q)) => if !moved(t.len() as int, p + 1, q) {
                Err(ErrModel::Stalled)
            } else {
                match expect(t, q, Kind::RBracket) {
                    Err(e) => Err(e),
                    Ok(q2) => index_tail(t, ExprModel::Index(Box::new(x), Box::new(i)), q2),
                }
            },
        }
    } else {
        Ok((x, p))
    }
}

/// `items := (expr (',' expr)*)?`, empty when the token at `p` is `close`.
pub open spec fn p_items(t: Seq<TokenModel>, p: int, close: Kind) -> Result<(Seq<ExprModel>, int), ErrModel>
    decreases t.len() - p, 13int,
{
    if kind_at(t, p) == close {
        Ok((seq![], p))
    } else {
        match p_expr(t, p) {
            Err(e) => Err(e),
            Ok((x, q)) => if !moved(t.len() as int, p, q) {
                Err(ErrModel::Stalled)
            } else {
                items_tail(t, seq![x], q)
            },
        }
    }
}

/// The `(',' expr)*` after the items `acc`, which end at `p`.
pub open spec fn items_tail(t: Seq<TokenModel>, acc: Seq<ExprModel>, p: int) -> Result<(Seq<ExprModel>, int), ErrModel>
    decreases t.len() - p, 0int,
{
    if kind_at(t, p) == Kind::Comma {
        match p_expr(t, p + 1) {
            Err(e) => Err(e),
            Ok((x, q)) => if !moved(t.len() as int, p + 1, q) {
                Err(ErrModel::Stalled)
            } else {
                items_tail(t, acc.push(x), q)
            },
        }
    } else {
        Ok((acc, p))
    }
}

/// `atom := number | spice | string | bool | cell-ref | solve!(…) | ident
/// | '(' expr ')' | '[' items ']'`. A SPICE literal becomes the pair of its
/// scaled number and its unit.
pub open spec fn p_atom(t: Seq<TokenModel>, p: int) -> ExprResult
    decreases t.len() - p, 3int,
{
    match tok(t, p) {
        TokenModel::Number(text, exp) => Ok((ExprModel::Num(text, exp, None), p + 1)),
        TokenModel::Spice(text, exp, prefix, unit) => Ok(
            (ExprModel::Array(seq![ExprModel::Num(text, exp, prefix), ExprModel::Str(unit)]), p + 1),
        ),
        TokenModel::Str(s) => Ok((ExprModel::Str(s), p + 1)),
        TokenModel::Bool(b) => Ok((ExprModel::Bool(b), p + 1)),
        TokenModel::At => cell_ref(t, p),
        TokenModel::Ident(name) => if name == "solve"@ && kind_at(t, p + 1) == Kind::Bang && kind_at(
            t,
            p + 2,
        ) == Kind::LParen {
            solve_macro(t, p)
        } else {
            Ok((ExprModel::Ident(name), p + 1))
        },
        TokenModel::LParen => match p_expr(t, p + 1) {
            Err(e) => Err(e),
            Ok((x, q)) => match expect(t, q, Kind::RParen) {
                Err(e) => Err(e),
                Ok(q2) => Ok((x, q2)),
            },
        },
        TokenModel::LBracket => match p_items(t, p + 1, Kind::RBracket) {
            Err(e) => Err(e),
            Ok((items, q)) => match expect(t, q, Kind::RBracket) {
                Err(e) => Err(e),
                Ok(q2) => Ok((ExprModel::Array(items), q2)),
            },
        },
        other => Err(ErrModel::Unexpected(other)),
    }
}

// ---------------------------------------------------------------------------
// The expression parser
// ---------------------------------------------------------------------------

/// A cell address result as a value.
pub open spec fn addr_res(r: Result<((u32, u32), usize), ParseError>) -> Result<((u32, u32), int), ErrModel> {
    match r {
        Ok((a, q)) => Ok((a, q as int)),
        Err(x) => Err(err_view(x)),
    }
}

/// A cell target result as a value.
pub open spec fn target_res(r: Result<(CellRefTarget, usize), ParseError>) -> Result<(CellRefTarget, int), ErrModel> {
    match r {
        Ok((a, q)) => Ok((a, q as int)),
        Err(x) => Err(err_view(x)),
    }
}

fn parse_cell_addr(toks: &[Token], p: usize) -> (r: Result<((u32, u32), usize), ParseError>)
    requires
        p <= toks@.len(),
    ensures
        addr_res(r) == cell_addr(token_values(toks@), p as int),
        r matches Ok((_, q)) ==> q == p + 1 && q <= toks@.len(),
{
    reveal(cell_addr);
    proof {
        lemma_token_values_len(toks@);
    }
    reveal(err_view);
    reveal(token_values);
    if p < toks.len() {
        match &toks[p] {
            Token::Ident(n) => match parse_cell_address(n.as_str()) {
                Some(a) => Ok((a, p + 1)),
                None => Err(ParseError::InvalidCellAddress(n.clone())),
            },
            _ => Err(ParseError::Missing { wanted: Wanted::CellAddress, got: toks[p].clone() }),
        }
    } else {
        Err(ParseError::Missing { wanted: Wanted::CellAddress, got: Token::Eof })
    }
}

fn parse_cell_target(toks: &[Token], p: usize) -> (r: Result<(CellRefTarget, usize), ParseError>)
    requires
        p <= toks@.len(),
    ensures
        target_res(r) == cell_target(token_values(toks@), p as int),
        r matches Ok((_, q)) ==> p <= q <= toks@.len(),
{
    reveal(cell_target);
    proof {
        lemma_token_values_len(toks@);
    }
    let k = kind_at_exec(toks, p);
    if k == Kind::Colon {
        let (a, q) = match parse_cell_addr(toks, p + 1) {
            Ok(v) => v,
            Err(e) => return Err(e),
        };
        if kind_at_exec(toks, q) == Kind::Colon {
            let (b, q2) = match parse_cell_addr(toks, q + 1) {
                Ok(v) => v,
                Err(e) => return Err(e),
            };
            Ok((CellRefTarget::Range(a.0, a.1, b.0, b.1), q2))
        } else {
            Ok((CellRefTarget::Cell(a.0, a.1), q))
        }
    } else if k == Kind::LBracket {
        let (a, q) = match parse_cell_addr(toks, p + 1) {
            Ok(v) => v,
            Err(e) => return Err(e),
        };
        let q1 = match expect_exec(toks, q, Kind::Colon) {
            Ok(v) => v,
            Err(e) => return Err(e),
        };
        let (b, q2) = match parse_cell_addr(toks, q1) {
            Ok(v) => v,
            Err(e) => return Err(e),
        };
        let q3 = match expect_exec(toks, q2, Kind::RBracket) {
            Ok(v) => v,
            Err(e) => return Err(e),
        };
        Ok((CellRefTarget::Range(a.0, a.1, b.0, b.1), q3))
    } else {
        Ok((CellRefTarget::Whole, p))
    }
}

fn parse_cell_ref(toks: &[Token], p: usize) -> (r: Result<(Expr, usize), ParseError>)
    requires
        p <= toks@.len(),
    ensures
        expr_res(r) == cell_ref(token_values(toks@), p as int),
        ok_moved(r, toks@.len() as int, p as int),
{
    reveal(cell_ref);
    proof {
        lemma_token_values_len(toks@);
    }
    reveal(err_view);
    let p1 = match expect_exec(toks, p, Kind::At) {
        Ok(v) => v,
        Err(e) => return Err(e),
    };
    let first = match ident_at(toks, p1) {
        Some(s) => s,
        None => return Err(ParseError::Missing { wanted: Wanted::IdentAfterAt, got: tok_clone(toks, p1) }),
    };
    let (block, table, q) = if kind_at_exec(toks, p1 + 1) == Kind::ColonColon {
        match ident_at(toks, p1 + 2) {
            Some(tn) => (Some(to_lowercase_string(first.as_str())), to_lowercase_string(tn.as_str()), p1 + 3),
            None => {
                return Err(
                    ParseError::Missing { wanted: Wanted::TableAfterColons, got: tok_clone(toks, p1 + 2) },
                )
            },
        }
    } else {
        (None, to_lowercase_string(first.as_str()), p1 + 1)
    };
    let (target, q2) = match parse_cell_target(toks, q) {
        Ok(v) => v,
        Err(e) => return Err(e),
    };
    Ok((Expr::CellRef { block, table: Some(table), target }, q2))
}

fn parse_solve_macro(toks: &[Token], p: usize) -> (r: Result<(Expr, usize), ParseError>)
    requires
        p <= toks@.len(),
    ensures
        expr_res(r) == solve_macro(token_values(toks@), p as int),
        ok_moved(r, toks@.len() as int, p as int),
{
    reveal(solve_macro);
    proof {
        lemma_token_values_len(toks@);
    }
    reveal(err_view);
    reveal(kind_of);
    match ident_at(toks, p) {
        Some(n) => if !str_equal(n.as_str(), "solve") {
            return Err(ParseError::Missing { wanted: Wanted::Solve, got: tok_clone(toks, p) });
        },
        None => return Err(ParseError::Missing { wanted: Wanted::Solve, got: tok_clone(toks, p) }),
    }
    let p2 = match expect_exec(toks, p + 1, Kind::Bang) {
        Ok(v) => v,
        Err(e) => return Err(e),
    };
    let p3 = match expect_exec(toks, p2, Kind::LParen) {
        Ok(v) => v,
        Err(e) => return Err(e),
    };
    let var = match ident_at(toks, p3) {
        Some(v) => v,
        None => return Err(ParseError::Missing { wanted: Wanted::TargetAfterSolve, got: tok_clone(toks, p3) }),
    };
    let sep_ok = kind_at_exec(toks, p3 + 1) == Kind::Comma || match ident_at(toks, p3 + 1) {
        Some(w) => str_equal(w.as_str(), "from"),
        None => false,
    };
    if !sep_ok {
        return Err(ParseError::Missing { wanted: Wanted::CommaOrFrom, got: tok_clone(toks, p3 + 1) });
    }
    let src = match ident_at(toks, p3 + 2) {
        Some(v) => v,
        None => return Err(ParseError::Missing { wanted: Wanted::SourceInSolve, got: tok_clone(toks, p3 + 2) }),
    };
    let q = match expect_exec(toks, p3 + 3, Kind::RParen) {
        Ok(v) => v,
        Err(e) => return Err(e),
    };
    Ok((Expr::SolveMacro { var, source_fn: src }, q))
}

fn comparison_op_of(k: Kind) -> (r: Option<Op>)
    ensures
        r == comparison_op(k),
{
    match k {
        Kind::EqEq => Some(Op::Eq),
        Kind::BangEq => Some(Op::Neq),
        Kind::Lt => Some(Op::Lt),
        Kind::Gt => Some(Op::Gt),
        Kind::LtEq => Some(Op::Lte),
        Kind::GtEq => Some(Op::Gte),
        _ => None,
    }
}

fn add_op_of(k: Kind) -> (r: Option<Op>)
    ensures
        r == add_op(k),
{
    match k {
        Kind::Plus => Some(Op::Add),
        Kind::Minus => Some(Op::Sub),
        _ => None,
    }
}

fn mul_op_of(k: Kind) -> (r: Option<Op>)
    ensures
        r == mul_op(k),
{
    match k {
        Kind::Star => Some(Op::Mul),
        Kind::Slash => Some(Op::Div),
        Kind::Percent => Some(Op::Mod),
        _ => None,
    }
}

fn or_op_of(k: Kind) -> (r: Option<Op>)
    ensures
        r is Some <==> k == Kind::Or,
        r is Some ==> r == Some(Op::Or),
{
    if k == Kind::Or {
        Some(Op::Or)
    } else {
        None
    }
}

fn and_op_of(k: Kind) -> (r: Option<Op>)
    ensures
        r is Some <==> k == Kind::And,
        r is Some ==> r == Some(Op::And),
{
    if k == Kind::And {
        Some(Op::And)
    } else {
        None
    }
}

fn unary_op_of(k: Kind) -> (r: Option<Op>)
    ensures
        r == unary_op(k),
{
    match k {
        Kind::Bang => Some(Op::Not),
        Kind::Minus => Some(Op::Neg),
        Kind::Tilde => Some(Op::Strip),
        _ => None,
    }
}

/// `p_expr` when its first `or` fails.
proof fn lemma_expr_err(t: Seq<TokenModel>, p: int)
    requires
        p_or(t, p) is Err,
    ensures
        p_expr(t, p) == p_or(t, p),
{
}

/// `p_expr` for `l .. r`, given what the second `or` gives.
proof fn lemma_expr_range(t: Seq<TokenModel>, p: int, l: ExprModel, q: int, second: ExprResult)
    requires
        p_or(t, p) == Ok::<(ExprModel, int), ErrModel>((l, q)),
        moved(t.len() as int, p, q),
        kind_at(t, q) == Kind::DotDot,
        p_or(t, q + 1) == second,
    ensures
        p_expr(t, p) == match second {
            Err(e) => Err(e),
            Ok((r, q2)) => Ok((ExprModel::Range(Box::new(l), Box::new(r)), q2)),
        },
{
}

/// `p_expr` with no `..`.
proof fn lemma_expr_plain(t: Seq<TokenModel>, p: int, l: ExprModel, q: int)
    requires
        p_or(t, p) == Ok::<(ExprModel, int), ErrModel>((l, q)),
        moved(t.len() as int, p, q),
        kind_at(t, q) != Kind::DotDot,
    ensures
        p_expr(t, p) == Ok::<(ExprModel, int), ErrModel>(bare_range(t, l, q)),
{
}

/// Parses an expression from `pos`; see `p_expr`.
pub fn parse_expr(toks: &[Token], pos: usize) -> (r: Result<(Expr, usize), ParseError>)
    requires
        pos <= toks@.len(),
    ensures
        expr_res(r) == p_expr(token_values(toks@), pos as int),
        ok_moved(r, toks@.len() as int, pos as int),
    decreases toks@.len() - pos, 12int,
{
    proof {
        lemma_token_values_len(toks@);
    }
    let ghost t = token_values(toks@);
    let (l, q) = match parse_or(toks, pos) {
        Ok(v) => v,
        Err(e) => {
            proof {
                lemma_expr_err(t, pos as int);
            }
            return Err(e);
        },
    };
    let ghost lv = expr_view(l);
    if kind_at_exec(toks, q) == Kind::DotDot {
        let second = parse_or(toks, q + 1);
        proof {
            lemma_expr_range(t, pos as int, lv, q as int, expr_res(second));
        }
        let (r, q2) = match second {
            Ok(v) => v,
            Err(e) => return Err(e),
        };
        let res = Expr::Range(Box::new(l), Box::new(r));
        proof {
            lemma_expr_view(res);
        }
        return Ok((res, q2));
    }
    proof {
        lemma_expr_plain(t, pos as int, lv, q as int);
    }
    let (e, q2) = finish_bare_range(toks, l, q);
    Ok((e, q2))
}

fn finish_bare_range(toks: &[Token], l: Expr, q: usize) -> (r: (Expr, usize))
    requires
        q <= toks@.len(),
    ensures
        (expr_view(r.0), r.1 as int) == bare_range(token_values(toks@), expr_view(l), q as int),
        q <= r.1 <= toks@.len(),
{
    reveal(bare_range);
    proof {
        lemma_token_values_len(toks@);
    }
    proof {
        lemma_view_ident(l);
    }
    match l {
        Expr::Ident(start) => {
            if kind_at_exec(toks, q) == Kind::Colon {
                match parse_cell_address(start.as_str()) {
                    Some(a) => match ident_at(toks, q + 1) {
                        Some(end) => match parse_cell_address(end.as_str()) {
                            Some(b) => {
                                return (
                                    Expr::CellRef {
                                        block: None,
                                        table: None,
                                        target: CellRefTarget::Range(a.0, a.1, b.0, b.1),
                                    },
                                    q + 2,
                                );
                            },
                            None => {},
                        },
                        None => {},
                    },
                    None => {},
                }
            }
            (Expr::Ident(start), q)
        },
        other => (other, q),
    }
}

fn parse_or(toks: &[Token], pos: usize) -> (r: Result<(Expr, usize), ParseError>)
    requires
        pos <= toks@.len(),
    ensures
        expr_res(r) == p_or(token_values(toks@), pos as int),
        ok_moved(r, toks@.len() as int, pos as int),
    decreases toks@.len() - pos, 11int,
{
    proof {
        lemma_token_values_len(toks@);
    }
    let ghost t = token_values(toks@);
    let (mut left, mut p) = match parse_and(toks, pos) {
        Ok(v) => v,
        Err(e) => return Err(e),
    };
    while or_op_of(kind_at_exec(toks, p)).is_some()
        invariant
            t == token_values(toks@),
            t.len() == toks@.len(),
            pos < p <= toks@.len(),
            or_tail(t, expr_view(left), p as int) == p_or(t, pos as int),
        decreases toks@.len() - p,
    {
        let op = or_op_of(kind_at_exec(toks, p)).unwrap();
        let (right, q) = match parse_and(toks, p + 1) {
            Ok(v) => v,
            Err(e) => return Err(e),
        };
        left = Expr::BinOp(op, Box::new(left), Box::new(right));
        p = q;
    }
    Ok((left, p))
}

fn parse_and(toks: &[Token], pos: usize) -> (r: Result<(Expr, usize), ParseError>)
    requires
        pos <= toks@.len(),
    ensures
        expr_res(r) == p_and(token_values(toks@), pos as int),
        ok_moved(r, toks@.len() as int, pos as int),
    decreases toks@.len() - pos, 10int,
{
    proof {
        lemma_token_values_len(toks@);
    }
    let ghost t = token_values(toks@);
    let (mut left, mut p) = match parse_comparison(toks, pos) {
        Ok(v) => v,
        Err(e) => return Err(e),
    };
    while and_op_of(kind_at_exec(toks, p)).is_some()
        invariant
            t == token_values(toks@),
            t.len() == toks@.len(),
            pos < p <= toks@.len(),
            and_tail(t, expr_view(left), p as int) == p_and(t, pos as int),
        decreases toks@.len() - p,
    {
        let op = and_op_of(kind_at_exec(toks, p)).unwrap();
        let (right, q) = match parse_comparison(toks, p + 1) {
            Ok(v) => v,
            Err(e) => return Err(e),
        };
        left = Expr::BinOp(op, Box::new(left), Box::new(right));
        p = q;
    }
    Ok((left, p))
}

fn parse_add(toks: &[Token], pos: usize) -> (r: Result<(Expr, usize), ParseError>)
    requires
        pos <= toks@.len(),
    ensures
        expr_res(r) == p_add(token_values(toks@), pos as int),
        ok_moved(r, toks@.len() as int, pos as int),
    decreases toks@.len() - pos, 8int,
{
    proof {
        lemma_token_values_len(toks@);
    }
    let ghost t = token_values(toks@);
    let (mut left, mut p) = match parse_mul(toks, pos) {
        Ok(v) => v,
        Err(e) => return Err(e),
    };
    while add_op_of(kind_at_exec(toks, p)).is_some()
        invariant
            t == token_values(toks@),
            t.len() == toks@.len(),
            pos < p <= toks@.len(),
            add_tail(t, expr_view(left), p as int) == p_add(t, pos as int),
        decreases toks@.len() - p,
    {
        let op = add_op_of(kind_at_exec(toks, p)).unwrap();
        let (right, q) = match parse_mul(toks, p + 1) {
            Ok(v) => v,
            Err(e) => return Err(e),
        };
        left = Expr::BinOp(op, Box::new(left), Box::new(right));
        p = q;
    }
    Ok((left, p))
}

fn parse_mul(toks: &[Token], pos: usize) -> (r: Result<(Expr, usize), ParseError>)
    requires
        pos <= toks@.len(),
    ensures
        expr_res(r) == p_mul(token_values(toks@), pos as int),
        ok_moved(r, toks@.len() as int, pos as int),
    decreases toks@.len() - pos, 7int,
{
    proof {
        lemma_token_values_len(toks@);
    }
    let ghost t = token_values(toks@);
    let (mut left, mut p) = match parse_power(toks, pos) {
        Ok(v) => v,
        Err(e) => return Err(e),
    };
    while mul_op_of(kind_at_exec(toks, p)).is_some()
        invariant
            t == token_values(toks@),
            t.len() == toks@.len(),
            pos < p <= toks@.len(),
            mul_tail(t, expr_view(left), p as int) == p_mul(t, pos as int),
        decreases toks@.len() - p,
    {
        let op = mul_op_of(kind_at_exec(toks, p)).unwrap();
        let (right, q) = match parse_power(toks, p + 1) {
            Ok(v) => v,
            Err(e) => return Err(e),
        };
        left = Expr::BinOp(op, Box::new(left), Box::new(right));
        p = q;
    }
    Ok((left, p))
}

fn comparison_continues(toks: &[Token], p: usize) -> (r: bool)
    ensures
        r == (kind_at(token_values(toks@), p as int) == Kind::Is || comparison_op(
            kind_at(token_values(toks@), p as int),
        ) is Some),
{
    proof {
        lemma_token_values_len(toks@);
    }
    let k = kind_at_exec(toks, p);
    k == Kind::Is || comparison_op_of(k).is_some()
}

fn parse_comparison(toks: &[Token], pos: usize) -> (r: Result<(Expr, usize), ParseError>)
    requires
        pos <= toks@.len(),
    ensures
        expr_res(r) == p_comparison(token_values(toks@), pos as int),
        ok_moved(r, toks@.len() as int, pos as int),
    decreases toks@.len() - pos, 9int,
{
    proof {
        lemma_token_values_len(toks@);
    }
    let ghost t = token_values(toks@);
    let (mut left, mut p) = match parse_add(toks, pos) {
        Ok(v) => v,
        Err(e) => return Err(e),
    };
    while comparison_continues(toks, p)
        invariant
            t == token_values(toks@),
            t.len() == toks@.len(),
            pos < p <= toks@.len(),
            comparison_tail(t, expr_view(left), p as int) == p_comparison(t, pos as int),
        decreases toks@.len() - p,
    {
            let k = kind_at_exec(toks, p);
        if k == Kind::Is {
            match ident_at(toks, p + 1) {
                Some(ty) => {
                    left = Expr::IsCheck(Box::new(left), ty);
                    p = p + 2;
                },
                None => {
                    return Err(missing(toks, p + 1, Wanted::TypeAfterIs));
                },
            }
        } else {
            let op = comparison_op_of(k).unwrap();
            let (right, q) = match parse_add(toks, p + 1) {
                Ok(v) => v,
                Err(e) => return Err(e),
            };
            left = Expr::BinOp(op, Box::new(left), Box::new(right));
            p = q;
        }
    }
    Ok((left, p))
}

fn parse_power(toks: &[Token], pos: usize) -> (r: Result<(Expr, usize), ParseError>)
    requires
        pos <= toks@.len(),
    ensures
        expr_res(r) == p_power(token_values(toks@), pos as int),
        ok_moved(r, toks@.len() as int, pos as int),
    decreases toks@.len() - pos, 6int,
{
    proof {
        lemma_token_values_len(toks@);
    }
    let (b, q) = match parse_unary(toks, pos) {
        Ok(v) => v,
        Err(e) => return Err(e),
    };
    if kind_at_exec(toks, q) == Kind::Caret {
        let (x, q2) = match parse_power(toks, q + 1) {
            Ok(v) => v,
            Err(e) => return Err(e),
        };
        Ok((Expr::BinOp(Op::Pow, Box::new(b), Box::new(x)), q2))
    } else {
        Ok((b, q))
    }
}

fn parse_unary(toks: &[Token], pos: usize) -> (r: Result<(Expr, usize), ParseError>)
    requires
        pos <= toks@.len(),
    ensures
        expr_res(r) == p_unary(token_values(toks@), pos as int),
        ok_moved(r, toks@.len() as int, pos as int),
    decreases toks@.len() - pos, 5int,
{
    proof {
        lemma_token_values_len(toks@);
    }
    match unary_op_of(kind_at_exec(toks, pos)) {
        Some(op) => {
            let (x, q) = match parse_unary(toks, pos + 1) {
                Ok(v) => v,
                Err(e) => return Err(e),
            };
            Ok((Expr::UnaryOp(op, Box::new(x)), q))
        },
        None => parse_call(toks, pos),
    }
}

fn parse_call(toks: &[Token], pos: usize) -> (r: Result<(Expr, usize), ParseError>)
    requires
        pos <= toks@.len(),
    ensures
        expr_res(r) == p_call(token_values(toks@), pos as int),
        ok_moved(r, toks@.len() as int, pos as int),
    decreases toks@.len() - pos, 4int,
{
    proof {
        lemma_token_values_len(toks@);
    }
    let ghost t = token_values(toks@);
    let (x, q) = match parse_atom(toks, pos) {
        Ok(v) => v,
        Err(e) => return Err(e),
    };
    proof {
        lemma_view_ident(x);
    }
    let (mut cur, mut p) = match x {
        Expr::Ident(name) => if kind_at_exec(toks, q) == Kind::LParen {
            let (args, q2) = match parse_items(toks, q + 1, Kind::RParen) {
                Ok(v) => v,
                Err(e) => return Err(e),
            };
            let q3 = match expect_exec(toks, q2, Kind::RParen) {
                Ok(v) => v,
                Err(e) => return Err(e),
            };
            (Expr::Call(name, args), q3)
        } else {
            (Expr::Ident(name), q)
        },
        other => (other, q),
    };
    while kind_at_exec(toks, p) == Kind::LBracket
        invariant
            t == token_values(toks@),
            t.len() == toks@.len(),
            pos < p <= toks@.len(),
            index_tail(t, expr_view(cur), p as int) == p_call(t, pos as int),
        decreases toks@.len() - p,
    {
        let (i, q) = match parse_expr(toks, p + 1) {
            Ok(v) => v,
            Err(e) => return Err(e),
        };
        let q2 = match expect_exec(toks, q, Kind::RBracket) {
            Ok(v) => v,
            Err(e) => return Err(e),
        };
        cur = Expr::Index(Box::new(cur), Box::new(i));
        p = q2;
    }
    Ok((cur, p))
}

/// Parses a comma-separated list of expressions up to a `close` token,
/// which it leaves; see `p_items`.
fn parse_items(toks: &[Token], pos: usize, close: Kind) -> (r: Result<(Vec<Expr>, usize), ParseError>)
    requires
        pos <= toks@.len(),
    ensures
        exprs_res(r) == p_items(token_values(toks@), pos as int, close),
        r matches Ok((_, q)) ==> pos <= q <= toks@.len(),
    decreases toks@.len() - pos, 13int,
{
    proof {
        lemma_token_values_len(toks@);
    }
    let ghost t = token_values(toks@);
    let mut items: Vec<Expr> = Vec::new();
    if kind_at_exec(toks, pos) == close {
        return Ok((items, pos));
    }
    let (x, q) = match parse_expr(toks, pos) {
        Ok(v) => v,
        Err(e) => return Err(e),
    };
    proof {
        lemma_exprs_view_push(items@, x);
        assert(exprs_view(items@) =~= seq![]);
    }
    items.push(x);
    let mut p = q;
    while kind_at_exec(toks, p) == Kind::Comma
        invariant
            t == token_values(toks@),
            t.len() == toks@.len(),
            pos < p <= toks@.len(),
            items_tail(t, exprs_view(items@), p as int) == p_items(t, pos as int, close),
        decreases toks@.len() - p,
    {
        let (x, q) = match parse_expr(toks, p + 1) {
            Ok(v) => v,
            Err(e) => return Err(e),
        };
        proof {
            lemma_exprs_view_push(items@, x);
        }
        items.push(x);
        p = q;
    }
    Ok((items, p))
}

/// `p_atom`, case by case.
proof fn lemma_atom(t: Seq<TokenModel>, p: int)
    ensures
        match tok(t, p) {
            TokenModel::Number(text, exp) => p_atom(t, p) == Ok::<(ExprModel, int), ErrModel>(
                (ExprModel::Num(text, exp, None), p + 1),
            ),
            TokenModel::Spice(text, exp, prefix, unit) => p_atom(t, p) == Ok::<(ExprModel, int), ErrModel>(
                (ExprModel::Array(seq![ExprModel::Num(text, exp, prefix), ExprModel::Str(unit)]), p + 1),
            ),
            TokenModel::Str(s) => p_atom(t, p) == Ok::<(ExprModel, int), ErrModel>((ExprModel::Str(s), p + 1)),
            TokenModel::Bool(b) => p_atom(t, p) == Ok::<(ExprModel, int), ErrModel>((ExprModel::Bool(b), p + 1)),
            TokenModel::At => p_atom(t, p) == cell_ref(t, p),
            TokenModel::Ident(name) => p_atom(t, p) == if name == "solve"@ && kind_at(t, p + 1) == Kind::Bang
                && kind_at(t, p + 2) == Kind::LParen {
                solve_macro(t, p)
            } else {
                Ok((ExprModel::Ident(name), p + 1))
            },
            TokenModel::LParen => p_atom(t, p) == match p_expr(t, p + 1) {
                Err(e) => Err(e),
                Ok((x, q)) => match expect(t, q, Kind::RParen) {
                    Err(e) => Err(e),
                    Ok(q2) => Ok((x, q2)),
                },
            },
            TokenModel::LBracket => p_atom(t, p) == match p_items(t, p + 1, Kind::RBracket) {
                Err(e) => Err(e),
                Ok((items, q)) => match expect(t, q, Kind::RBracket) {
                    Err(e) => Err(e),
                    Ok(q2) => Ok((ExprModel::Array(items), q2)),
                },
            },
            other => p_atom(t, p) == Err::<(ExprModel, int), ErrModel>(ErrModel::Unexpected(other)),
        },
{
}

#[verifier::rlimit(60)]
fn parse_atom(toks: &[Token], pos: usize) -> (r: Result<(Expr, usize), ParseError>)
    requires
        pos <= toks@.len(),
    ensures
        expr_res(r) == p_atom(token_values(toks@), pos as int),
        ok_moved(r, toks@.len() as int, pos as int),
    decreases toks@.len() - pos, 3int,
{
    proof {
        lemma_token_values_len(toks@);
    }
    if pos >= toks.len() {
        proof {
            lemma_atom(token_values(toks@), pos as int);
            lemma_err_unexpected(Token::Eof);
        }
        return Err(ParseError::Unexpected(Token::Eof));
    }
    proof {
        lemma_token_variant(toks@[pos as int]);
        lemma_token_value_at(toks@, pos as int);
        lemma_atom(token_values(toks@), pos as int);
    }
    let ghost goal = p_atom(token_values(toks@), pos as int);
    match &toks[pos] {
        Token::Number { text, exp } => {
            let x = Expr::Num { text: text.clone(), exp: clone_opt(exp), prefix: None };
            proof {
                lemma_expr_view(x);
            }
            let r = Ok((x, pos + 1));
            assert(expr_res(r) == goal);
            r
        },
        Token::Spice { text, exp, prefix, unit } => {
            let mut v: Vec<Expr> = Vec::new();
            let n = Expr::Num { text: text.clone(), exp: clone_opt(exp), prefix: *prefix };
            let u = Expr::Str(unit.clone());
            proof {
                lemma_expr_view(n);
                lemma_expr_view(u);
                lemma_exprs_view_push(v@, n);
                lemma_exprs_view_push(v@.push(n), u);
                assert(exprs_view(v@) =~= seq![]);
            }
            let ghost nv = expr_view(n);
            let ghost uv = expr_view(u);
            v.push(n);
            v.push(u);
            assert(exprs_view(v@) =~= seq![nv, uv]);
            let x = Expr::Array(v);
            proof {
                lemma_expr_view(x);
            }
            let r = Ok((x, pos + 1));
            assert(expr_res(r) == goal);
            r
        },
        Token::Str(s) => {
            let x = Expr::Str(s.clone());
            proof {
                lemma_expr_view(x);
            }
            let r = Ok((x, pos + 1));
            assert(expr_res(r) == goal);
            r
        },
        Token::Bool(b) => {
            let x = Expr::Bool(*b);
            proof {
                lemma_expr_view(x);
            }
            let r = Ok((x, pos + 1));
            assert(expr_res(r) == goal);
            r
        },
        Token::At => {
            let r = parse_cell_ref(toks, pos);
            assert(expr_res(r) == goal);
            r
        },
        Token::Ident(name) => {
            if str_equal(name.as_str(), "solve") && kind_at_exec(toks, pos + 1) == Kind::Bang
                && kind_at_exec(toks, pos + 2) == Kind::LParen {
                let r = parse_solve_macro(toks, pos);
                assert(expr_res(r) == goal);
                r
            } else {
                let x = Expr::Ident(name.clone());
                proof {
                    lemma_expr_view(x);
                }
                let r = Ok((x, pos + 1));
                assert(expr_res(r) == goal);
                r
            }
        },
        Token::LParen => {
            let (x, q) = match parse_expr(toks, pos + 1) {
                Ok(v) => v,
                Err(e) => return Err(e),
            };
            let q2 = match expect_exec(toks, q, Kind::RParen) {
                Ok(v) => v,
                Err(e) => return Err(e),
            };
            let r = Ok((x, q2));
            assert(expr_res(r) == goal);
            r
        },
        Token::LBracket => {
            let (items, q) = match parse_items(toks, pos + 1, Kind::RBracket) {
                Ok(v) => v,
                Err(e) => return Err(e),
            };
            let q2 = match expect_exec(toks, q, Kind::RBracket) {
                Ok(v) => v,
                Err(e) => return Err(e),
            };
            let x = Expr::Array(items);
            proof {
                lemma_expr_view(x);
            }
            let r = Ok((x, q2));
            assert(expr_res(r) == goal);
            r
        },
        _ => {
            let tk = toks[pos].clone();
            proof {
                lemma_err_unexpected(tk);
            }
            let r = Err(ParseError::Unexpected(tk));
            assert(expr_res(r) == goal);
            r
        },
    }
}

// ---------------------------------------------------------------------------
// The statement grammar
// ---------------------------------------------------------------------------

/// Result of parsing a statement: the statement and the position after it.
pub type StmtResult = Result<(StmtModel, int), ErrModel>;

/// Result of parsing a list of statements.
pub type StmtsResult = Result<(Seq<StmtModel>, int), ErrModel>;

/// The number of newline tokens from `p` on.
pub open spec fn newline_run(t: Seq<TokenModel>, p: int) -> nat
    decreases t.len() - p,
{
    if kind_at(t, p) == Kind::Newline {
        1 + newline_run(t, p + 1)
    } else {
        0
    }
}

/// The position after the newlines at `p`.
pub open spec fn skip_newlines(t: Seq<TokenModel>, p: int) -> int {
    p + newline_run(t, p)
}

/// A parameter without a type annotation.
pub open spec fn untyped(names: Seq<Seq<char>>) -> Seq<(Seq<char>, Option<Seq<char>>)> {
    names.map_values(|n: Seq<char>| (n, None::<Seq<char>>))
}

/// The names of `name(a, b) = …` before the `)`; `None` when a name is missing.
pub open spec fn legacy_params(t: Seq<TokenModel>, p: int) -> Option<(Seq<Seq<char>>, int)> {
    if kind_at(t, p) == Kind::RParen {
        Some((seq![], p))
    } else {
        match tok(t, p) {
            TokenModel::Ident(x) => legacy_more(t, seq![x], p + 1),
            _ => None,
        }
    }
}

/// The `(',' ident)*` after the names `acc`, which end at `p`.
pub open spec fn legacy_more(t: Seq<TokenModel>, acc: Seq<Seq<char>>, p: int) -> Option<(Seq<Seq<char>>, int)>
    decreases t.len() - p,
{
    if kind_at(t, p) == Kind::Comma {
        match tok(t, p + 1) {
            TokenModel::Ident(x) => legacy_more(t, acc.push(x), p + 2),
            _ => None,
        }
    } else {
        Some((acc, p))
    }
}

/// `(ident (',' ident)*)?` before a `)`; a missing name is reported as `w`.
pub open spec fn name_list(t: Seq<TokenModel>, p: int, w: Wanted) -> Result<(Seq<Seq<char>>, int), ErrModel> {
    if kind_at(t, p) == Kind::RParen {
        Ok((seq![], p))
    } else {
        match tok(t, p) {
            TokenModel::Ident(x) => name_more(t, seq![x], p + 1, w),
            other => Err(ErrModel::Missing(w, other)),
        }
    }
}

/// The `(',' ident)*` after the names `acc`, which end at `p`.
pub open spec fn name_more(t: Seq<TokenModel>, acc: Seq<Seq<char>>, p: int, w: Wanted) -> Result<(Seq<Seq<char>>, int), ErrModel>
    decreases t.len() - p,
{
    if kind_at(t, p) == Kind::Comma {
        match tok(t, p + 1) {
            TokenModel::Ident(x) => name_more(t, acc.push(x), p + 2, w),
            other => Err(ErrModel::Missing(w, other)),
        }
    } else {
        Ok((acc, p))
    }
}

/// `ident (':' type)?`: a function parameter.
pub open spec fn typed_param(t: Seq<TokenModel>, p: int) -> Result<((Seq<char>, Option<Seq<char>>), int), ErrModel> {
    match tok(t, p) {
        TokenModel::Ident(n) => if kind_at(t, p + 1) == Kind::Colon {
            match tok(t, p + 2) {
                TokenModel::Ident(ty) => Ok(((n, Some(ty)), p + 3)),
                other => Err(ErrModel::Missing(Wanted::ParamType, other)),
            }
        } else {
            Ok(((n, None), p + 1))
        },
        other => Err(ErrModel::Missing(Wanted::ParamName, other)),
    }
}

/// `(param (',' param)*)?` before a `)`.
pub open spec fn typed_params(t: Seq<TokenModel>, p: int) -> Result<(Seq<(Seq<char>, Option<Seq<char>>)>, int), ErrModel> {
    if kind_at(t, p) == Kind::RParen {
        Ok((seq![], p))
    } else {
        match typed_param(t, p) {
            Err(e) => Err(e),
            Ok((x, q)) => typed_more(t, seq![x], q),
        }
    }
}

/// The `(',' param)*` after the parameters `acc`, which end at `p`.
pub open spec fn typed_more(t: Seq<TokenModel>, acc: Seq<(Seq<char>, Option<Seq<char>>)>, p: int) -> Result<(Seq<(Seq<char>, Option<Seq<char>>)>, int), ErrModel>
    decreases t.len() - p,
{
    if kind_at(t, p) == Kind::Comma {
        match typed_param(t, p + 1) {
            Err(e) => Err(e),
            Ok((x, q)) => typed_more(t, acc.push(x), q),
        }
    } else {
        Ok((acc, p))
    }
}

/// An expression statement.
#[verifier::opaque]
pub open spec fn expr_stmt(t: Seq<TokenModel>, p: int) -> StmtResult {
    match p_expr(t, p) {
        Err(e) => Err(e),
        Ok((x, q)) => Ok((StmtModel::ExprStmt(x), skip_newlines(t, q))),
    }
}

/// `let name(params) = rhs`, a function; or
/// `let name(params) = target where source(args) = result`, an inversion.
/// `p` is at the `(`.
#[verifier::opaque]
pub open spec fn let_with_params(t: Seq<TokenModel>, name: Seq<char>, p: int) -> StmtResult {
    match expect(t, p, Kind::LParen) {
        Err(e) => Err(e),
        Ok(p1) => match name_list(t, p1, Wanted::ParamName) {
            Err(e) => Err(e),
            Ok((params, p2)) => match expect(t, p2, Kind::RParen) {
                Err(e) => Err(e),
                Ok(p3) => match expect(t, p3, Kind::Eq) {
                    Err(e) => Err(e),
                    Ok(p4) => match p_expr(t, p4) {
                        Err(e) => Err(e),
                        Ok((rhs, q)) => if tok(t, q) == TokenModel::Ident("where"@) {
                            match rhs {
                                ExprModel::Ident(target) => match tok(t, q + 1) {
                                    TokenModel::Ident(src) => match expect(t, q + 2, Kind::LParen) {
                                        Err(e) => Err(e),
                                        Ok(q1) => match name_list(t, q1, Wanted::ArgName) {
                                            Err(e) => Err(e),
                                            Ok((args, q2)) => match expect(t, q2, Kind::RParen) {
                                                Err(e) => Err(e),
                                                Ok(q3) => match expect(t, q3, Kind::Eq) {
                                                    Err(e) => Err(e),
                                                    Ok(q4) => match tok(t, q4) {
                                                        TokenModel::Ident(result) => Ok(
                                                            (
                                                                StmtModel::SolveDef(
                                                                    name,
                                                                    params,
                                                                    target,
                                                                    src,
                                                                    args,
                                                                    result,
                                                                ),
                                                                skip_newlines(t, q4 + 1),
                                                            ),
                                                        ),
                                                        other => Err(ErrModel::Missing(Wanted::ResultAfterEq, other)),
                                                    },
                                                },
                                            },
                                        },
                                    },
                                    other => Err(ErrModel::Missing(Wanted::SourceAfterWhere, other)),
                                },
                                _ => Err(ErrModel::TargetBeforeWhere),
                            }
                        } else {
                            Ok(
                                (
                                    StmtModel::FnDef(name, untyped(params), None, seq![StmtModel::ExprStmt(rhs)]),
                                    skip_newlines(t, q),
                                ),
                            )
                        },
                    },
                },
            },
        },
    }
}

/// `let name (':' type)? = expr`, or a function definition.
#[verifier::opaque]
pub open spec fn p_let(t: Seq<TokenModel>, p: int) -> StmtResult {
    match expect(t, p, Kind::Let) {
        Err(e) => Err(e),
        Ok(p1) => match tok(t, p1) {
            TokenModel::Ident(name) => if kind_at(t, p1 + 1) == Kind::LParen {
                let_with_params(t, name, p1 + 1)
            } else {
                let ann: Result<(Option<Seq<char>>, int), ErrModel> = if kind_at(t, p1 + 1) == Kind::Colon {
                    match tok(t, p1 + 2) {
                        TokenModel::Ident(ty) => Ok((Some(ty), p1 + 3)),
                        other => Err(ErrModel::Missing(Wanted::TypeNameAfterColon, other)),
                    }
                } else {
                    Ok((None, p1 + 1))
                };
                match ann {
                    Err(e) => Err(e),
                    Ok((ty, q)) => match expect(t, q, Kind::Eq) {
                        Err(e) => Err(e),
                        Ok(q1) => match p_expr(t, q1) {
                            Err(e) => Err(e),
                            Ok((x, q2)) => Ok((StmtModel::Let(name, ty, x), skip_newlines(t, q2))),
                        },
                    },
                }
            },
            other => Err(ErrModel::Missing(Wanted::IdentAfterLet, other)),
        },
    }
}

/// `return` alone (before a newline, the end or `}`: `return false`), or
/// `return expr`.
#[verifier::opaque]
pub open spec fn p_return(t: Seq<TokenModel>, p: int) -> StmtResult {
    match expect(t, p, Kind::Return) {
        Err(e) => Err(e),
        Ok(p1) => if kind_at(t, p1) == Kind::Newline || kind_at(t, p1) == Kind::Eof || kind_at(t, p1)
            == Kind::RBrace {
            Ok((StmtModel::Return(ExprModel::Bool(false)), p1))
        } else {
            match p_expr(t, p1) {
                Err(e) => Err(e),
                Ok((x, q)) => Ok((StmtModel::Return(x), skip_newlines(t, q))),
            }
        },
    }
}

/// `use module` or `use module::item` (an item or `*`).
#[verifier::opaque]
pub open spec fn p_use(t: Seq<TokenModel>, p: int) -> StmtResult {
    match expect(t, p, Kind::Use) {
        Err(e) => Err(e),
        Ok(p1) => match tok(t, p1) {
            TokenModel::Ident(m) => if kind_at(t, p1 + 1) == Kind::ColonColon {
                match tok(t, p1 + 2) {
                    TokenModel::Ident(item) => Ok((StmtModel::Use(m, Some(item)), skip_newlines(t, p1 + 3))),
                    TokenModel::Star => Ok((StmtModel::Use(m, Some("*"@)), skip_newlines(t, p1 + 3))),
                    other => Err(ErrModel::Missing(Wanted::ItemAfterColons, other)),
                }
            } else {
                Ok((StmtModel::Use(m, None), skip_newlines(t, p1 + 1)))
            },
            other => Err(ErrModel::Missing(Wanted::ModuleAfterUse, other)),
        },
    }
}

/// A statement starting with `@`: a cell assignment `@[block::]table:A1 =
/// expr`, or an expression.
#[verifier::opaque]
pub open spec fn stmt_at(t: Seq<TokenModel>, p: int) -> StmtResult {
    match cell_ref(t, p) {
        Err(e) => Err(e),
        Ok((cref, p1)) => if kind_at(t, p1) == Kind::Eq {
            match p_expr(t, p1 + 1) {
                Err(e) => Err(e),
                Ok((value, q)) => match cref {
                    ExprModel::CellRef(block, table, target) => match (table, target) {
                        (Some(tb), CellRefTarget::Cell(c, r)) => Ok(
                            (StmtModel::CellAssign(block, tb, (c, r), value), skip_newlines(t, q)),
                        ),
                        (_, CellRefTarget::Whole) => Err(ErrModel::AssignWholeTable),
                        (_, CellRefTarget::Range(..)) => Err(ErrModel::AssignRange),
                        _ => Err(ErrModel::CellAssignForm),
                    },
                    _ => Err(ErrModel::CellAssignForm),
                },
            }
        } else {
            expr_stmt(t, p)
        },
    }
}

/// After the identifier at `p`: `(params) =` of a function definition
/// `name(params) = expr`, with the position of the body.
pub open spec fn legacy_head(t: Seq<TokenModel>, p: int) -> Option<(Seq<Seq<char>>, int)> {
    if kind_at(t, p + 1) == Kind::LParen {
        match legacy_params(t, p + 2) {
            Some((params, q)) => if kind_at(t, q) == Kind::RParen && kind_at(t, q + 1) == Kind::Eq {
                Some((params, q + 2))
            } else {
                None
            },
            None => None,
        }
    } else {
        None
    }
}

/// A statement starting with an identifier: `name(params) = expr` (a
/// function), `name = expr`, or an expression.
#[verifier::opaque]
pub open spec fn stmt_ident(t: Seq<TokenModel>, name: Seq<char>, p: int) -> StmtResult {
    match legacy_head(t, p) {
        Some((params, q)) => match p_expr(t, q) {
            Err(e) => Err(e),
            Ok((body, q2)) => Ok(
                (
                    StmtModel::FnDef(name, untyped(params), None, seq![StmtModel::ExprStmt(body)]),
                    skip_newlines(t, q2),
                ),
            ),
        },
        None => if kind_at(t, p + 1) == Kind::Eq {
            assign_stmt(t, name, p + 2)
        } else {
            expr_stmt(t, p)
        },
    }
}

/// `stmt`: after any newlines, a `let`, `while`, `if`, `for`, `return`,
/// `fn` or `use` statement, a cell assignment, a function or variable
/// assignment, or an expression.
pub open spec fn p_stmt(t: Seq<TokenModel>, p: int) -> StmtResult
    decreases t.len() - p, 5int,
{
    let p0 = skip_newlines(t, p);
    match tok(t, p0) {
        TokenModel::Let => p_let(t, p0),
        TokenModel::While => p_while(t, p0),
        TokenModel::If => p_if(t, p0),
        TokenModel::For => p_for(t, p0),
        TokenModel::Return => p_return(t, p0),
        TokenModel::Fn => p_fn_def(t, p0),
        TokenModel::Use => p_use(t, p0),
        TokenModel::At => stmt_at(t, p0),
        TokenModel::Ident(name) => stmt_ident(t, name, p0),
        _ => expr_stmt(t, p0),
    }
}

/// `'(' expr ')'` or `expr`: the condition of a `while` or an `if`.
#[verifier::opaque]
pub open spec fn condition(t: Seq<TokenModel>, p: int) -> Result<(ExprModel, int), ErrModel> {
    if kind_at(t, p) == Kind::LParen {
        match p_expr(t, p + 1) {
            Err(e) => Err(e),
            Ok((c, q)) => match expect(t, q, Kind::RParen) {
                Err(e) => Err(e),
                Ok(q1) => Ok((c, q1)),
            },
        }
    } else {
        p_expr(t, p)
    }
}

/// `while cond block`.
pub open spec fn p_while(t: Seq<TokenModel>, p: int) -> StmtResult
    decreases t.len() - p, 4int,
{
    match expect(t, p, Kind::While) {
        Err(e) => Err(e),
        Ok(p1) => match condition(t, p1) {
            Err(e) => Err(e),
            Ok((c, q)) => {
                let q1 = skip_newlines(t, q);
                if !moved(t.len() as int, p, q1) {
                    Err(ErrModel::Stalled)
                } else {
                    match p_block(t, q1) {
                        Err(e) => Err(e),
                        Ok((body, q2)) => Ok((StmtModel::While(c, body), q2)),
                    }
                }
            },
        },
    }
}

/// `if cond block ('else' (if-statement | block))?`.
pub open spec fn p_if(t: Seq<TokenModel>, p: int) -> StmtResult
    decreases t.len() - p, 4int,
{
    match expect(t, p, Kind::If) {
        Err(e) => Err(e),
        Ok(p1) => match condition(t, p1) {
            Err(e) => Err(e),
            Ok((c, q)) => {
                let q1 = skip_newlines(t, q);
                if !moved(t.len() as int, p, q1) {
                    Err(ErrModel::Stalled)
                } else {
                    match p_block(t, q1) {
                        Err(e) => Err(e),
                        Ok((then_body, q2)) => {
                            let q3 = skip_newlines(t, q2);
                            if !moved(t.len() as int, p, q3) {
                                Err(ErrModel::Stalled)
                            } else if kind_at(t, q3) == Kind::Else {
                                let q4 = skip_newlines(t, q3 + 1);
                                if !moved(t.len() as int, p, q4) {
                                    Err(ErrModel::Stalled)
                                } else if kind_at(t, q4) == Kind::If {
                                    match p_if(t, q4) {
                                        Err(e) => Err(e),
                                        Ok((s, q5)) => Ok((StmtModel::IfElse(c, then_body, Some(seq![s])), q5)),
                                    }
                                } else {
                                    match p_block(t, q4) {
                                        Err(e) => Err(e),
                                        Ok((b, q5)) => Ok((StmtModel::IfElse(c, then_body, Some(b)), q5)),
                                    }
                                }
                            } else {
                                Ok((StmtModel::IfElse(c, then_body, None), q3))
                            }
                        },
                    }
                }
            },
        },
    }
}

/// `for var in expr block`.
pub open spec fn p_for(t: Seq<TokenModel>, p: int) -> StmtResult
    decreases t.len() - p, 4int,
{
    match expect(t, p, Kind::For) {
        Err(e) => Err(e),
        Ok(p1) => match tok(t, p1) {
            TokenModel::Ident(var) => match expect(t, p1 + 1, Kind::In) {
                Err(e) => Err(e),
                Ok(p2) => match p_expr(t, p2) {
                    Err(e) => Err(e),
                    Ok((it, q)) => {
                        let q1 = skip_newlines(t, q);
                        if !moved(t.len() as int, p, q1) {
                            Err(ErrModel::Stalled)
                        } else {
                            match p_block(t, q1) {
                                Err(e) => Err(e),
                                Ok((body, q2)) => Ok((StmtModel::ForLoop(var, it, body), q2)),
                            }
                        }
                    },
                },
            },
            other => Err(ErrModel::Missing(Wanted::LoopVar, other)),
        },
    }
}

/// `fn name(params) ('->' type)? block`.
pub open spec fn p_fn_def(t: Seq<TokenModel>, p: int) -> StmtResult
    decreases t.len() - p, 4int,
{
    match expect(t, p, Kind::Fn) {
        Err(e) => Err(e),
        Ok(p1) => match tok(t, p1) {
            TokenModel::Ident(name) => match expect(t, p1 + 1, Kind::LParen) {
                Err(e) => Err(e),
                Ok(p2) => match typed_params(t, p2) {
                    Err(e) => Err(e),
                    Ok((params, p3)) => match expect(t, p3, Kind::RParen) {
                        Err(e) => Err(e),
                        Ok(p4) => {
                            let ret: Result<(Option<Seq<char>>, int), ErrModel> = if kind_at(t, p4) == Kind::Arrow {
                                match tok(t, p4 + 1) {
                                    TokenModel::Ident(r) => Ok((Some(r), p4 + 2)),
                                    other => Err(ErrModel::Missing(Wanted::ReturnType, other)),
                                }
                            } else {
                                Ok((None, p4))
                            };
                            match ret {
                                Err(e) => Err(e),
                                Ok((rt, q)) => {
                                    let q1 = skip_newlines(t, q);
                                    if !moved(t.len() as int, p, q1) {
                                        Err(ErrModel::Stalled)
                                    } else {
                                        match p_block(t, q1) {
                                            Err(e) => Err(e),
                                            Ok((body, q2)) => Ok((StmtModel::FnDef(name, params, rt, body), q2)),
                                        }
                                    }
                                },
                            }
                        },
                    },
                },
            },
            other => Err(ErrModel::Missing(Wanted::FnName, other)),
        },
    }
}

/// `'{' stmt* '}'`.
pub open spec fn p_block(t: Seq<TokenModel>, p: int) -> StmtsResult
    decreases t.len() - p, 3int,
{
    match expect(t, p, Kind::LBrace) {
        Err(e) => Err(e),
        Ok(p1) => {
            let q = skip_newlines(t, p1);
            if !moved(t.len() as int, p, q) {
                Err(ErrModel::Stalled)
            } else {
                match block_tail(t, seq![], q) {
                    Err(e) => Err(e),
                    Ok((stmts, q2)) => match expect(t, q2, Kind::RBrace) {
                        Err(e) => Err(e),
                        Ok(q3) => Ok((stmts, q3)),
                    },
                }
            }
        },
    }
}

/// The statements of a block after `acc`, up to a `}` or the end.
pub open spec fn block_tail(t: Seq<TokenModel>, acc: Seq<StmtModel>, p: int) -> StmtsResult
    decreases t.len() - p, 6int,
{
    if kind_at(t, p) == Kind::RBrace || kind_at(t, p) == Kind::Eof {
        Ok((acc, p))
    } else {
        match p_stmt(t, p) {
            Err(e) => Err(e),
            Ok((s, q)) => {
                let q1 = skip_newlines(t, q);
                if !moved(t.len() as int, p, q1) {
                    Err(ErrModel::Stalled)
                } else {
                    block_tail(t, acc.push(s), q1)
                }
            },
        }
    }
}

/// The statements of a program after `acc`, up to the end.
pub open spec fn program_tail(t: Seq<TokenModel>, acc: Seq<StmtModel>, p: int) -> Result<Seq<StmtModel>, ErrModel>
    decreases t.len() - p,
{
    if kind_at(t, p) == Kind::Eof {
        Ok(acc)
    } else {
        match p_stmt(t, p) {
            Err(e) => Err(e),
            Ok((s, q)) => {
                let q1 = skip_newlines(t, q);
                if !moved(t.len() as int, p, q1) {
                    Err(ErrModel::Stalled)
                } else {
                    program_tail(t, acc.push(s), q1)
                }
            },
        }
    }
}

/// A program: statements up to the end of the tokens.
pub open spec fn p_program(t: Seq<TokenModel>) -> Result<Seq<StmtModel>, ErrModel> {
    program_tail(t, seq![], skip_newlines(t, 0))
}

// ---------------------------------------------------------------------------
// The statement parser
// ---------------------------------------------------------------------------

/// A statement result as a value.
pub open spec fn stmt_res(r: Result<(Stmt, usize), ParseError>) -> StmtResult {
    match r {
        Ok((st, q)) => Ok((stmt_view(st), q as int)),
        Err(x) => Err(err_view(x)),
    }
}

/// A statement list result as a value.
pub open spec fn stmts_res(r: Result<(Vec<Stmt>, usize), ParseError>) -> StmtsResult {
    match r {
        Ok((sts, q)) => Ok((stmts_view(sts@), q as int)),
        Err(x) => Err(err_view(x)),
    }
}

/// A name list result as a value.
pub open spec fn names_res(r: Result<(Vec<String>, usize), ParseError>) -> Result<(Seq<Seq<char>>, int), ErrModel> {
    match r {
        Ok((ns, q)) => Ok((names_view(ns@), q as int)),
        Err(x) => Err(err_view(x)),
    }
}

/// A parameter list result as a value.
pub open spec fn params_res(r: Result<(Vec<(String, Option<String>)>, usize), ParseError>) -> Result<(Seq<(Seq<char>, Option<Seq<char>>)>, int), ErrModel> {
    match r {
        Ok((ps, q)) => Ok((params_view(ps@), q as int)),
        Err(x) => Err(err_view(x)),
    }
}

/// `stmt_view` one level down.
proof fn lemma_stmt_view(st: Stmt)
    ensures
        stmt_view(st) == match st {
            Stmt::Let(name, ty, e) => StmtModel::Let(name@, opt_view(ty), expr_view(e)),
            Stmt::Assign(name, e) => StmtModel::Assign(name@, expr_view(e)),
            Stmt::While(c, body) => StmtModel::While(expr_view(c), stmts_view(body@)),
            Stmt::IfElse(c, th, el) => StmtModel::IfElse(
                expr_view(c),
                stmts_view(th@),
                match el {
                    Some(b) => Some(stmts_view(b@)),
                    None => None,
                },
            ),
            Stmt::ForLoop(v, it, body) => StmtModel::ForLoop(v@, expr_view(it), stmts_view(body@)),
            Stmt::FnDef { name, params, return_type, body } => StmtModel::FnDef(
                name@,
                params_view(params@),
                opt_view(return_type),
                stmts_view(body@),
            ),
            Stmt::Return(e) => StmtModel::Return(expr_view(e)),
            Stmt::Use(m, item) => StmtModel::Use(m@, opt_view(item)),
            Stmt::CellAssign { block, table, cell, value } => StmtModel::CellAssign(
                opt_view(block),
                table@,
                cell,
                expr_view(value),
            ),
            Stmt::SolveDef { name, params, target_var, source_fn, source_args, result_var } =>
                StmtModel::SolveDef(
                name@,
                names_view(params@),
                target_var@,
                source_fn@,
                names_view(source_args@),
                result_var@,
            ),
            Stmt::ExprStmt(e) => StmtModel::ExprStmt(expr_view(e)),
        },
{
}

/// `err_view` one level down.
proof fn lemma_err_view(e: ParseError)
    ensures
        err_view(e) == match e {
            ParseError::Expected { expected, got } => ErrModel::Expected(expected, token_view(got)),
            ParseError::Missing { wanted, got } => ErrModel::Missing(wanted, token_view(got)),
            ParseError::TargetBeforeWhere => ErrModel::TargetBeforeWhere,
            ParseError::InvalidCellAddress(s) => ErrModel::InvalidCellAddress(s@),
            ParseError::Unexpected(t) => ErrModel::Unexpected(token_view(t)),
            ParseError::AssignWholeTable => ErrModel::AssignWholeTable,
            ParseError::AssignRange => ErrModel::AssignRange,
            ParseError::CellAssignForm => ErrModel::CellAssignForm,
        },
{
    reveal(err_view);
}

/// The error for a missing `w` at `p`.
fn missing(toks: &[Token], p: usize, w: Wanted) -> (e: ParseError)
    ensures
        err_view(e) == ErrModel::Missing(w, tok(token_values(toks@), p as int)),
{
    let e = ParseError::Missing { wanted: w, got: tok_clone(toks, p) };
    proof {
        lemma_err_view(e);
    }
    e
}

/// Whether the token at `p` is `*`.
fn star_at(toks: &[Token], p: usize) -> (r: bool)
    ensures
        r == (tok(token_values(toks@), p as int) == TokenModel::Star),
{
    reveal(token_values);
    if p < toks.len() {
        match &toks[p] {
            Token::Star => true,
            _ => false,
        }
    } else {
        false
    }
}

fn skip_newlines_exec(toks: &[Token], p: usize) -> (r: usize)
    requires
        p <= toks@.len(),
    ensures
        r as int == skip_newlines(token_values(toks@), p as int),
        p <= r <= toks@.len(),
{
    proof {
        lemma_token_values_len(toks@);
    }
    let ghost t = token_values(toks@);
    let mut q = p;
    while kind_at_exec(toks, q) == Kind::Newline
        invariant
            t == token_values(toks@),
            t.len() == toks@.len(),
            p <= q <= toks@.len(),
            skip_newlines(t, q as int) == skip_newlines(t, p as int),
        decreases toks@.len() - q,
    {
        q = q + 1;
    }
    q
}

proof fn lemma_names_view_push(s: Seq<String>, x: String)
    ensures
        names_view(s.push(x)) == names_view(s).push(x@),
{
    assert(names_view(s.push(x)) =~= names_view(s).push(x@));
}

proof fn lemma_params_view_push(s: Seq<(String, Option<String>)>, x: (String, Option<String>))
    ensures
        params_view(s.push(x)) == params_view(s).push(param_view(x)),
{
    assert(params_view(s.push(x)) =~= params_view(s).push(param_view(x)));
}

/// The names of `name(a, b) = …` before the `)`; see `legacy_params`.
fn legacy_params_exec(toks: &[Token], p: usize) -> (r: Option<(Vec<String>, usize)>)
    requires
        p <= toks@.len(),
    ensures
        match r {
            Some((ns, q)) => legacy_params(token_values(toks@), p as int) == Some((names_view(ns@), q as int))
                && p <= q <= toks@.len(),
            None => legacy_params(token_values(toks@), p as int) is None,
        },
{
    proof {
        lemma_token_values_len(toks@);
    }
    let ghost t = token_values(toks@);
    let mut names: Vec<String> = Vec::new();
    if kind_at_exec(toks, p) == Kind::RParen {
        proof {
            assert(names_view(names@) =~= seq![]);
        }
        return Some((names, p));
    }
    let first = match ident_at(toks, p) {
        Some(x) => x,
        None => return None,
    };
    proof {
        lemma_names_view_push(names@, first);
        assert(names_view(names@) =~= seq![]);
    }
    names.push(first);
    let mut q = p + 1;
    while kind_at_exec(toks, q) == Kind::Comma
        invariant
            t == token_values(toks@),
            t.len() == toks@.len(),
            p < q <= toks@.len(),
            legacy_more(t, names_view(names@), q as int) == legacy_params(t, p as int),
        decreases toks@.len() - q,
    {
        let x = match ident_at(toks, q + 1) {
            Some(x) => x,
            None => return None,
        };
        proof {
            lemma_names_view_push(names@, x);
        }
        names.push(x);
        q = q + 2;
    }
    Some((names, q))
}

/// `(ident (',' ident)*)?` before a `)`; see `name_list`.
fn name_list_exec(toks: &[Token], p: usize, w: Wanted) -> (r: Result<(Vec<String>, usize), ParseError>)
    requires
        p <= toks@.len(),
    ensures
        names_res(r) == name_list(token_values(toks@), p as int, w),
        r matches Ok((_, q)) ==> p <= q <= toks@.len(),
{
    proof {
        lemma_token_values_len(toks@);
    }
    let ghost t = token_values(toks@);
    let mut names: Vec<String> = Vec::new();
    if kind_at_exec(toks, p) == Kind::RParen {
        proof {
            assert(names_view(names@) =~= seq![]);
        }
        return Ok((names, p));
    }
    let first = match ident_at(toks, p) {
        Some(x) => x,
        None => return Err(missing(toks, p, w)),
    };
    proof {
        lemma_names_view_push(names@, first);
        assert(names_view(names@) =~= seq![]);
    }
    names.push(first);
    let mut q = p + 1;
    while kind_at_exec(toks, q) == Kind::Comma
        invariant
            t == token_values(toks@),
            t.len() == toks@.len(),
            p < q <= toks@.len(),
            name_more(t, names_view(names@), q as int, w) == name_list(t, p as int, w),
        decreases toks@.len() - q,
    {
        let x = match ident_at(toks, q + 1) {
            Some(x) => x,
            None => return Err(missing(toks, q + 1, w)),
        };
        proof {
            lemma_names_view_push(names@, x);
        }
        names.push(x);
        q = q + 2;
    }
    Ok((names, q))
}

fn typed_param_exec(toks: &[Token], p: usize) -> (r: Result<((String, Option<String>), usize), ParseError>)
    requires
        p <= toks@.len(),
    ensures
        match r {
            Ok((x, q)) => typed_param(token_values(toks@), p as int) == Ok::<((Seq<char>, Option<Seq<char>>), int), ErrModel>((param_view(x), q as int))
                && p < q <= toks@.len(),
            Err(e) => typed_param(token_values(toks@), p as int) == Err::<((Seq<char>, Option<Seq<char>>), int), ErrModel>(err_view(e)),
        },
{
    proof {
        lemma_token_values_len(toks@);
    }
    let name = match ident_at(toks, p) {
        Some(x) => x,
        None => return Err(missing(toks, p, Wanted::ParamName)),
    };
    if kind_at_exec(toks, p + 1) == Kind::Colon {
        match ident_at(toks, p + 2) {
            Some(ty) => Ok(((name, Some(ty)), p + 3)),
            None => Err(missing(toks, p + 2, Wanted::ParamType)),
        }
    } else {
        Ok(((name, None), p + 1))
    }
}

/// `(param (',' param)*)?` before a `)`; see `typed_params`.
fn typed_params_exec(toks: &[Token], p: usize) -> (r: Result<(Vec<(String, Option<String>)>, usize), ParseError>)
    requires
        p <= toks@.len(),
    ensures
        params_res(r) == typed_params(token_values(toks@), p as int),
        r matches Ok((_, q)) ==> p <= q <= toks@.len(),
{
    proof {
        lemma_token_values_len(toks@);
    }
    let ghost t = token_values(toks@);
    let mut params: Vec<(String, Option<String>)> = Vec::new();
    if kind_at_exec(toks, p) == Kind::RParen {
        proof {
            assert(params_view(params@) =~= seq![]);
        }
        return Ok((params, p));
    }
    let (first, q0) = match typed_param_exec(toks, p) {
        Ok(v) => v,
        Err(e) => return Err(e),
    };
    proof {
        lemma_params_view_push(params@, first);
        assert(params_view(params@) =~= seq![]);
    }
    params.push(first);
    let mut q = q0;
    while kind_at_exec(toks, q) == Kind::Comma
        invariant
            t == token_values(toks@),
            t.len() == toks@.len(),
            p < q <= toks@.len(),
            typed_more(t, params_view(params@), q as int) == typed_params(t, p as int),
        decreases toks@.len() - q,
    {
        let (x, q2) = match typed_param_exec(toks, q + 1) {
            Ok(v) => v,
            Err(e) => return Err(e),
        };
        proof {
            lemma_params_view_push(params@, x);
        }
        params.push(x);
        q = q2;
    }
    Ok((params, q))
}

fn untyped_exec(names: Vec<String>) -> (r: Vec<(String, Option<String>)>)
    ensures
        params_view(r@) == untyped(names_view(names@)),
{
    let mut out: Vec<(String, Option<String>)> = Vec::new();
    let mut i: usize = 0;
    while i < names.len()
        invariant
            i <= names@.len(),
            params_view(out@) == untyped(names_view(names@.take(i as int))),
        decreases names@.len() - i,
    {
        proof {
            lemma_params_view_push(out@, (names@[i as int], None));
            assert(names_view(names@.take(i + 1)) =~= names_view(names@.take(i as int)).push(names@[i as int]@));
            assert(untyped(names_view(names@.take(i + 1))) =~= untyped(names_view(names@.take(i as int))).push(
                (names@[i as int]@, None),
            ));
        }
        out.push((names[i].clone(), None));
        i += 1;
    }
    proof {
        assert(names@.take(names@.len() as int) =~= names@);
    }
    out
}

fn expr_stmt_exec(toks: &[Token], p: usize) -> (r: Result<(Stmt, usize), ParseError>)
    requires
        p <= toks@.len(),
    ensures
        stmt_res(r) == expr_stmt(token_values(toks@), p as int),
        r matches Ok((_, q)) ==> p < q <= toks@.len(),
{
    reveal(expr_stmt);
    let (x, q) = match parse_expr(toks, p) {
        Ok(v) => v,
        Err(e) => return Err(e),
    };
    let q1 = skip_newlines_exec(toks, q);
    let st = Stmt::ExprStmt(x);
    proof {
        lemma_stmt_view(st);
    }
    Ok((st, q1))
}

fn let_with_params_exec(toks: &[Token], name: String, p: usize) -> (r: Result<(Stmt, usize), ParseError>)
    requires
        p <= toks@.len(),
    ensures
        stmt_res(r) == let_with_params(token_values(toks@), name@, p as int),
        r matches Ok((_, q)) ==> p < q <= toks@.len(),
{
    reveal(let_with_params);
    proof {
        lemma_token_values_len(toks@);
    }
    let p1 = match expect_exec(toks, p, Kind::LParen) {
        Ok(v) => v,
        Err(e) => return Err(e),
    };
    let (params, p2) = match name_list_exec(toks, p1, Wanted::ParamName) {
        Ok(v) => v,
        Err(e) => return Err(e),
    };
    let p3 = match expect_exec(toks, p2, Kind::RParen) {
        Ok(v) => v,
        Err(e) => return Err(e),
    };
    let p4 = match expect_exec(toks, p3, Kind::Eq) {
        Ok(v) => v,
        Err(e) => return Err(e),
    };
    let (rhs, q) = match parse_expr(toks, p4) {
        Ok(v) => v,
        Err(e) => return Err(e),
    };
    let is_where = match ident_at(toks, q) {
        Some(w) => str_equal(w.as_str(), "where"),
        None => false,
    };
    if is_where {
        proof {
            lemma_view_ident(rhs);
        }
        let target = match rhs {
            Expr::Ident(s) => s,
            _ => {
                let e = ParseError::TargetBeforeWhere;
                proof {
                    lemma_err_view(e);
                }
                return Err(e);
            },
        };
        let src = match ident_at(toks, q + 1) {
            Some(x) => x,
            None => return Err(missing(toks, q + 1, Wanted::SourceAfterWhere)),
        };
        let q1 = match expect_exec(toks, q + 2, Kind::LParen) {
            Ok(v) => v,
            Err(e) => return Err(e),
        };
        let (args, q2) = match name_list_exec(toks, q1, Wanted::ArgName) {
            Ok(v) => v,
            Err(e) => return Err(e),
        };
        let q3 = match expect_exec(toks, q2, Kind::RParen) {
            Ok(v) => v,
            Err(e) => return Err(e),
        };
        let q4 = match expect_exec(toks, q3, Kind::Eq) {
            Ok(v) => v,
            Err(e) => return Err(e),
        };
        let result = match ident_at(toks, q4) {
            Some(x) => x,
            None => return Err(missing(toks, q4, Wanted::ResultAfterEq)),
        };
        let q5 = skip_newlines_exec(toks, q4 + 1);
        let st = Stmt::SolveDef { name, params, target_var: target, source_fn: src, source_args: args, result_var: result };
        proof {
            lemma_stmt_view(st);
        }
        Ok((st, q5))
    } else {
        let q1 = skip_newlines_exec(toks, q);
        let body_stmt = Stmt::ExprStmt(rhs);
        let mut body: Vec<Stmt> = Vec::new();
        proof {
            lemma_stmt_view(body_stmt);
            lemma_stmts_view_push(body@, body_stmt);
            assert(stmts_view(body@) =~= seq![]);
        }
        let ghost bv = stmt_view(body_stmt);
        body.push(body_stmt);
        assert(stmts_view(body@) =~= seq![bv]);
        let st = Stmt::FnDef { name, params: untyped_exec(params), return_type: None, body };
        proof {
            lemma_stmt_view(st);
        }
        Ok((st, q1))
    }
}

/// Parses a `let` statement; see `p_let`.
fn parse_let(toks: &[Token], p: usize) -> (r: Result<(Stmt, usize), ParseError>)
    requires
        p <= toks@.len(),
    ensures
        stmt_res(r) == p_let(token_values(toks@), p as int),
        r matches Ok((_, q)) ==> p < q <= toks@.len(),
{
    reveal(p_let);
    proof {
        lemma_token_values_len(toks@);
    }
    let p1 = match expect_exec(toks, p, Kind::Let) {
        Ok(v) => v,
        Err(e) => return Err(e),
    };
    let name = match ident_at(toks, p1) {
        Some(x) => x,
        None => return Err(missing(toks, p1, Wanted::IdentAfterLet)),
    };
    if kind_at_exec(toks, p1 + 1) == Kind::LParen {
        return let_with_params_exec(toks, name, p1 + 1);
    }
    let (ty, q) = if kind_at_exec(toks, p1 + 1) == Kind::Colon {
        match ident_at(toks, p1 + 2) {
            Some(x) => (Some(x), p1 + 3),
            None => return Err(missing(toks, p1 + 2, Wanted::TypeNameAfterColon)),
        }
    } else {
        (None, p1 + 1)
    };
    let q1 = match expect_exec(toks, q, Kind::Eq) {
        Ok(v) => v,
        Err(e) => return Err(e),
    };
    let (x, q2) = match parse_expr(toks, q1) {
        Ok(v) => v,
        Err(e) => return Err(e),
    };
    let q3 = skip_newlines_exec(toks, q2);
    let st = Stmt::Let(name, ty, x);
    proof {
        lemma_stmt_view(st);
    }
    Ok((st, q3))
}

/// Parses a `return` statement; see `p_return`.
fn parse_return(toks: &[Token], p: usize) -> (r: Result<(Stmt, usize), ParseError>)
    requires
        p <= toks@.len(),
    ensures
        stmt_res(r) == p_return(token_values(toks@), p as int),
        r matches Ok((_, q)) ==> p < q <= toks@.len(),
{
    reveal(p_return);
    let p1 = match expect_exec(toks, p, Kind::Return) {
        Ok(v) => v,
        Err(e) => return Err(e),
    };
    let k = kind_at_exec(toks, p1);
    if k == Kind::Newline || k == Kind::Eof || k == Kind::RBrace {
        let x = Expr::Bool(false);
        proof {
            lemma_expr_view(x);
        }
        let st = Stmt::Return(x);
        proof {
            lemma_stmt_view(st);
        }
        return Ok((st, p1));
    }
    let (x, q) = match parse_expr(toks, p1) {
        Ok(v) => v,
        Err(e) => return Err(e),
    };
    let q1 = skip_newlines_exec(toks, q);
    let st = Stmt::Return(x);
    proof {
        lemma_stmt_view(st);
    }
    Ok((st, q1))
}

/// Parses a `use` statement; see `p_use`.
fn parse_use(toks: &[Token], p: usize) -> (r: Result<(Stmt, usize), ParseError>)
    requires
        p <= toks@.len(),
    ensures
        stmt_res(r) == p_use(token_values(toks@), p as int),
        r matches Ok((_, q)) ==> p < q <= toks@.len(),
{
    reveal(p_use);
    proof {
        lemma_token_values_len(toks@);
    }
    let p1 = match expect_exec(toks, p, Kind::Use) {
        Ok(v) => v,
        Err(e) => return Err(e),
    };
    let m = match ident_at(toks, p1) {
        Some(x) => x,
        None => return Err(missing(toks, p1, Wanted::ModuleAfterUse)),
    };
    if kind_at_exec(toks, p1 + 1) == Kind::ColonColon {
        let item = match ident_at(toks, p1 + 2) {
            Some(x) => x,
            None => if star_at(toks, p1 + 2) {
                crate::text::string_from("*")
            } else {
                return Err(missing(toks, p1 + 2, Wanted::ItemAfterColons));
            },
        };
        let q = skip_newlines_exec(toks, p1 + 3);
        let st = Stmt::Use(m, Some(item));
        proof {
            lemma_stmt_view(st);
        }
        Ok((st, q))
    } else {
        let q = skip_newlines_exec(toks, p1 + 1);
        let st = Stmt::Use(m, None);
        proof {
            lemma_stmt_view(st);
        }
        Ok((st, q))
    }
}

/// Parses a statement starting with `@`; see `stmt_at`.
fn stmt_at_exec(toks: &[Token], p: usize) -> (r: Result<(Stmt, usize), ParseError>)
    requires
        p <= toks@.len(),
    ensures
        stmt_res(r) == stmt_at(token_values(toks@), p as int),
        r matches Ok((_, q)) ==> p < q <= toks@.len(),
{
    reveal(stmt_at);
    let (cref, p1) = match parse_cell_ref(toks, p) {
        Ok(v) => v,
        Err(e) => return Err(e),
    };
    if kind_at_exec(toks, p1) != Kind::Eq {
        return expr_stmt_exec(toks, p);
    }
    let (value, q) = match parse_expr(toks, p1 + 1) {
        Ok(v) => v,
        Err(e) => return Err(e),
    };
    proof {
        lemma_expr_view(cref);
    }
    let err = match cref {
        Expr::CellRef { block, table, target } => match (table, target) {
            (Some(tb), CellRefTarget::Cell(c, rw)) => {
                let q1 = skip_newlines_exec(toks, q);
                let st = Stmt::CellAssign { block, table: tb, cell: (c, rw), value };
                proof {
                    lemma_stmt_view(st);
                }
                return Ok((st, q1));
            },
            (_, CellRefTarget::Whole) => ParseError::AssignWholeTable,
            (_, CellRefTarget::Range(..)) => ParseError::AssignRange,
            _ => ParseError::CellAssignForm,
        },
        _ => ParseError::CellAssignForm,
    };
    proof {
        lemma_err_view(err);
    }
    Err(err)
}

fn legacy_head_exec(toks: &[Token], p: usize) -> (r: Option<(Vec<String>, usize)>)
    requires
        p < toks@.len(),
    ensures
        match r {
            Some((ns, q)) => legacy_head(token_values(toks@), p as int) == Some((names_view(ns@), q as int))
                && p < q <= toks@.len(),
            None => legacy_head(token_values(toks@), p as int) is None,
        },
{
    proof {
        lemma_token_values_len(toks@);
    }
    let _n = toks.len();
    if kind_at_exec(toks, p + 1) != Kind::LParen {
        return None;
    }
    match legacy_params_exec(toks, p + 2) {
        Some((params, q)) => if kind_at_exec(toks, q) == Kind::RParen && kind_at_exec(toks, q + 1) == Kind::Eq {
            Some((params, q + 2))
        } else {
            None
        },
        None => None,
    }
}

proof fn lemma_stmt_ident_legacy(t: Seq<TokenModel>, name: Seq<char>, p: int, params: Seq<Seq<char>>, q: int)
    requires
        legacy_head(t, p) == Some((params, q)),
    ensures
        stmt_ident(t, name, p) == match p_expr(t, q) {
            Err(e) => Err(e),
            Ok((body, q2)) => Ok(
                (
                    StmtModel::FnDef(name, untyped(params), None, seq![StmtModel::ExprStmt(body)]),
                    skip_newlines(t, q2),
                ),
            ),
        },
{
    reveal(stmt_ident);
}

proof fn lemma_stmt_ident_plain(t: Seq<TokenModel>, name: Seq<char>, p: int)
    requires
        legacy_head(t, p) is None,
    ensures
        stmt_ident(t, name, p) == if kind_at(t, p + 1) == Kind::Eq {
            assign_stmt(t, name, p + 2)
        } else {
            expr_stmt(t, p)
        },
{
    reveal(stmt_ident);
}

/// `name(params) = body`, the body at `q`.
fn legacy_def_exec(toks: &[Token], name: String, params: Vec<String>, q: usize) -> (r: Result<(Stmt, usize), ParseError>)
    requires
        q <= toks@.len(),
    ensures
        stmt_res(r) == match p_expr(token_values(toks@), q as int) {
            Err(e) => Err(e),
            Ok((body, q2)) => Ok(
                (
                    StmtModel::FnDef(name@, untyped(names_view(params@)), None, seq![StmtModel::ExprStmt(body)]),
                    skip_newlines(token_values(toks@), q2),
                ),
            ),
        },
        r matches Ok((_, q2)) ==> q < q2 <= toks@.len(),
{
    let (body_expr, q2) = match parse_expr(toks, q) {
        Ok(v) => v,
        Err(e) => return Err(e),
    };
    let q3 = skip_newlines_exec(toks, q2);
    let body_stmt = Stmt::ExprStmt(body_expr);
    let mut body: Vec<Stmt> = Vec::new();
    proof {
        lemma_stmt_view(body_stmt);
        lemma_stmts_view_push(body@, body_stmt);
        assert(stmts_view(body@) =~= seq![]);
    }
    let ghost bv = stmt_view(body_stmt);
    body.push(body_stmt);
    assert(stmts_view(body@) =~= seq![bv]);
    let st = Stmt::FnDef { name, params: untyped_exec(params), return_type: None, body };
    proof {
        lemma_stmt_view(st);
    }
    Ok((st, q3))
}

/// Parses a statement starting with the identifier `name` at `p`; see
/// `stmt_ident`.
fn stmt_ident_exec(toks: &[Token], name: String, p: usize) -> (r: Result<(Stmt, usize), ParseError>)
    requires
        p < toks@.len(),
    ensures
        stmt_res(r) == stmt_ident(token_values(toks@), name@, p as int),
        r matches Ok((_, q)) ==> p < q <= toks@.len(),
{
    proof {
        lemma_token_values_len(toks@);
    }
    let ghost t = token_values(toks@);
    match legacy_head_exec(toks, p) {
        Some((params, q)) => {
            proof {
                lemma_stmt_ident_legacy(t, name@, p as int, names_view(params@), q as int);
            }
            return legacy_def_exec(toks, name, params, q);
        },
        None => {},
    }
    proof {
        lemma_stmt_ident_plain(t, name@, p as int);
    }
    assign_or_expr_exec(toks, name, p)
}

/// `name = expr` or an expression statement, at the identifier at `p`.
fn assign_or_expr_exec(toks: &[Token], name: String, p: usize) -> (r: Result<(Stmt, usize), ParseError>)
    requires
        p < toks@.len(),
    ensures
        stmt_res(r) == if kind_at(token_values(toks@), p + 1) == Kind::Eq {
            assign_stmt(token_values(toks@), name@, p + 2)
        } else {
            expr_stmt(token_values(toks@), p as int)
        },
        r matches Ok((_, q)) ==> p < q <= toks@.len(),
{
    let _n = toks.len();
    if kind_at_exec(toks, p + 1) == Kind::Eq {
        assign_exec(toks, name, p + 2)
    } else {
        expr_stmt_exec(toks, p)
    }
}

/// `name = expr`, the expression at `p`.
#[verifier::opaque]
pub open spec fn assign_stmt(t: Seq<TokenModel>, name: Seq<char>, p: int) -> StmtResult {
    match p_expr(t, p) {
        Err(e) => Err(e),
        Ok((x, q)) => Ok((StmtModel::Assign(name, x), skip_newlines(t, q))),
    }
}

fn assign_exec(toks: &[Token], name: String, p: usize) -> (r: Result<(Stmt, usize), ParseError>)
    requires
        p <= toks@.len(),
    ensures
        stmt_res(r) == assign_stmt(token_values(toks@), name@, p as int),
        r matches Ok((_, q)) ==> p < q <= toks@.len(),
{
    reveal(assign_stmt);
    let (x, q) = match parse_expr(toks, p) {
        Ok(v) => v,
        Err(e) => return Err(e),
    };
    let q1 = skip_newlines_exec(toks, q);
    let st = Stmt::Assign(name, x);
    proof {
        lemma_stmt_view(st);
    }
    Ok((st, q1))
}

/// Parses the condition of a `while` or an `if`; see `condition`.
fn condition_exec(toks: &[Token], p: usize) -> (r: Result<(Expr, usize), ParseError>)
    requires
        p <= toks@.len(),
    ensures
        expr_res(r) == condition(token_values(toks@), p as int),
        ok_moved(r, toks@.len() as int, p as int),
{
    reveal(condition);
    if kind_at_exec(toks, p) == Kind::LParen {
        let (c, q) = match parse_expr(toks, p + 1) {
            Ok(v) => v,
            Err(e) => return Err(e),
        };
        let q1 = match expect_exec(toks, q, Kind::RParen) {
            Ok(v) => v,
            Err(e) => return Err(e),
        };
        Ok((c, q1))
    } else {
        parse_expr(toks, p)
    }
}

proof fn lemma_token_variant_stmt(tk: Token)
    ensures
        token_view(tk) is Let <==> tk is Let,
        token_view(tk) is While <==> tk is While,
        token_view(tk) is If <==> tk is If,
        token_view(tk) is For <==> tk is For,
        token_view(tk) is Return <==> tk is Return,
        token_view(tk) is Fn <==> tk is Fn,
        token_view(tk) is Use <==> tk is Use,
        token_view(tk) is At <==> tk is At,
        token_view(tk) is Ident <==> tk is Ident,
{
}

/// `p_stmt`, case by case, at the position after the newlines.
proof fn lemma_stmt_cases(t: Seq<TokenModel>, p: int)
    ensures
        ({
            let p0 = skip_newlines(t, p);
            match tok(t, p0) {
                TokenModel::Let => p_stmt(t, p) == p_let(t, p0),
                TokenModel::While => p_stmt(t, p) == p_while(t, p0),
                TokenModel::If => p_stmt(t, p) == p_if(t, p0),
                TokenModel::For => p_stmt(t, p) == p_for(t, p0),
                TokenModel::Return => p_stmt(t, p) == p_return(t, p0),
                TokenModel::Fn => p_stmt(t, p) == p_fn_def(t, p0),
                TokenModel::Use => p_stmt(t, p) == p_use(t, p0),
                TokenModel::At => p_stmt(t, p) == stmt_at(t, p0),
                TokenModel::Ident(name) => p_stmt(t, p) == stmt_ident(t, name, p0),
                _ => p_stmt(t, p) == expr_stmt(t, p0),
            }
        }),
{
}

/// Parses a statement from `p`; see `p_stmt`.
pub fn parse_stmt(toks: &[Token], p: usize) -> (r: Result<(Stmt, usize), ParseError>)
    requires
        p <= toks@.len(),
    ensures
        stmt_res(r) == p_stmt(token_values(toks@), p as int),
        r matches Ok((_, q)) ==> p < q <= toks@.len(),
    decreases toks@.len() - p, 5int,
{
    proof {
        lemma_token_values_len(toks@);
        lemma_stmt_cases(token_values(toks@), p as int);
    }
    let p0 = skip_newlines_exec(toks, p);
    if p0 >= toks.len() {
        return expr_stmt_exec(toks, p0);
    }
    proof {
        lemma_token_value_at(toks@, p0 as int);
        lemma_token_variant_stmt(toks@[p0 as int]);
    }
    match &toks[p0] {
        Token::Let => parse_let(toks, p0),
        Token::While => parse_while(toks, p0),
        Token::If => parse_if(toks, p0),
        Token::For => parse_for(toks, p0),
        Token::Return => parse_return(toks, p0),
        Token::Fn => parse_fn_def(toks, p0),
        Token::Use => parse_use(toks, p0),
        Token::At => stmt_at_exec(toks, p0),
        Token::Ident(name) => stmt_ident_exec(toks, name.clone(), p0),
        _ => expr_stmt_exec(toks, p0),
    }
}

fn one_stmt(st: Stmt) -> (r: Vec<Stmt>)
    ensures
        stmts_view(r@) == seq![stmt_view(st)],
{
    let mut v: Vec<Stmt> = Vec::new();
    proof {
        lemma_stmts_view_push(v@, st);
        assert(stmts_view(v@) =~= seq![]);
    }
    let ghost sv = stmt_view(st);
    v.push(st);
    assert(stmts_view(v@) =~= seq![sv]);
    v
}

fn parse_while(toks: &[Token], p: usize) -> (r: Result<(Stmt, usize), ParseError>)
    requires
        p <= toks@.len(),
    ensures
        stmt_res(r) == p_while(token_values(toks@), p as int),
        r matches Ok((_, q)) ==> p < q <= toks@.len(),
    decreases toks@.len() - p, 4int,
{
    proof {
        lemma_token_values_len(toks@);
    }
    let p1 = match expect_exec(toks, p, Kind::While) {
        Ok(v) => v,
        Err(e) => return Err(e),
    };
    let (c, q) = match condition_exec(toks, p1) {
        Ok(v) => v,
        Err(e) => return Err(e),
    };
    let q1 = skip_newlines_exec(toks, q);
    let (body, q2) = match parse_block(toks, q1) {
        Ok(v) => v,
        Err(e) => return Err(e),
    };
    let st = Stmt::While(c, body);
    proof {
        lemma_stmt_view(st);
    }
    Ok((st, q2))
}

fn parse_if(toks: &[Token], p: usize) -> (r: Result<(Stmt, usize), ParseError>)
    requires
        p <= toks@.len(),
    ensures
        stmt_res(r) == p_if(token_values(toks@), p as int),
        r matches Ok((_, q)) ==> p < q <= toks@.len(),
    decreases toks@.len() - p, 4int,
{
    proof {
        lemma_token_values_len(toks@);
    }
    let p1 = match expect_exec(toks, p, Kind::If) {
        Ok(v) => v,
        Err(e) => return Err(e),
    };
    let (c, q) = match condition_exec(toks, p1) {
        Ok(v) => v,
        Err(e) => return Err(e),
    };
    let q1 = skip_newlines_exec(toks, q);
    let (then_body, q2) = match parse_block(toks, q1) {
        Ok(v) => v,
        Err(e) => return Err(e),
    };
    let q3 = skip_newlines_exec(toks, q2);
    if kind_at_exec(toks, q3) == Kind::Else {
        let q4 = skip_newlines_exec(toks, q3 + 1);
        let (else_body, q5) = if kind_at_exec(toks, q4) == Kind::If {
            let (s, q5) = match parse_if(toks, q4) {
                Ok(v) => v,
                Err(e) => return Err(e),
            };
            (one_stmt(s), q5)
        } else {
            match parse_block(toks, q4) {
                Ok(v) => v,
                Err(e) => return Err(e),
            }
        };
        let st = Stmt::IfElse(c, then_body, Some(else_body));
        proof {
            lemma_stmt_view(st);
        }
        Ok((st, q5))
    } else {
        let st = Stmt::IfElse(c, then_body, None);
        proof {
            lemma_stmt_view(st);
        }
        Ok((st, q3))
    }
}

fn parse_for(toks: &[Token], p: usize) -> (r: Result<(Stmt, usize), ParseError>)
    requires
        p <= toks@.len(),
    ensures
        stmt_res(r) == p_for(token_values(toks@), p as int),
        r matches Ok((_, q)) ==> p < q <= toks@.len(),
    decreases toks@.len() - p, 4int,
{
    proof {
        lemma_token_values_len(toks@);
    }
    let p1 = match expect_exec(toks, p, Kind::For) {
        Ok(v) => v,
        Err(e) => return Err(e),
    };
    let var = match ident_at(toks, p1) {
        Some(x) => x,
        None => return Err(missing(toks, p1, Wanted::LoopVar)),
    };
    let p2 = match expect_exec(toks, p1 + 1, Kind::In) {
        Ok(v) => v,
        Err(e) => return Err(e),
    };
    let (it, q) = match parse_expr(toks, p2) {
        Ok(v) => v,
        Err(e) => return Err(e),
    };
    let q1 = skip_newlines_exec(toks, q);
    let (body, q2) = match parse_block(toks, q1) {
        Ok(v) => v,
        Err(e) => return Err(e),
    };
    let st = Stmt::ForLoop(var, it, body);
    proof {
        lemma_stmt_view(st);
    }
    Ok((st, q2))
}

fn parse_fn_def(toks: &[Token], p: usize) -> (r: Result<(Stmt, usize), ParseError>)
    requires
        p <= toks@.len(),
    ensures
        stmt_res(r) == p_fn_def(token_values(toks@), p as int),
        r matches Ok((_, q)) ==> p < q <= toks@.len(),
    decreases toks@.len() - p, 4int,
{
    proof {
        lemma_token_values_len(toks@);
    }
    let p1 = match expect_exec(toks, p, Kind::Fn) {
        Ok(v) => v,
        Err(e) => return Err(e),
    };
    let name = match ident_at(toks, p1) {
        Some(x) => x,
        None => return Err(missing(toks, p1, Wanted::FnName)),
    };
    let p2 = match expect_exec(toks, p1 + 1, Kind::LParen) {
        Ok(v) => v,
        Err(e) => return Err(e),
    };
    let (params, p3) = match typed_params_exec(toks, p2) {
        Ok(v) => v,
        Err(e) => return Err(e),
    };
    let p4 = match expect_exec(toks, p3, Kind::RParen) {
        Ok(v) => v,
        Err(e) => return Err(e),
    };
    let (rt, q) = if kind_at_exec(toks, p4) == Kind::Arrow {
        match ident_at(toks, p4 + 1) {
            Some(x) => (Some(x), p4 + 2),
            None => return Err(missing(toks, p4 + 1, Wanted::ReturnType)),
        }
    } else {
        (None, p4)
    };
    let q1 = skip_newlines_exec(toks, q);
    let (body, q2) = match parse_block(toks, q1) {
        Ok(v) => v,
        Err(e) => return Err(e),
    };
    let st = Stmt::FnDef { name, params, return_type: rt, body };
    proof {
        lemma_stmt_view(st);
    }
    Ok((st, q2))
}

fn block_ends(toks: &[Token], p: usize) -> (r: bool)
    ensures
        r == (kind_at(token_values(toks@), p as int) == Kind::RBrace || kind_at(token_values(toks@), p as int)
            == Kind::Eof),
{
    let k = kind_at_exec(toks, p);
    k == Kind::RBrace || k == Kind::Eof
}

proof fn lemma_block_tail_step(t: Seq<TokenModel>, acc: Seq<StmtModel>, p: int, st: StmtModel, q: int)
    requires
        !(kind_at(t, p) == Kind::RBrace || kind_at(t, p) == Kind::Eof),
        p_stmt(t, p) == Ok::<(StmtModel, int), ErrModel>((st, q)),
        moved(t.len() as int, p, skip_newlines(t, q)),
    ensures
        block_tail(t, acc, p) == block_tail(t, acc.push(st), skip_newlines(t, q)),
{
}

proof fn lemma_block_tail_end(t: Seq<TokenModel>, acc: Seq<StmtModel>, p: int)
    requires
        kind_at(t, p) == Kind::RBrace || kind_at(t, p) == Kind::Eof,
    ensures
        block_tail(t, acc, p) == Ok::<(Seq<StmtModel>, int), ErrModel>((acc, p)),
{
}

proof fn lemma_block_tail_err(t: Seq<TokenModel>, acc: Seq<StmtModel>, p: int, e: ErrModel)
    requires
        !(kind_at(t, p) == Kind::RBrace || kind_at(t, p) == Kind::Eof),
        p_stmt(t, p) == Err::<(StmtModel, int), ErrModel>(e),
    ensures
        block_tail(t, acc, p) == Err::<(Seq<StmtModel>, int), ErrModel>(e),
{
}

/// Parses a block `{ stmt* }`; see `p_block`.
fn parse_block(toks: &[Token], p: usize) -> (r: Result<(Vec<Stmt>, usize), ParseError>)
    requires
        p <= toks@.len(),
    ensures
        stmts_res(r) == p_block(token_values(toks@), p as int),
        r matches Ok((_, q)) ==> p < q <= toks@.len(),
    decreases toks@.len() - p, 3int,
{
    proof {
        lemma_token_values_len(toks@);
    }
    let p1 = match expect_exec(toks, p, Kind::LBrace) {
        Ok(v) => v,
        Err(e) => return Err(e),
    };
    let q0 = skip_newlines_exec(toks, p1);
    let stmts: Vec<Stmt> = Vec::new();
    proof {
        assert(stmts_view(stmts@) =~= seq![]);
    }
    let (stmts, q) = match block_items(toks, stmts, q0) {
        Ok(v) => v,
        Err(e) => return Err(e),
    };
    let q4 = match expect_exec(toks, q, Kind::RBrace) {
        Ok(v) => v,
        Err(e) => return Err(e),
    };
    Ok((stmts, q4))
}

/// The statements of a block after `acc`, from `p`; see `block_tail`.
fn block_items(toks: &[Token], acc: Vec<Stmt>, p: usize) -> (r: Result<(Vec<Stmt>, usize), ParseError>)
    requires
        p <= toks@.len(),
    ensures
        stmts_res(r) == block_tail(token_values(toks@), stmts_view(acc@), p as int),
        r matches Ok((_, q)) ==> p <= q <= toks@.len(),
    decreases toks@.len() - p, 6int,
{
    proof {
        lemma_token_values_len(toks@);
    }
    let ghost t = token_values(toks@);
    if block_ends(toks, p) {
        proof {
            lemma_block_tail_end(t, stmts_view(acc@), p as int);
        }
        return Ok((acc, p));
    }
    let (st, q2) = match parse_stmt(toks, p) {
        Ok(v) => v,
        Err(e) => {
            proof {
                lemma_block_tail_err(t, stmts_view(acc@), p as int, err_view(e));
            }
            return Err(e);
        },
    };
    let q3 = skip_newlines_exec(toks, q2);
    proof {
        lemma_block_tail_step(t, stmts_view(acc@), p as int, stmt_view(st), q2 as int);
        lemma_stmts_view_push(acc@, st);
    }
    let mut acc = acc;
    acc.push(st);
    block_items(toks, acc, q3)
}

/// A program parse result as a value.
pub open spec fn program_res(r: Result<Vec<Stmt>, ParseError>) -> Result<Seq<StmtModel>, ErrModel> {
    match r {
        Ok(v) => Ok(stmts_view(v@)),
        Err(x) => Err(err_view(x)),
    }
}

/// Parses a whole token list as statements; see `p_program`.
pub fn parse_program(toks: &[Token]) -> (r: Result<Vec<Stmt>, ParseError>)
    ensures
        program_res(r) == p_program(token_values(toks@)),
{
    proof {
        lemma_token_values_len(toks@);
    }
    let ghost t = token_values(toks@);
    let q0 = skip_newlines_exec(toks, 0);
    let mut q = q0;
    let mut stmts: Vec<Stmt> = Vec::new();
    proof {
        assert(stmts_view(stmts@) =~= seq![]);
    }
    while kind_at_exec(toks, q) != Kind::Eof
        invariant
            t == token_values(toks@),
            t.len() == toks@.len(),
            q <= toks@.len(),
            program_tail(t, stmts_view(stmts@), q as int) == p_program(t),
        decreases toks@.len() - q,
    {
        let (st, q2) = match parse_stmt(toks, q) {
            Ok(v) => v,
            Err(e) => return Err(e),
        };
        let q3 = skip_newlines_exec(toks, q2);
        proof {
            lemma_stmts_view_push(stmts@, st);
        }
        stmts.push(st);
        q = q3;
    }
    Ok(stmts)
}

// ---------------------------------------------------------------------------
// Cell formulas
// ---------------------------------------------------------------------------

/// A parsed cell formula.
pub struct ParsedFormula {
    pub ast: Expr,
}

/// Why a formula or a line of source could not be parsed.
#[derive(Debug)]
pub enum SyntaxError {
    /// Nothing but white space.
    Empty,
    /// The tokenizer's message.
    Lex(String),
    Parse(ParseError),
}

/// What parsing a formula gives: `Empty` for blank text, the tokenizer's
/// error, or the expression at the start of the tokens of the trimmed
/// text (or the parse error there).
pub open spec fn formula_result(text: Seq<char>, spice: bool) -> Result<ExprModel, Result<Seq<char>, ErrModel>> {
    let tr = crate::text::trim(text);
    if tr.len() == 0 {
        Err(Ok(seq![]))
    } else {
        match crate::lexer::tokens_of(tr, spice) {
            Err(m) => Err(Ok(m)),
            Ok(ts) => match p_expr(ts, 0) {
                Ok((e, _)) => Ok(e),
                Err(x) => Err(Err(x)),
            },
        }
    }
}

/// Parses a cell formula body (the text after `/=`) with SPICE notation
/// on or off.
pub fn parse_formula_with_spice(text: &str, spice: bool) -> (r: Result<ParsedFormula, SyntaxError>)
    ensures
        match r {
            Ok(f) => formula_result(text@, spice) == Ok::<ExprModel, Result<Seq<char>, ErrModel>>(expr_view(f.ast)),
            Err(SyntaxError::Empty) => crate::text::trim(text@).len() == 0,
            Err(SyntaxError::Lex(m)) => crate::text::trim(text@).len() > 0 && formula_result(text@, spice) == Err::<ExprModel, Result<Seq<char>, ErrModel>>(Ok(m@)),
            Err(SyntaxError::Parse(e)) => formula_result(text@, spice) == Err::<ExprModel, Result<Seq<char>, ErrModel>>(Err(err_view(e))),
        },
{
    let cs = crate::text::chars_of(text);
    let tc = crate::text::trim_chars(cs.as_slice());
    if tc.len() == 0 {
        return Err(SyntaxError::Empty);
    }
    let trimmed = crate::text::string_of(tc.as_slice());
    let toks = match crate::lexer::tokenize(trimmed.as_str(), spice) {
        Ok(v) => v,
        Err(m) => return Err(SyntaxError::Lex(m)),
    };
    proof {
        reveal(token_values);
    }
    match parse_expr(toks.as_slice(), 0) {
        Ok((ast, _)) => Ok(ParsedFormula { ast }),
        Err(e) => Err(SyntaxError::Parse(e)),
    }
}

/// Parses a cell formula body with SPICE notation off.
pub fn parse_formula(text: &str) -> (r: Result<ParsedFormula, SyntaxError>)
    ensures
        match r {
            Ok(f) => formula_result(text@, false) == Ok::<ExprModel, Result<Seq<char>, ErrModel>>(expr_view(f.ast)),
            Err(SyntaxError::Empty) => crate::text::trim(text@).len() == 0,
            Err(SyntaxError::Lex(m)) => crate::text::trim(text@).len() > 0 && formula_result(text@, false) == Err::<ExprModel, Result<Seq<char>, ErrModel>>(Ok(m@)),
            Err(SyntaxError::Parse(e)) => formula_result(text@, false) == Err::<ExprModel, Result<Seq<char>, ErrModel>>(Err(err_view(e))),
        },
{
    parse_formula_with_spice(text, false)
}

// ---------------------------------------------------------------------------
// Cells a formula reads
// ---------------------------------------------------------------------------

/// A cell reference as a value: block, table, `(col, row)`.
pub type RefView = (Option<Seq<char>>, Seq<char>, (u32, u32));

/// The values of a list of references.
pub open spec fn refs_view(s: Seq<FormulaRef>) -> Seq<RefView> {
    s.map_values(|r: FormulaRef| (opt_view(r.block), r.table@, r.cell))
}

/// Columns `c0..=c` of row `r`, in order.
pub open spec fn row_cells(r: int, c0: int, c: int) -> Seq<(u32, u32)>
    decreases c - c0 + 1,
{
    if c < c0 {
        seq![]
    } else {
        row_cells(r, c0, c - 1).push((c as u32, r as u32))
    }
}

/// Rows `r0..=r` of columns `c0..=c1`, row after row.
pub open spec fn grid_cells(c0: int, c1: int, r0: int, r: int) -> Seq<(u32, u32)>
    decreases r - r0 + 1,
{
    if r < r0 {
        seq![]
    } else {
        grid_cells(c0, c1, r0, r - 1) + row_cells(r, c0, c1)
    }
}

/// The references of a block and table to each of `cells`.
pub open spec fn refs_to(block: Option<Seq<char>>, table: Seq<char>, cells: Seq<(u32, u32)>) -> Seq<RefView> {
    cells.map_values(|c: (u32, u32)| (block, table, c))
}

/// The cells a formula reads, in the order they occur: a cell reference
/// gives its cell, a range every cell of its rectangle (rows from the
/// smaller row, columns from the smaller column), a whole table its first
/// cell; a plain identifier naming a cell is a cell of the current table
/// when there is one. A reference with no table is to the current table.
pub open spec fn expr_refs(e: ExprModel, cur: Seq<char>) -> Seq<RefView>
    decreases e,
{
    match e {
        ExprModel::CellRef(block, table, target) => {
            let tn = match table {
                Some(x) => x,
                None => cur,
            };
            match target {
                CellRefTarget::Cell(c, r) => seq![(block, tn, (c, r))],
                CellRefTarget::Range(c0, r0, c1, r1) => {
                    let (cmin, cmax) = if c0 <= c1 { (c0, c1) } else { (c1, c0) };
                    let (rmin, rmax) = if r0 <= r1 { (r0, r1) } else { (r1, r0) };
                    refs_to(block, tn, grid_cells(cmin as int, cmax as int, rmin as int, rmax as int))
                },
                CellRefTarget::Whole => seq![(block, tn, (0u32, 0u32))],
            }
        },
        ExprModel::Ident(name) => if cur.len() > 0 && cell_address(name) is Some {
            seq![(None, cur, cell_address(name).unwrap())]
        } else {
            seq![]
        },
        ExprModel::BinOp(_, l, r) => expr_refs(*l, cur) + expr_refs(*r, cur),
        ExprModel::UnaryOp(_, x) => expr_refs(*x, cur),
        ExprModel::Call(_, args) => exprs_refs(args, cur),
        ExprModel::Array(items) => exprs_refs(items, cur),
        ExprModel::Index(a, b) => expr_refs(*a, cur) + expr_refs(*b, cur),
        ExprModel::Range(a, b) => expr_refs(*a, cur) + expr_refs(*b, cur),
        ExprModel::IsCheck(x, _) => expr_refs(*x, cur),
        _ => seq![],
    }
}

/// The cells a list of expressions reads, one after another.
pub open spec fn exprs_refs(s: Seq<ExprModel>, cur: Seq<char>) -> Seq<RefView>
    decreases s,
{
    if s.len() == 0 {
        seq![]
    } else {
        exprs_refs(s.subrange(0, s.len() - 1), cur) + expr_refs(s[s.len() - 1], cur)
    }
}

fn push_ref(out: &mut Vec<FormulaRef>, block: &Option<String>, table: &str, cell: (u32, u32))
    ensures
        refs_view(final(out)@) == refs_view(old(out)@).push((opt_view(*block), table@, cell)),
{
    let b = clone_opt(block);
    let ghost before = old(out)@;
    out.push(FormulaRef { block: b, table: crate::text::string_from(table), cell });
    assert(refs_view(out@) =~= refs_view(before).push((opt_view(*block), table@, cell)));
}

fn push_range(out: &mut Vec<FormulaRef>, block: &Option<String>, table: &str, cmin: u32, cmax: u32, rmin: u32, rmax: u32)
    requires
        cmin <= cmax,
        rmin <= rmax,
    ensures
        refs_view(final(out)@) == refs_view(old(out)@) + refs_to(
            opt_view(*block),
            table@,
            grid_cells(cmin as int, cmax as int, rmin as int, rmax as int),
        ),
{
    let ghost b = opt_view(*block);
    let ghost start = refs_view(out@);
    let mut r: u64 = rmin as u64;
    assert(refs_to(b, table@, grid_cells(cmin as int, cmax as int, rmin as int, rmin - 1)) =~= seq![]);
    while r <= rmax as u64
        invariant
            rmin <= r <= rmax as u64 + 1,
            cmin <= cmax,
            b == opt_view(*block),
            refs_view(out@) == start + refs_to(b, table@, grid_cells(cmin as int, cmax as int, rmin as int, r - 1)),
        decreases rmax as u64 + 1 - r,
    {
        let ghost row_start = refs_view(out@);
        let mut c: u64 = cmin as u64;
        assert(refs_to(b, table@, row_cells(r as int, cmin as int, cmin - 1)) =~= seq![]);
        while c <= cmax as u64
            invariant
                cmin <= c <= cmax as u64 + 1,
                r <= rmax,
                b == opt_view(*block),
                refs_view(out@) == row_start + refs_to(b, table@, row_cells(r as int, cmin as int, c - 1)),
            decreases cmax as u64 + 1 - c,
        {
            push_ref(out, block, table, (c as u32, r as u32));
            assert(refs_to(b, table@, row_cells(r as int, cmin as int, c as int)) =~= refs_to(
                b,
                table@,
                row_cells(r as int, cmin as int, c - 1),
            ).push((b, table@, (c as u32, r as u32))));
            c = c + 1;
        }
        assert(refs_to(b, table@, grid_cells(cmin as int, cmax as int, rmin as int, r as int)) =~= refs_to(
            b,
            table@,
            grid_cells(cmin as int, cmax as int, rmin as int, r - 1),
        ) + refs_to(b, table@, row_cells(r as int, cmin as int, cmax as int)));
        r = r + 1;
    }
}

/// `expr_refs` one level down.
proof fn lemma_expr_refs(e: ExprModel, cur: Seq<char>)
    ensures
        expr_refs(e, cur) == match e {
            ExprModel::CellRef(block, table, target) => {
                let tn = match table {
                    Some(x) => x,
                    None => cur,
                };
                match target {
                    CellRefTarget::Cell(c, r) => seq![(block, tn, (c, r))],
                    CellRefTarget::Range(c0, r0, c1, r1) => {
                        let (cmin, cmax) = if c0 <= c1 { (c0, c1) } else { (c1, c0) };
                        let (rmin, rmax) = if r0 <= r1 { (r0, r1) } else { (r1, r0) };
                        refs_to(block, tn, grid_cells(cmin as int, cmax as int, rmin as int, rmax as int))
                    },
                    CellRefTarget::Whole => seq![(block, tn, (0u32, 0u32))],
                }
            },
            ExprModel::Ident(name) => if cur.len() > 0 && cell_address(name) is Some {
                seq![(None, cur, cell_address(name).unwrap())]
            } else {
                seq![]
            },
            ExprModel::BinOp(_, l, r) => expr_refs(*l, cur) + expr_refs(*r, cur),
            ExprModel::UnaryOp(_, x) => expr_refs(*x, cur),
            ExprModel::Call(_, args) => exprs_refs(args, cur),
            ExprModel::Array(items) => exprs_refs(items, cur),
            ExprModel::Index(a, b) => expr_refs(*a, cur) + expr_refs(*b, cur),
            ExprModel::Range(a, b) => expr_refs(*a, cur) + expr_refs(*b, cur),
            ExprModel::IsCheck(x, _) => expr_refs(*x, cur),
            _ => seq![],
        },
{
}

proof fn lemma_exprs_refs_take(s: Seq<Expr>, i: int, cur: Seq<char>)
    requires
        0 <= i < s.len(),
    ensures
        exprs_refs(exprs_view(s.take(i + 1)), cur) == exprs_refs(exprs_view(s.take(i)), cur) + expr_refs(
            expr_view(s[i]),
            cur,
        ),
{
    assert(s.take(i + 1) =~= s.take(i).push(s[i]));
    lemma_exprs_view_push(s.take(i), s[i]);
    let v = exprs_view(s.take(i + 1));
    assert(v.subrange(0, v.len() - 1) =~= exprs_view(s.take(i)));
}

fn collect_list(items: &Vec<Expr>, cur: &str, out: &mut Vec<FormulaRef>)
    ensures
        refs_view(final(out)@) == refs_view(old(out)@) + exprs_refs(exprs_view(items@), cur@),
    decreases items, 0int,
{
    let ghost start = refs_view(out@);
    let mut i: usize = 0;
    assert(exprs_view(items@.take(0)) =~= seq![]);
    while i < items.len()
        invariant
            i <= items@.len(),
            refs_view(out@) == start + exprs_refs(exprs_view(items@.take(i as int)), cur@),
        decreases items@.len() - i,
    {
        proof {
            lemma_exprs_refs_take(items@, i as int, cur@);
            assert(decreases_to!(items => items@[i as int]));
        }
        collect_refs(&items[i], cur, out);
        i += 1;
    }
    assert(items@.take(items@.len() as int) =~= items@);
}

/// Appends the cells `e` reads to `out`; see `expr_refs`.
fn collect_refs(e: &Expr, cur: &str, out: &mut Vec<FormulaRef>)
    ensures
        refs_view(final(out)@) == refs_view(old(out)@) + expr_refs(expr_view(*e), cur@),
    decreases e, 1int,
{
    proof {
        lemma_expr_view(*e);
        lemma_expr_refs(expr_view(*e), cur@);
    }
    let ghost start = refs_view(out@);
    match e {
        Expr::CellRef { block, table, target } => {
            let tn = match table {
                Some(x) => crate::text::string_from(x.as_str()),
                None => crate::text::string_from(cur),
            };
            match target {
                CellRefTarget::Cell(c, r) => {
                    push_ref(out, block, tn.as_str(), (*c, *r));
                    assert(refs_view(out@) =~= start + seq![(opt_view(*block), tn@, (*c, *r))]);
                    assert(refs_view(out@) == start + expr_refs(expr_view(*e), cur@));
                },
                CellRefTarget::Range(c0, r0, c1, r1) => {
                    let (cmin, cmax) = if *c0 <= *c1 { (*c0, *c1) } else { (*c1, *c0) };
                    let (rmin, rmax) = if *r0 <= *r1 { (*r0, *r1) } else { (*r1, *r0) };
                    push_range(out, block, tn.as_str(), cmin, cmax, rmin, rmax);
                    assert(refs_view(out@) == start + expr_refs(expr_view(*e), cur@));
                },
                CellRefTarget::Whole => {
                    push_ref(out, block, tn.as_str(), (0, 0));
                    assert(refs_view(out@) =~= start + seq![(opt_view(*block), tn@, (0u32, 0u32))]);
                    assert(refs_view(out@) == start + expr_refs(expr_view(*e), cur@));
                },
            }
        },
        Expr::Ident(name) => {
            if crate::text::chars_of(cur).len() > 0 {
                match parse_cell_address(name.as_str()) {
                    Some(a) => {
                        push_ref(out, &None, cur, a);
                        assert(refs_view(out@) =~= start + seq![(None::<Seq<char>>, cur@, a)]);
                        assert(refs_view(out@) == start + expr_refs(expr_view(*e), cur@));
                    },
                    None => {
                        assert(refs_view(out@) =~= start + seq![]);
                        assert(refs_view(out@) == start + expr_refs(expr_view(*e), cur@));
                    },
                }
            } else {
                assert(refs_view(out@) =~= start + seq![]);
                assert(refs_view(out@) == start + expr_refs(expr_view(*e), cur@));
            }
        },
        Expr::BinOp(_, l, r) => {
            collect_refs(l, cur, out);
            collect_refs(r, cur, out);
            assert(refs_view(out@) =~= start + (expr_refs(expr_view(**l), cur@) + expr_refs(expr_view(**r), cur@)));
            assert(refs_view(out@) == start + expr_refs(expr_view(*e), cur@));
        },
        Expr::UnaryOp(_, x) => {
            collect_refs(x, cur, out);
            assert(refs_view(out@) == start + expr_refs(expr_view(*e), cur@));
        },
        Expr::Call(_, args) => {
            collect_list(args, cur, out);
            assert(refs_view(out@) == start + expr_refs(expr_view(*e), cur@));
        },
        Expr::Array(items) => {
            collect_list(items, cur, out);
            assert(refs_view(out@) == start + expr_refs(expr_view(*e), cur@));
        },
        Expr::Index(a, b) => {
            collect_refs(a, cur, out);
            collect_refs(b, cur, out);
            assert(refs_view(out@) =~= start + (expr_refs(expr_view(**a), cur@) + expr_refs(expr_view(**b), cur@)));
            assert(refs_view(out@) == start + expr_refs(expr_view(*e), cur@));
        },
        Expr::Range(a, b) => {
            collect_refs(a, cur, out);
            collect_refs(b, cur, out);
            assert(refs_view(out@) =~= start + (expr_refs(expr_view(**a), cur@) + expr_refs(expr_view(**b), cur@)));
            assert(refs_view(out@) == start + expr_refs(expr_view(*e), cur@));
        },
        Expr::IsCheck(x, _) => {
            collect_refs(x, cur, out);
            assert(refs_view(out@) == start + expr_refs(expr_view(*e), cur@));
        },
        _ => {
            assert(refs_view(out@) =~= start + seq![]);
            assert(refs_view(out@) == start + expr_refs(expr_view(*e), cur@));
        },
    }
}

impl ParsedFormula {
    /// Cells this formula reads, bare references resolved against the
    /// formula's own table `current_table`; see `expr_refs`.
    pub fn refs(&self, current_table: &str) -> (r: Vec<FormulaRef>)
        ensures
            refs_view(r@) == expr_refs(expr_view(self.ast), current_table@),
    {
        let mut out: Vec<FormulaRef> = Vec::new();
        assert(refs_view(out@) =~= seq![]);
        collect_refs(&self.ast, current_table, &mut out);
        assert(refs_view(out@) =~= expr_refs(expr_view(self.ast), current_table@));
        out
    }
}

} // verus!
