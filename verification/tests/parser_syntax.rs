use acord::cells::CellRefTarget;
use acord::lexer::{tokenize, Kind, Token};
use acord::parser::{
    parse_expr, parse_formula, parse_formula_with_spice, parse_program, Expr, Op, ParseError, Stmt,
    SyntaxError, Wanted,
};

fn show(e: &Expr) -> String {
    match e {
        Expr::Num { text, exp, prefix } => {
            let mut s = text.clone();
            if let Some(x) = exp {
                s.push_str(&format!("e{}", x));
            }
            if let Some(p) = prefix {
                s.push_str(&format!("{:?}", p));
            }
            s
        }
        Expr::Str(s) => format!("{:?}", s),
        Expr::Bool(b) => b.to_string(),
        Expr::Ident(s) => s.clone(),
        Expr::BinOp(op, l, r) => format!("({:?} {} {})", op, show(l), show(r)),
        Expr::UnaryOp(op, x) => format!("({:?} {})", op, show(x)),
        Expr::Call(n, args) => format!("{}[{}]", n, args.iter().map(show).collect::<Vec<_>>().join(", ")),
        Expr::Array(items) => format!("[{}]", items.iter().map(show).collect::<Vec<_>>().join(", ")),
        Expr::Index(x, i) => format!("{}@{}", show(x), show(i)),
        Expr::Range(a, b) => format!("{}..{}", show(a), show(b)),
        Expr::IsCheck(x, t) => format!("({} is {})", show(x), t),
        Expr::CellRef { block, table, target } => format!("ref({:?},{:?},{:?})", block, table, target),
        Expr::SolveMacro { var, source_fn } => format!("solve({},{})", var, source_fn),
    }
}

fn expr(src: &str) -> String {
    let toks = tokenize(src, false).unwrap();
    let (e, _) = parse_expr(&toks, 0).unwrap();
    show(&e)
}

fn program(src: &str) -> Vec<Stmt> {
    let toks = tokenize(src, false).unwrap();
    parse_program(&toks).unwrap()
}

fn program_err(src: &str) -> ParseError {
    let toks = tokenize(src, false).unwrap();
    match parse_program(&toks) {
        Err(e) => e,
        Ok(_) => panic!("expected a parse error for {:?}", src),
    }
}

#[test]
fn expressions_follow_precedence() {
    assert_eq!(expr("1 + 2 * 3"), "(Add 1 (Mul 2 3))");
    assert_eq!(expr("1 - 2 - 3"), "(Sub (Sub 1 2) 3)");
    assert_eq!(expr("2 ^ 3 ^ 2"), "(Pow 2 (Pow 3 2))");
    assert_eq!(expr("-x ^ 2"), "(Pow (Neg x) 2)");
    assert_eq!(expr("a || b && c == d"), "(Or a (And b (Eq c d)))");
    assert_eq!(expr("!~x"), "(Not (Strip x))");
    assert_eq!(expr("x is int < 3"), "(Lt (x is int) 3)");
    assert_eq!(expr("1..n+1"), "1..(Add n 1)");
}

#[test]
fn calls_arrays_and_indexing() {
    assert_eq!(expr("f(1, g(x))[0][1]"), "f[1, g[x]]@0@1");
    assert_eq!(expr("f()"), "f[]");
    assert_eq!(expr("[1, \"a\", true]"), "[1, \"a\", true]");
    assert_eq!(expr("(1 + 2) * 3"), "(Mul (Add 1 2) 3)");
    assert_eq!(expr("2.5e3"), "2.5e3");
}

#[test]
fn cell_references_and_solve() {
    assert_eq!(expr("A1:B2"), format!("ref(None,None,{:?})", CellRefTarget::Range(0, 0, 1, 1)));
    assert_eq!(
        expr("@Budget::Sales:A1"),
        format!("ref(Some(\"budget\"),Some(\"sales\"),{:?})", CellRefTarget::Cell(0, 0))
    );
    assert_eq!(
        expr("@T[A1:B3]"),
        format!("ref(None,Some(\"t\"),{:?})", CellRefTarget::Range(0, 0, 1, 2))
    );
    assert_eq!(expr("@T"), format!("ref(None,Some(\"t\"),{:?})", CellRefTarget::Whole));
    assert_eq!(expr("solve!(x from f)"), "solve(x,f)");
    assert_eq!(expr("solve!(x, f)"), "solve(x,f)");
    assert_eq!(expr("solve"), "solve");
}

#[test]
fn spice_literals_become_value_and_unit() {
    let toks = tokenize("100nF", true).unwrap();
    let (e, _) = parse_expr(&toks, 0).unwrap();
    assert_eq!(show(&e), "[100Nano, \"F\"]");
}

#[test]
fn statements_of_each_kind() {
    let s = program("let x: int = 5\nx = x + 1\nf(a, b) = a * b\nuse spice::*\nreturn");
    assert_eq!(s.len(), 5);
    assert!(matches!(&s[0], Stmt::Let(n, Some(t), Expr::Num { .. }) if n == "x" && t == "int"));
    assert!(matches!(&s[1], Stmt::Assign(n, Expr::BinOp(Op::Add, _, _)) if n == "x"));
    assert!(matches!(&s[2], Stmt::FnDef { name, params, return_type: None, body }
        if name == "f" && params.len() == 2 && params[1].0 == "b" && params[1].1.is_none() && body.len() == 1));
    assert!(matches!(&s[3], Stmt::Use(m, Some(i)) if m == "spice" && i == "*"));
    assert!(matches!(&s[4], Stmt::Return(Expr::Bool(false))));
}

#[test]
fn blocks_and_control_flow() {
    let s = program("while (i < 3) {\n i = i + 1\n}\nif a { 1 } else if b { 2 } else { 3 }\nfor k in 0..3 { k }");
    assert_eq!(s.len(), 3);
    assert!(matches!(&s[0], Stmt::While(Expr::BinOp(Op::Lt, _, _), body) if body.len() == 1));
    match &s[1] {
        Stmt::IfElse(_, then_body, Some(else_body)) => {
            assert_eq!(then_body.len(), 1);
            assert_eq!(else_body.len(), 1);
            assert!(matches!(&else_body[0], Stmt::IfElse(_, _, Some(_))));
        }
        _ => panic!("expected if/else"),
    }
    assert!(matches!(&s[2], Stmt::ForLoop(v, Expr::Range(..), body) if v == "k" && body.len() == 1));
    let f = program("fn area(w: m, h) -> m {\n return w * h\n}");
    assert!(matches!(&f[0], Stmt::FnDef { name, params, return_type: Some(r), body }
        if name == "area" && params[0].1.as_deref() == Some("m") && params[1].1.is_none() && r == "m" && body.len() == 1));
}

#[test]
fn cell_assignment_and_inversion() {
    let s = program("@Sales:B2 = 7");
    assert!(matches!(&s[0], Stmt::CellAssign { block: None, table, cell: (1, 1), .. } if table == "sales"));
    let s = program("let g(y, a) = x where f(x, a) = y");
    assert!(matches!(&s[0], Stmt::SolveDef { name, params, target_var, source_fn, source_args, result_var }
        if name == "g" && params.len() == 2 && target_var == "x" && source_fn == "f"
            && source_args.len() == 2 && result_var == "y"));
    let s = program("let h(x) = x + 1");
    assert!(matches!(&s[0], Stmt::FnDef { name, body, .. } if name == "h" && body.len() == 1));
}

#[test]
fn parse_errors_name_what_was_wanted() {
    assert!(matches!(program_err("@T = 1"), ParseError::AssignWholeTable));
    assert!(matches!(program_err("@T:A1:B2 = 1"), ParseError::AssignRange));
    assert!(matches!(program_err("let 5"), ParseError::Missing { wanted: Wanted::IdentAfterLet, got: Token::Number { .. } }));
    assert!(matches!(program_err("let x 5"), ParseError::Expected { expected: Kind::Eq, .. }));
    assert!(matches!(program_err(")"), ParseError::Unexpected(Token::RParen)));
    assert!(matches!(program_err("@T:Q"), ParseError::InvalidCellAddress(n) if n == "Q"));
    assert!(matches!(program_err("let f(a) = 1 + 2 where g(a) = a"), ParseError::TargetBeforeWhere));
    assert!(matches!(program_err("x is 3"), ParseError::Missing { wanted: Wanted::TypeAfterIs, .. }));
    assert!(matches!(program_err("while x { 1"), ParseError::Expected { expected: Kind::RBrace, got: Token::Eof }));
}

#[test]
fn formulas_report_empty_lex_and_parse_errors() {
    assert!(matches!(parse_formula("   "), Err(SyntaxError::Empty)));
    assert!(matches!(parse_formula("1 +"), Err(SyntaxError::Parse(ParseError::Unexpected(Token::Eof)))));
    let f = parse_formula("  A1 + 2 ").ok().unwrap();
    assert_eq!(show(&f.ast), "(Add A1 2)");
    assert!(matches!(parse_formula_with_spice("\"open", false), Err(SyntaxError::Lex(_))));
}

#[test]
fn formula_refs_resolve_against_the_current_table() {
    let f = parse_formula("A1 + @Other:B2 + sum(@T[A1:B2]) + @Blk::X + x").ok().unwrap();
    let refs = f.refs("cur");
    let got: Vec<(Option<String>, String, (u32, u32))> =
        refs.into_iter().map(|r| (r.block, r.table, r.cell)).collect();
    assert_eq!(
        got,
        vec![
            (None, "cur".to_string(), (0, 0)),
            (None, "other".to_string(), (1, 1)),
            (None, "t".to_string(), (0, 0)),
            (None, "t".to_string(), (1, 0)),
            (None, "t".to_string(), (0, 1)),
            (None, "t".to_string(), (1, 1)),
            (Some("blk".to_string()), "x".to_string(), (0, 0)),
        ]
    );
    assert!(parse_formula("A1").ok().unwrap().refs("").is_empty());
    let rev = parse_formula("B2:A1").ok().unwrap().refs("s");
    assert_eq!(rev.len(), 4);
    assert_eq!(rev[0].cell, (0, 0));
    assert_eq!(rev[3].cell, (1, 1));
}
