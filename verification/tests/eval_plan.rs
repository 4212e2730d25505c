use acord::doc::classify_document;
use acord::eval::{eval_directive, format_tag, interpreter_lines, plan_interpretation, EvalFormat, InterpStep};

#[test]
fn interpreter_reads_code_and_eval_lines() {
    let cl = classify_document("# Notes\nlet x = 5\n// c\n/= x + 1");
    let lines = interpreter_lines(&cl);
    assert_eq!(
        lines,
        vec![(1, "let x = 5".to_string(), false), (3, "/= x + 1".to_string(), true)]
    );
}

#[test]
fn directives() {
    assert_eq!(eval_directive("  /=| rows "), (EvalFormat::Table, "rows".to_string()));
    assert_eq!(eval_directive("/=\\ tree"), (EvalFormat::Tree, "tree".to_string()));
    assert_eq!(eval_directive("/= 1 + 2"), (EvalFormat::Inline, "1 + 2".to_string()));
    assert_eq!(eval_directive("/="), (EvalFormat::Inline, String::new()));
    assert_eq!(format_tag(EvalFormat::Table), "table");
    assert_eq!(format_tag(EvalFormat::Inline), "inline");
    assert_eq!(format_tag(EvalFormat::Tree), "tree");
}

fn shape(steps: &[InterpStep]) -> Vec<String> {
    steps
        .iter()
        .map(|s| match s {
            InterpStep::Exec { line, text } => format!("exec {} {:?}", line, text),
            InterpStep::Eval { line, pending, format, expr } => {
                format!("eval {} {:?} {} {:?}", line, pending, format_tag(*format), expr)
            }
        })
        .collect()
}

#[test]
fn blocks_are_gathered_until_braces_balance() {
    let lines = vec![
        (0, "let a = 1".to_string(), false),
        (1, "fn f(x) {".to_string(), false),
        (2, "  x * 2".to_string(), false),
        (3, "}".to_string(), false),
        (4, "/= f(a)".to_string(), true),
    ];
    let steps = plan_interpretation(&lines);
    assert_eq!(
        shape(&steps),
        vec![
            "exec 0 \"let a = 1\"".to_string(),
            "exec 3 \"fn f(x) {\\nx * 2\\n}\"".to_string(),
            "eval 4 None inline \"f(a)\"".to_string(),
        ]
    );
}

#[test]
fn eval_line_flushes_an_open_block() {
    let lines = vec![
        (0, "while (x > 0) {".to_string(), false),
        (1, "/=| t".to_string(), true),
        (2, "x = 1".to_string(), false),
    ];
    let steps = plan_interpretation(&lines);
    assert_eq!(
        shape(&steps),
        vec![
            "eval 1 Some(\"while (x > 0) {\") table \"t\"".to_string(),
            "exec 2 \"x = 1\"".to_string(),
        ]
    );
}

#[test]
fn block_open_at_the_end_is_not_run() {
    let lines = vec![(0, "fn g() {".to_string(), false), (1, "1".to_string(), false)];
    assert!(plan_interpretation(&lines).is_empty());
}
