use acord::doc::{classify_document, classify_line, LineKind};
#[test]
fn markdown_line() {
    let c = classify_line(0, "# Hello World");
    assert_eq!(c.kind, LineKind::Markdown);
}

#[test]
fn eval_line() {
    let c = classify_line(0, "/= 2 + 3");
    assert_eq!(c.kind, LineKind::Eval);
}

#[test]
fn comment_line() {
    let c = classify_line(0, "// this is a comment");
    assert_eq!(c.kind, LineKind::Comment);
}

#[test]
fn let_binding() {
    let c = classify_line(0, "let x = 5");
    assert_eq!(c.kind, LineKind::Cordial);
}

#[test]
fn variable_assignment() {
    let c = classify_line(0, "x = 5");
    assert_eq!(c.kind, LineKind::Cordial);
}

#[test]
fn function_def() {
    let c = classify_line(0, "f(x) = x^2");
    assert_eq!(c.kind, LineKind::Cordial);
}

#[test]
fn plain_text() {
    let c = classify_line(0, "Some notes about the project");
    assert_eq!(c.kind, LineKind::Markdown);
}

#[test]
fn let_prose_not_cordial() {
    let c = classify_line(0, "let us consider something");
    assert_eq!(c.kind, LineKind::Markdown);
}

#[test]
fn let_without_equals_not_cordial() {
    let c = classify_line(0, "let me explain");
    assert_eq!(c.kind, LineKind::Markdown);
}

#[test]
fn single_line_block_comment() {
    let lines = classify_document("/* hello */");
    assert_eq!(lines.len(), 1);
    assert_eq!(lines[0].kind, LineKind::Comment);
}

#[test]
fn multiline_block_comment() {
    let lines = classify_document("/* start\nmiddle\nend */\nlet x = 5");
    assert_eq!(lines.len(), 4);
    assert_eq!(lines[0].kind, LineKind::Comment);
    assert_eq!(lines[1].kind, LineKind::Comment);
    assert_eq!(lines[2].kind, LineKind::Comment);
    assert_eq!(lines[3].kind, LineKind::Cordial);
}

#[test]
fn block_comment_then_code() {
    let lines = classify_document("/* comment */\n/= 2 + 3");
    assert_eq!(lines[0].kind, LineKind::Comment);
    assert_eq!(lines[1].kind, LineKind::Eval);
}

#[test]
fn nested_block_comments() {
    let lines = classify_document("/* outer /* inner */ still comment */\nlet x = 5");
    assert_eq!(lines[0].kind, LineKind::Comment);
    assert_eq!(lines[1].kind, LineKind::Cordial);
}

#[test]
fn nested_multiline_block_comments() {
    let doc = "/* outer\n/* inner */\nstill in outer\n*/\nlet x = 5";
    let lines = classify_document(doc);
    assert_eq!(lines[0].kind, LineKind::Comment);
    assert_eq!(lines[1].kind, LineKind::Comment);
    assert_eq!(lines[2].kind, LineKind::Comment);
    assert_eq!(lines[3].kind, LineKind::Comment);
    assert_eq!(lines[4].kind, LineKind::Cordial);
}

#[test]
fn while_line() {
    let c = classify_line(0, "while (i < 10) {");
    assert_eq!(c.kind, LineKind::Cordial);
}

#[test]
fn fn_line() {
    let c = classify_line(0, "fn add(a, b) {");
    assert_eq!(c.kind, LineKind::Cordial);
}

#[test]
fn closing_brace() {
    let c = classify_line(0, "}");
    assert_eq!(c.kind, LineKind::Cordial);
}

#[test]
fn while_block_body_classified() {
    let doc = "while (x > 0) {\n    x = x - 1\n}";
    let lines = classify_document(doc);
    assert_eq!(lines[0].kind, LineKind::Cordial);
    assert_eq!(lines[1].kind, LineKind::Cordial);
    assert_eq!(lines[2].kind, LineKind::Cordial);
}

#[test]
fn fn_block_body_classified() {
    let doc = "fn add(a, b) {\n    a + b\n}";
    let lines = classify_document(doc);
    assert_eq!(lines[0].kind, LineKind::Cordial);
    assert_eq!(lines[1].kind, LineKind::Cordial);
    assert_eq!(lines[2].kind, LineKind::Cordial);
}

#[test]
fn let_with_type_annotation() {
    let c = classify_line(0, "let x: int = 5");
    assert_eq!(c.kind, LineKind::Cordial);
}

#[test]
fn let_with_bool_type() {
    let c = classify_line(0, "let flag: bool = 1");
    assert_eq!(c.kind, LineKind::Cordial);
}

#[test]
fn if_line() {
    let c = classify_line(0, "if (x > 5) {");
    assert_eq!(c.kind, LineKind::Cordial);
}

#[test]
fn else_line() {
    let c = classify_line(0, "} else {");
    assert_eq!(c.kind, LineKind::Cordial);
}

#[test]
fn for_line() {
    let c = classify_line(0, "for i in arr {");
    assert_eq!(c.kind, LineKind::Cordial);
}

#[test]
fn return_line() {
    let c = classify_line(0, "return x");
    assert_eq!(c.kind, LineKind::Cordial);
}

#[test]
fn use_line() {
    let c = classify_line(0, "use calculations");
    assert_eq!(c.kind, LineKind::Cordial);
}

#[test]
fn use_with_item() {
    let c = classify_line(0, "use budget::ramp");
    assert_eq!(c.kind, LineKind::Cordial);
}

#[test]
fn use_prose_not_cordial() {
    let c = classify_line(0, "use a fork to eat");
    assert_eq!(c.kind, LineKind::Markdown);
}

#[test]
fn if_block_body_classified() {
    let doc = "if (x > 5) {\n    x = 1\n} else {\n    x = 0\n}";
    let lines = classify_document(doc);
    assert!(lines.iter().all(|l| l.kind == LineKind::Cordial));
}
