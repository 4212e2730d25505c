use acord::uses::source_enables_spice;
use acord::uses::extract_use_declarations;

#[test]
fn extract_use_decls() {
    let text = "let x = 5\nuse calculations\nSome prose\nuse budget::ramp\n/= x";
    let decls = extract_use_declarations(text);
    assert_eq!(decls.len(), 2);
    assert_eq!(decls[0].module, "calculations");
    assert_eq!(decls[0].item, None);
    assert_eq!(decls[1].module, "budget");
    assert_eq!(decls[1].item, Some("ramp".to_string()));
}

#[test]
fn extract_use_skips_invalid() {
    let text = "use\nuse 123\nuse valid_module";
    let decls = extract_use_declarations(text);
    assert_eq!(decls.len(), 1);
    assert_eq!(decls[0].module, "valid_module");
}

#[test]
fn use_star_imports_everything() {
    let decls = extract_use_declarations("  use geometry::*  ");
    assert_eq!(decls.len(), 1);
    assert_eq!(decls[0].module, "geometry");
    assert_eq!(decls[0].item, Some("*".to_string()));
}

#[test]
fn use_line_rejected_by_tokenizer_is_prose() {
    // a lone `&`, an unterminated string and an unknown character all
    // make the tokenizer reject the line
    let decls = extract_use_declarations("use a & b\nuse b \"open\nuse c #\nuse d 1.2.3");
    assert!(decls.is_empty());
}

#[test]
fn use_keyword_or_missing_item_is_prose() {
    let decls = extract_use_declarations("use let\nuse m::\nuse m::5\nuse a_fork to eat");
    assert_eq!(decls.len(), 1);
    assert_eq!(decls[0].module, "a_fork");
    assert_eq!(decls[0].item, None);
}

#[test]
fn use_with_trailing_comment_and_numbers() {
    let decls = extract_use_declarations("use budget // the budget module\nuse m -.5e3x");
    assert_eq!(decls.len(), 2);
    assert_eq!(decls[0].module, "budget");
    assert_eq!(decls[1].module, "m");
}

#[test]
fn spice_switch() {
    assert!(source_enables_spice("let a = 1\n  use spice  \n"));
    assert!(source_enables_spice("use spice::all_units"));
    assert!(!source_enables_spice("use spice::"));
    assert!(!source_enables_spice("use spice::a-b"));
    assert!(!source_enables_spice("use spicey"));
}
