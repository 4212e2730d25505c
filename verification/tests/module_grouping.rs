use acord::module::{
    compute_modules, compute_positional_ids, detect_table_names, extract_ident, normalize_name,
    BlockId, BlockInfo, TableNameScope,
};

fn info(id: BlockId, kind: &'static str, level: u8, heading: &str, text: &str) -> BlockInfo {
    BlockInfo {
        id,
        kind_tag: kind,
        heading_level: level,
        heading_text: heading.to_string(),
        text_content: text.to_string(),
    }
}

#[test]
fn normalize_heading_names() {
    assert_eq!(normalize_name("Budget"), "budget");
    assert_eq!(normalize_name("My Calculations"), "my_calculations");
    assert_eq!(normalize_name("  Phase 2 — Design  "), "phase_2__design");
}

#[test]
fn extract_ident_basic() {
    assert_eq!(extract_ident("ramp(s, d)"), Some("ramp".into()));
    assert_eq!(extract_ident("x = 5"), Some("x".into()));
    assert_eq!(extract_ident("  my_var: int = 3"), Some("my_var".into()));
    assert_eq!(extract_ident(""), None);
}

#[test]
fn basic_module_structure() {
    let infos = vec![
        info(1, "heading", 1, "Title", ""),
        info(2, "text", 0, "", "let pi = 3.14"),
        info(3, "heading", 2, "Calculations", ""),
        info(4, "text", 0, "", "fn ramp(s, d) {\n    s * d\n}"),
        info(5, "hr", 0, "", ""),
        info(6, "text", 0, "", "some prose"),
    ];

    let modules = compute_modules(&infos);
    assert_eq!(modules.len(), 3);

    assert_eq!(modules[0].name, "title");
    assert!(modules[0].is_root);
    assert_eq!(modules[0].block_ids, vec![1, 2]);

    assert_eq!(modules[1].name, "calculations");
    assert!(!modules[1].is_root);
    assert_eq!(modules[1].block_ids, vec![3, 4]);

    // HR starts an unnamed module; subsequent text joins it
    assert_eq!(modules[2].name, "_unnamed_1");
    assert_eq!(modules[2].block_ids, vec![5, 6]);
}

#[test]
fn unnamed_module_gets_fn_name() {
    let infos = vec![
        info(1, "hr", 0, "", ""),
        info(2, "text", 0, "", "fn helper(x) = x * 2\nlet y = 3"),
    ];
    let modules = compute_modules(&infos);
    assert_eq!(modules.len(), 1);
    assert_eq!(modules[0].name, "helper");
}

#[test]
fn unnamed_module_gets_let_name() {
    let infos = vec![
        info(1, "hr", 0, "", ""),
        info(2, "text", 0, "", "Just prose\nlet total = 100"),
    ];
    let modules = compute_modules(&infos);
    assert_eq!(modules.len(), 1);
    assert_eq!(modules[0].name, "total");
}

#[test]
fn h3_does_not_split_module() {
    let infos = vec![
        info(1, "heading", 2, "Budget", ""),
        info(2, "heading", 3, "Details", ""),
        info(3, "text", 0, "", "content"),
    ];
    let modules = compute_modules(&infos);
    assert_eq!(modules.len(), 1);
    assert_eq!(modules[0].name, "budget");
    assert_eq!(modules[0].block_ids, vec![1, 2, 3]);
}

#[test]
fn empty_input() {
    let modules = compute_modules(&[]);
    assert!(modules.is_empty());
}

#[test]
fn hr_collapses_into_following_h2() {
    let infos = vec![
        info(1, "text", 0, "", "preamble"),
        info(2, "hr", 0, "", ""),
        info(3, "heading", 2, "Section", ""),
        info(4, "text", 0, "", "content"),
    ];
    let modules = compute_modules(&infos);
    assert_eq!(modules.len(), 2);
    assert_eq!(modules[0].block_ids, vec![1]);
    assert_eq!(modules[1].name, "section");
    assert_eq!(modules[1].block_ids, vec![2, 3, 4]);
}

#[test]
fn hr_collapses_into_following_h1() {
    let infos = vec![
        info(1, "text", 0, "", "preamble"),
        info(2, "hr", 0, "", ""),
        info(3, "heading", 1, "Title", ""),
    ];
    let modules = compute_modules(&infos);
    assert_eq!(modules.len(), 2);
    assert_eq!(modules[1].name, "title");
    assert!(modules[1].is_root);
    assert_eq!(modules[1].block_ids, vec![2, 3]);
}

#[test]
fn hr_does_not_collapse_when_followed_by_text() {
    let infos = vec![
        info(1, "hr", 0, "", ""),
        info(2, "text", 0, "", "let total = 1"),
    ];
    let modules = compute_modules(&infos);
    assert_eq!(modules.len(), 1);
    assert_eq!(modules[0].block_ids, vec![1, 2]);
    assert_eq!(modules[0].name, "total");
}

#[test]
fn consecutive_hrs_only_last_is_absorbed() {
    let infos = vec![
        info(1, "hr", 0, "", ""),
        info(2, "hr", 0, "", ""),
        info(3, "heading", 2, "Section", ""),
    ];
    let modules = compute_modules(&infos);
    assert_eq!(modules.len(), 2);
    assert_eq!(modules[0].block_ids, vec![1]);
    assert_eq!(modules[1].name, "section");
    assert_eq!(modules[1].block_ids, vec![2, 3]);
}

#[test]
fn text_before_any_heading() {
    let infos = vec![
        info(1, "text", 0, "", "some preamble"),
        info(2, "heading", 1, "Title", ""),
    ];
    let modules = compute_modules(&infos);
    assert_eq!(modules.len(), 2);
    assert_eq!(modules[0].name, "_unnamed_1");
    assert!(!modules[0].is_root);
    assert_eq!(modules[1].name, "title");
    assert!(modules[1].is_root);
}

#[test]
fn h3_names_table_globally() {
    let infos = vec![
        info(1, "heading", 3, "Revenue", ""),
        info(2, "table", 0, "", ""),
    ];
    let names = detect_table_names(&infos);
    assert_eq!(names.len(), 1);
    assert_eq!(names[0].table_id, 2);
    assert_eq!(names[0].name, "Revenue");
    assert_eq!(names[0].scope, TableNameScope::Global);
}

#[test]
fn h4_names_table_block_scoped() {
    let infos = vec![
        info(1, "heading", 4, "Internal", ""),
        info(2, "table", 0, "", ""),
    ];
    let names = detect_table_names(&infos);
    assert_eq!(names.len(), 1);
    assert_eq!(names[0].scope, TableNameScope::BlockScoped);
}

#[test]
fn h3_without_table_below_is_ignored() {
    let infos = vec![
        info(1, "heading", 3, "Just a heading", ""),
        info(2, "text", 0, "", "no table here"),
    ];
    let names = detect_table_names(&infos);
    assert!(names.is_empty());
}

#[test]
fn h3_with_whitespace_gap_names_table() {
    let infos = vec![
        info(1, "heading", 3, "Revenue", ""),
        info(2, "text", 0, "", "   \n  "),
        info(3, "table", 0, "", ""),
    ];
    let names = detect_table_names(&infos);
    assert_eq!(names.len(), 1);
    assert_eq!(names[0].table_id, 3);
}

#[test]
fn positional_ids_global_ordering() {
    let infos = vec![
        info(10, "heading", 1, "Doc", ""),     // block_1
        info(11, "table", 0, "", ""),          // block_2, table_1
        info(12, "heading", 2, "Section", ""), // block_3
        info(13, "text", 0, "", "prose"),      // block_4
        info(14, "table", 0, "", ""),          // block_5, table_2
    ];
    let ids = compute_positional_ids(&infos);
    assert_eq!(ids.blocks.len(), 5);
    assert_eq!(ids.blocks[0], (10, "block_1".into()));
    assert_eq!(ids.blocks[4], (14, "block_5".into()));
    assert_eq!(ids.tables.len(), 2);
    assert_eq!(ids.tables[0], (11, "table_1".into(), 2));
    assert_eq!(ids.tables[1], (14, "table_2".into(), 5));
}

#[test]
fn modules_cover_every_block_once() {
    let infos = vec![
        info(1, "text", 0, "", "intro"),
        info(2, "hr", 0, "", ""),
        info(3, "hr", 0, "", ""),
        info(4, "heading", 1, "Top", ""),
        info(5, "heading", 2, "!!!", ""),
        info(6, "table", 0, "", ""),
    ];
    let modules = compute_modules(&infos);
    let all: Vec<BlockId> = modules.iter().flat_map(|m| m.block_ids.clone()).collect();
    assert_eq!(all, vec![1, 2, 3, 4, 5, 6]);
    assert!(modules.iter().all(|m| !m.name.is_empty() && !m.block_ids.is_empty()));
    // a heading whose name normalizes to nothing falls back to `_unnamed_N`
    assert_eq!(modules[3].name, "_unnamed_3");
}
