use acord::blocks::HeadingLevel;
use acord::export::{
    build_block_files, build_sh, cargo_toml, cord_file_content, escape_title, ident_from_filename,
    install_sh, lib_rs, main_rs, readme_md, to_hyphen_name, truncate, unique_cord_filename,
    BlockFile, ExportBlock, ExportModule, InventoryItem,
};

#[test]
fn hyphen_names() {
    assert_eq!(to_hyphen_name("My Budget_2024"), "my-budget-2024");
    assert_eq!(to_hyphen_name("  --Hello World!--  "), "hello-world");
    assert_eq!(to_hyphen_name("___"), "");
    assert_eq!(to_hyphen_name("a.b"), "ab");
}

#[test]
fn truncation_and_file_idents() {
    assert_eq!(truncate("hello", 5), "hello");
    assert_eq!(truncate("hello world", 5), "hello...");
    assert_eq!(truncate("", 0), "");
    assert_eq!(ident_from_filename("01-budget.cord"), "_budget");
    assert_eq!(ident_from_filename("Sales Q1.cord"), "Sales_Q1");
    assert_eq!(ident_from_filename("_x y.cord.cord"), "_x_y");
    assert_eq!(ident_from_filename("9.cord"), "");
}

#[test]
fn crate_templates_carry_the_name() {
    let t = cargo_toml("my-note");
    assert!(t.starts_with("[package]\nname = \"my-note\"\n"));
    assert!(t.contains("[[bin]]\nname = \"my-note\"\npath = \"src/main.rs\""));
    let i = install_sh("my-note");
    assert!(i.contains("NAME=\"my-note\"\nDEST=\"${HOME}/.acord/bin\""));
    assert!(build_sh("x").contains("cargo build --release"));
}

#[test]
fn titles_are_escaped_for_front_matter() {
    assert_eq!(escape_title("plain"), "plain");
    assert_eq!(escape_title("a\"b\\c"), "a\\\"b\\\\c");
    assert_eq!(
        cord_file_content(true, 2, "Say \"hi\"", "x = 1"),
        "---\nkind = \"section\"\nindex = 2\ntitle = \"Say \\\"hi\\\"\"\n---\nx = 1"
    );
    assert_eq!(
        cord_file_content(false, 0, "", ""),
        "---\nkind = \"anonymous\"\nindex = 0\ntitle = \"\"\n---\n"
    );
}

#[test]
fn cord_file_names_are_unique() {
    let mut used: Vec<String> = Vec::new();
    assert_eq!(unique_cord_filename("notes", 0, &mut used), "notes.cord");
    assert_eq!(unique_cord_filename("notes", 1, &mut used), "notes_2.cord");
    assert_eq!(unique_cord_filename("notes", 2, &mut used), "notes_3.cord");
    assert_eq!(unique_cord_filename("", 3, &mut used), "block_3.cord");
    assert_eq!(used.len(), 4);
    assert_eq!(used[1], "notes_2.cord");
}

fn block(heading: Option<&str>, md: &str) -> ExportBlock {
    ExportBlock { heading: heading.map(|h| h.to_string()), markdown: md.to_string() }
}

#[test]
fn block_files_carry_front_matter_and_source() {
    let ms = vec![
        ExportModule { name: String::new(), is_section: false, blocks: vec![block(None, "a = 1")] },
        ExportModule {
            name: "budget".to_string(),
            is_section: true,
            blocks: vec![block(Some("Budget"), "# Budget"), block(Some("Later"), "## Later"), block(None, "b = 2")],
        },
        ExportModule { name: "budget".to_string(), is_section: true, blocks: vec![block(Some(""), "#"), block(Some("Again"), "# Again")] },
    ];
    let fs = build_block_files(&ms);
    assert_eq!(fs.len(), 3);
    assert_eq!(fs[0].filename, "block_0.cord");
    assert_eq!(fs[1].filename, "budget.cord");
    assert_eq!(fs[2].filename, "budget_2.cord");
    assert_eq!(fs[0].content, "---\nkind = \"anonymous\"\nindex = 0\ntitle = \"\"\n---\na = 1");
    assert_eq!(
        fs[1].content,
        "---\nkind = \"section\"\nindex = 1\ntitle = \"Budget\"\n---\n# Budget\n## Later\nb = 2"
    );
    assert!(fs[2].content.contains("title = \"Again\""));
}

#[test]
fn crate_sources_load_every_block() {
    let fs = vec![
        BlockFile { filename: "01-intro.cord".to_string(), content: String::new() },
        BlockFile { filename: "sales q1.cord".to_string(), content: String::new() },
    ];
    let m = main_rs("my-note", &fs);
    assert!(m.starts_with("//! my-note — exported Acord note running as a REPL."));
    assert!(m.contains("const _INTRO: &str = include_str!(\"blocks/01-intro.cord\");\nconst SALES_Q1: &str = include_str!(\"blocks/sales q1.cord\");\n"));
    assert!(m.contains("let mut interp = Interpreter::new();\n    load_block(&mut interp, _INTRO);\n    load_block(&mut interp, SALES_Q1);\n"));
    let l = lib_rs(&fs);
    assert!(l.contains("pub fn load() -> Interpreter {\n    let mut interp = Interpreter::new();\n    load_block(&mut interp, _INTRO);\n    load_block(&mut interp, SALES_Q1);\n\n    interp\n}"));
    assert!(!lib_rs(&[]).contains("load_block(&mut interp"));
}

#[test]
fn readme_lists_the_blocks() {
    let items = vec![
        InventoryItem::Heading { level: HeadingLevel::H2, text: "  Costs ".to_string() },
        InventoryItem::Text { content: "  first line  \nsecond".to_string() },
        InventoryItem::Text { content: "   ".to_string() },
        InventoryItem::Text { content: "x".repeat(70) },
        InventoryItem::Other { kind: "table".to_string() },
    ];
    let r = readme_md("my-note", &items);
    assert!(r.starts_with("# my-note\n\nThis is your Acord note"));
    let inv = format!(
        "## Blocks\n\n- **heading** (level 2) — `Costs`\n- **text** — first line\n- **text**\n- **text** — {}...\n- **table**\n\n## Use from another Rust project",
        "x".repeat(60)
    );
    assert!(r.contains(&inv));
    assert!(r.contains("use my-note::load;"));
}
