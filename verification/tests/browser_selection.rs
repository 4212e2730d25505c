use acord::browser::BrowserSelection;

fn items() -> Vec<String> {
    ["/n/a.md", "/n/b.md", "/n/c", "/n/d.md"].iter().map(|s| s.to_string()).collect()
}

fn sorted(sel: &BrowserSelection) -> Vec<String> {
    let mut v = sel.selected_paths();
    v.sort();
    v
}

#[test]
fn plain_click_selects_one() {
    let mut sel = BrowserSelection::new();
    sel.click("/n/a.md", false, false, &items());
    sel.click("/n/b.md", false, false, &items());
    assert_eq!(sorted(&sel), vec!["/n/b.md"]);
    assert_eq!(sel.anchor(), Some("/n/b.md".to_string()));
    assert_eq!(sel.single_selected(), Some("/n/b.md".to_string()));
}

#[test]
fn command_click_toggles() {
    let mut sel = BrowserSelection::new();
    sel.click("/n/a.md", false, false, &items());
    sel.click("/n/c", true, false, &items());
    assert_eq!(sorted(&sel), vec!["/n/a.md", "/n/c"]);
    assert_eq!(sel.single_selected(), None);
    sel.click("/n/c", true, false, &items());
    assert_eq!(sorted(&sel), vec!["/n/a.md"]);
    assert_eq!(sel.anchor(), Some("/n/c".to_string()));
}

#[test]
fn shift_click_selects_range_from_anchor() {
    let mut sel = BrowserSelection::new();
    sel.click("/n/b.md", false, false, &items());
    sel.click("/n/d.md", false, true, &items());
    assert_eq!(sorted(&sel), vec!["/n/b.md", "/n/c", "/n/d.md"]);
    assert_eq!(sel.anchor(), Some("/n/b.md".to_string()));
    sel.click("/n/a.md", false, true, &items());
    assert_eq!(sorted(&sel), vec!["/n/a.md", "/n/b.md"]);
}

#[test]
fn shift_click_without_anchor_selects_one() {
    let mut sel = BrowserSelection::new();
    sel.click("/n/c", false, true, &items());
    assert_eq!(sorted(&sel), vec!["/n/c"]);
    assert_eq!(sel.anchor(), Some("/n/c".to_string()));
    sel.click("/n/gone.md", false, true, &items());
    assert_eq!(sorted(&sel), vec!["/n/gone.md"]);
    assert_eq!(sel.anchor(), Some("/n/gone.md".to_string()));
}

#[test]
fn remove_and_prune() {
    let mut sel = BrowserSelection::new();
    sel.click("/n/a.md", false, false, &items());
    sel.click("/n/d.md", false, true, &items());
    sel.remove("/n/c");
    assert_eq!(sorted(&sel), vec!["/n/a.md", "/n/b.md", "/n/d.md"]);
    assert_eq!(sel.anchor(), Some("/n/a.md".to_string()));
    sel.remove("/n/a.md");
    assert_eq!(sel.anchor(), None);
    let live: Vec<String> = vec!["/n/d.md".to_string(), "/n/x".to_string()];
    sel.prune(&live);
    assert_eq!(sorted(&sel), vec!["/n/d.md"]);
    assert!(sel.is_selected("/n/d.md"));
    assert!(!sel.is_selected("/n/b.md"));
    sel.clear();
    assert!(sel.selected_paths().is_empty());
}

#[test]
fn prune_drops_dead_anchor() {
    let mut sel = BrowserSelection::new();
    sel.click("/n/b.md", false, false, &items());
    sel.prune(&["/n/a.md".to_string()]);
    assert!(sel.selected_paths().is_empty());
    assert_eq!(sel.anchor(), None);
}

#[test]
fn note_extensions_ignore_case() {
    assert!(acord::browser::is_note_extension("md"));
    assert!(acord::browser::is_note_extension("MD"));
    assert!(acord::browser::is_note_extension("Markdown"));
    assert!(acord::browser::is_note_extension("mdown"));
    assert!(acord::browser::is_note_extension("TXT"));
    assert!(!acord::browser::is_note_extension("rs"));
    assert!(!acord::browser::is_note_extension(""));
    assert!(!acord::browser::is_note_extension("mdx"));
}

#[test]
fn folders_first_then_newest() {
    let es = vec![
        acord::browser::ScanEntry { is_dir: false, modified: 5 },
        acord::browser::ScanEntry { is_dir: true, modified: 1 },
        acord::browser::ScanEntry { is_dir: false, modified: 9 },
        acord::browser::ScanEntry { is_dir: true, modified: 3 },
        acord::browser::ScanEntry { is_dir: false, modified: 5 },
    ];
    assert_eq!(acord::browser::browser_order(&es), vec![3, 1, 2, 0, 4]);
    assert!(acord::browser::browser_order(&[]).is_empty());
}

#[test]
fn note_preview_text() {
    assert_eq!(acord::browser::note_preview("# Title\nbody\n"), "# Title\nbody");
    assert_eq!(acord::browser::note_preview("   \n|---|\n"), "(empty note)");
    assert_eq!(
        acord::browser::note_preview("text\n<!-- acord-archive abc -->"),
        "text"
    );
    let long: String = (0..40).map(|i| format!("l{}\n", i)).collect();
    let expected: Vec<String> = (0..32).map(|i| format!("l{}", i)).collect();
    assert_eq!(acord::browser::note_preview(&long), expected.join("\n"));
}
