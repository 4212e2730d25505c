use acord::persist::{title_from_text, NoteMeta, StateIndex};

fn meta(uuid: &str, title: &str, modified: u64) -> NoteMeta {
    NoteMeta {
        uuid: uuid.into(),
        title: title.into(),
        path: format!("/tmp/{}.sw", uuid),
        modified,
    }
}

#[test]
fn title_extraction() {
    assert_eq!(title_from_text("# My Note\nSome content"), "My Note");
    assert_eq!(title_from_text("Hello world"), "Hello world");
    assert_eq!(title_from_text(""), "Untitled");
    assert_eq!(title_from_text("\n\n## Section\nstuff"), "Section");
}

#[test]
fn state_index_round_trip() {
    let mut idx = StateIndex::new();
    idx.upsert(NoteMeta {
        uuid: "abc".into(),
        title: "Test".into(),
        path: "/tmp/test.sw".into(),
        modified: 1000,
    });
    assert_eq!(idx.list().len(), 1);
    idx.remove("abc");
    assert_eq!(idx.list().len(), 0);
}

#[test]
fn title_skips_hash_only_lines_and_cuts_at_80() {
    assert_eq!(title_from_text("###\n  ##   Real title  \n"), "Real title");
    let long = "x".repeat(100);
    assert_eq!(title_from_text(&long).chars().count(), 80);
    assert_eq!(title_from_text("   \n#\n"), "Untitled");
}

#[test]
fn upsert_replaces_the_note_with_the_same_uuid() {
    let mut idx = StateIndex::new();
    idx.upsert(meta("a", "first", 10));
    idx.upsert(meta("a", "second", 20));
    let l = idx.list();
    assert_eq!(l.len(), 1);
    assert_eq!(l[0].title, "second");
    assert_eq!(l[0].modified, 20);
}

#[test]
fn list_is_most_recent_first() {
    let mut idx = StateIndex::new();
    idx.upsert(meta("a", "old", 5));
    idx.upsert(meta("b", "new", 50));
    idx.upsert(meta("c", "mid", 20));
    let l = idx.list();
    let order: Vec<&str> = l.iter().map(|m| m.uuid.as_str()).collect();
    assert_eq!(order, vec!["b", "c", "a"]);
    idx.remove("zzz");
    assert_eq!(idx.list().len(), 3);
}
