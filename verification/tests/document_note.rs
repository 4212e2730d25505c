use acord::doc::LineKind;
use acord::document::AcordDoc;

#[test]
fn new_note_takes_its_uuid_from_random_bytes() {
    let bytes: [u8; 16] = [0, 1, 2, 3, 4, 5, 6, 7, 8, 9, 10, 11, 12, 13, 14, 15];
    let d = AcordDoc::new(bytes);
    assert_eq!(d.text, "");
    assert!(d.classified_lines().is_empty());
    assert_eq!(d.uuid, "00010203-0405-4607-8809-0a0b0c0d0e0f");
    assert_eq!(AcordDoc::new([0xff; 16]).uuid, "ffffffff-ffff-4fff-bfff-ffffffffffff");
    assert_eq!(AcordDoc::new([0; 16]).uuid, "00000000-0000-4000-8000-000000000000");
}

#[test]
fn set_text_classifies_lines() {
    let mut d = AcordDoc::with_uuid("fixed".to_string());
    d.set_text("# Title\nlet x = 5\n/= x");
    assert_eq!(d.uuid, "fixed");
    assert_eq!(d.text, "# Title\nlet x = 5\n/= x");
    let kinds: Vec<LineKind> = d.classified_lines().iter().map(|l| l.kind).collect();
    assert_eq!(kinds, vec![LineKind::Markdown, LineKind::Cordial, LineKind::Eval]);
}
