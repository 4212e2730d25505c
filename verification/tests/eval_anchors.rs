use acord::anchors::{has_text_eval, image_refs, map_line_to_anchor, module_text};

fn anchor(bs: &[(usize, u64)], line: usize) -> (u64, usize) {
    let a = map_line_to_anchor(bs, line);
    (a.block_id, a.after_line)
}

#[test]
fn module_text_joins_blocks_and_marks_starts() {
    let blocks = vec![(7u64, "a\nb".to_string()), (9u64, String::new()), (3u64, "c\n".to_string())];
    let m = module_text(&blocks);
    assert_eq!(m.source, "a\nb\n\nc\n");
    assert_eq!(m.boundaries, vec![(0, 7), (2, 9), (3, 3)]);
}

#[test]
fn lines_anchor_to_their_block() {
    let bs = vec![(0usize, 7u64), (2, 9), (3, 3)];
    assert_eq!(anchor(&bs, 0), (7, 0));
    assert_eq!(anchor(&bs, 1), (7, 1));
    assert_eq!(anchor(&bs, 2), (9, 0));
    assert_eq!(anchor(&bs, 3), (3, 0));
    assert_eq!(anchor(&bs, 5), (3, 2));
    assert_eq!(anchor(&[], 4), (0, 4));
    assert_eq!(anchor(&[(5, 1)], 2), (1, 2));
}

#[test]
fn eval_lines_detected() {
    assert!(has_text_eval("a\n  /= 1 + 1"));
    assert!(!has_text_eval("a /= 1"));
    assert!(!has_text_eval(""));
}

#[test]
fn images_found_by_line() {
    let imgs = image_refs("x\n![alt](pic.png)\n ![b]( q ) ");
    assert_eq!(
        imgs,
        vec![(1, "pic.png".to_string(), "alt".to_string()), (2, "q".to_string(), "b".to_string())]
    );
    assert!(image_refs("no images").is_empty());
}
