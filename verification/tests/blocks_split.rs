use acord::blocks::{block_at_line, recount_lines, reparse_plan, span_text, BlockExtent, BlockShape};
use acord::blocks::{serialize_blocks, span_kind_tag, BlockMarkdown};
use acord::blocks::{
    classify_spans, heading_prefix, is_hr_line, line_count_with_trailing, split_lines, HeadingBlock,
    HeadingLevel, HrBlock, SpanKind,
};

fn chars(s: &str) -> Vec<char> {
    s.chars().collect()
}

#[test]
fn heading_levels_round_trip() {
    for n in 1u8..=4 {
        assert_eq!(HeadingLevel::from_u8(n).as_u8(), n);
    }
    assert_eq!(HeadingLevel::from_u8(0), HeadingLevel::H4);
    assert_eq!(HeadingLevel::from_u8(9), HeadingLevel::H4);
    assert_eq!(HeadingLevel::H2.as_u8(), 2);
}

#[test]
fn heading_block_markdown() {
    let h = HeadingBlock::new(7, HeadingLevel::H3, "Totals".to_string(), 4);
    assert_eq!(h.to_md(), "### Totals");
    assert_eq!(h.kind_tag(), "heading");
    assert_eq!(h.line_count(), 1);
    let mut h = h;
    h.set_level(1);
    assert_eq!(h.to_md(), "# Totals");
    let r = HrBlock::new(8, 5);
    assert_eq!(r.to_md(), "---");
    assert_eq!((r.id, r.start_line), (8, 5));
}

#[test]
fn line_shapes() {
    assert!(is_hr_line(&chars("  ---  ")));
    assert!(is_hr_line(&chars("-----")));
    assert!(!is_hr_line(&chars("--")));
    assert!(!is_hr_line(&chars("- - -")));
    assert_eq!(heading_prefix(&chars("## Title here")), Some((2, chars("Title here"))));
    assert_eq!(heading_prefix(&chars("  # x")), Some((1, chars("x"))));
    assert_eq!(heading_prefix(&chars("##### five")), None);
    assert_eq!(heading_prefix(&chars("#nospace")), None);
    assert_eq!(heading_prefix(&chars("###")), None);
}

#[test]
fn trailing_newline_counts_as_a_line() {
    assert_eq!(line_count_with_trailing(""), 1);
    assert_eq!(line_count_with_trailing("a"), 1);
    assert_eq!(line_count_with_trailing("a\n"), 2);
    assert_eq!(line_count_with_trailing("a\nb\n\n"), 4);
}

#[test]
fn spans_of_a_document() {
    let text = "# Title\nintro\nmore\n---\n| a | b |\n|---|:-:|\n| 1 | 2 |\n\nafter";
    let lines = split_lines(text);
    let spans = classify_spans(&lines);
    let shape: Vec<(SpanKind, usize, usize)> = spans.iter().map(|s| (s.kind, s.start, s.end)).collect();
    assert_eq!(
        shape,
        vec![
            (SpanKind::Heading, 0, 1),
            (SpanKind::Text, 1, 3),
            (SpanKind::HorizontalRule, 3, 4),
            (SpanKind::Table, 4, 7),
            (SpanKind::Text, 7, 9),
        ]
    );
    assert_eq!(spans[0].heading_level, 1);
    assert_eq!(spans[0].heading_text, "Title");
    assert_eq!(
        spans[3].table_rows,
        vec![vec!["a".to_string(), "b".to_string()], vec!["1".to_string(), "2".to_string()]]
    );
}

#[test]
fn empty_document_is_one_empty_text_span() {
    let spans = classify_spans(&[]);
    assert_eq!(spans.len(), 1);
    assert_eq!((spans[0].kind, spans[0].start, spans[0].end), (SpanKind::Text, 0, 0));
}

#[test]
fn pipe_line_without_separator_is_text() {
    let lines = split_lines("| a |\n| b |");
    let spans = classify_spans(&lines);
    assert_eq!(spans.len(), 1);
    assert_eq!((spans[0].kind, spans[0].start, spans[0].end), (SpanKind::Text, 0, 2));
}

#[test]
fn block_positions() {
    let mut bs = vec![
        BlockExtent { start_line: 9, line_count: 2 },
        BlockExtent { start_line: 9, line_count: 0 },
        BlockExtent { start_line: 9, line_count: 3 },
    ];
    recount_lines(&mut bs);
    let starts: Vec<usize> = bs.iter().map(|b| b.start_line).collect();
    assert_eq!(starts, vec![0, 2, 2]);
    assert_eq!(block_at_line(&bs, 1), Some(0));
    assert_eq!(block_at_line(&bs, 2), Some(2));
    assert_eq!(block_at_line(&bs, 4), Some(2));
    assert_eq!(block_at_line(&bs, 5), None);
}

#[test]
fn serialize_skips_results_and_empty_non_text() {
    let b = |t: &str, e: bool, md: &str| BlockMarkdown { kind_tag: t.to_string(), is_eval_result: e, md: md.to_string() };
    let blocks = vec![
        b("heading", false, "# T"),
        b("text", false, ""),
        b("table", true, "| r |"),
        b("tree", false, "x"),
        b("hr", false, ""),
        b("table", false, "| a |"),
    ];
    assert_eq!(serialize_blocks(&blocks), "# T\n\n| a |");
    assert_eq!(span_kind_tag(SpanKind::HorizontalRule), "hr");
    assert_eq!(span_kind_tag(SpanKind::Table), "table");
}

#[test]
fn reparse_keeps_blocks_that_did_not_move() {
    let lines = split_lines("# T\nsome text\n---\nmore");
    let spans = classify_spans(&lines);
    let kinds: Vec<SpanKind> = spans.iter().map(|s| s.kind).collect();
    assert_eq!(kinds, vec![SpanKind::Heading, SpanKind::Text, SpanKind::HorizontalRule, SpanKind::Text]);
    let old = vec![
        BlockShape { kind: SpanKind::Heading, start_line: 0, line_count: 1 },
        BlockShape { kind: SpanKind::Text, start_line: 1, line_count: 2 },
        BlockShape { kind: SpanKind::Text, start_line: 3, line_count: 1 },
    ];
    let plan = reparse_plan(&old, &spans);
    assert_eq!(plan.keep, vec![true, true, false, false]);
    assert!(!plan.placeholder);
    let empty_doc = classify_spans(&split_lines(""));
    let plan = reparse_plan(&old, &empty_doc);
    assert_eq!(plan.keep, vec![false]);
    assert!(!plan.placeholder);
    assert!(reparse_plan(&old, &[]).placeholder);
    assert!(!reparse_plan(&[], &[]).placeholder);
}

#[test]
fn span_text_joins_lines() {
    let lines = split_lines("a\nb\nc\n");
    assert_eq!(span_text(&lines, 0, 2), "a\nb");
    assert_eq!(span_text(&lines, 2, 4), "c\n");
    assert_eq!(span_text(&lines, 1, 1), "");
}
