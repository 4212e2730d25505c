use acord::highlight::highlight_source;
use acord::highlight::{spans_from_events, HighlightSpan, HighlightStep};

#[test]
fn spans_take_the_innermost_open_highlight() {
    let ev = vec![
        HighlightStep::Source { start: 0, end: 2 },
        HighlightStep::Start(3),
        HighlightStep::Source { start: 2, end: 5 },
        HighlightStep::Start(7),
        HighlightStep::Source { start: 5, end: 6 },
        HighlightStep::End,
        HighlightStep::Source { start: 6, end: 8 },
        HighlightStep::End,
        HighlightStep::End,
        HighlightStep::Source { start: 8, end: 9 },
    ];
    assert_eq!(
        spans_from_events(&ev),
        vec![
            HighlightSpan { start: 2, end: 5, kind: 3 },
            HighlightSpan { start: 5, end: 6, kind: 7 },
            HighlightSpan { start: 6, end: 8, kind: 3 },
        ]
    );
}

#[test]
fn output_after_a_failure_is_ignored() {
    let ev = vec![
        HighlightStep::Start(1),
        HighlightStep::Source { start: 0, end: 1 },
        HighlightStep::Failed,
        HighlightStep::Source { start: 1, end: 2 },
    ];
    assert_eq!(spans_from_events(&ev), vec![HighlightSpan { start: 0, end: 1, kind: 1 }]);
    assert_eq!(spans_from_events(&[HighlightStep::Start(300), HighlightStep::Source { start: 0, end: 1 }])[0].kind, 44);
}

#[test]
fn highlighting_real_source() {
    assert!(highlight_source("fn main() {}", "no-such-language").is_empty());
    let spans = highlight_source("fn main() { let x = 1; }", "rust");
    assert!(!spans.is_empty());
    // `fn` is a keyword, the first recognized highlight name
    assert!(spans.iter().any(|s| s.start == 0 && s.end == 2 && s.kind == 0));
    assert!(spans.iter().all(|s| s.start <= s.end && s.end <= 24));
}
