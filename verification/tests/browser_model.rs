use acord::browser::parse_heading_level;
use acord::browser::{body_looks_blank, folder_summary_text, strip_sidecar_archive};

#[test]
fn blank_body_detection() {
    assert!(body_looks_blank(""));
    assert!(body_looks_blank("   \n\n  "));
    assert!(body_looks_blank("| | |\n| - | - |\n| | |"));
    assert!(body_looks_blank("| Header 1 | Header 2 |\n| -------- | -------- |"));
    assert!(!body_looks_blank("hello"));
    assert!(!body_looks_blank("| a | b |\n| - | - |\n| 1 | 2 |"));
}

#[test]
fn sidecar_strip() {
    let text = "body line\n\n<!-- acord-archive\nABCDEF\n-->\n";
    assert_eq!(strip_sidecar_archive(text), "body line\n\n");
    assert_eq!(strip_sidecar_archive("plain"), "plain");
}

#[test]
fn folder_summaries() {
    assert_eq!(folder_summary_text(0, 0), "Empty");
    assert_eq!(folder_summary_text(1, 0), "1 file");
    assert_eq!(folder_summary_text(3, 1), "3 files, 1 folder");
    assert_eq!(folder_summary_text(0, 12), "12 folders");
}

#[test]
fn preview_heading_levels() {
    assert_eq!(parse_heading_level("  ## Title"), Some(2));
    assert_eq!(parse_heading_level("### x"), Some(3));
    assert_eq!(parse_heading_level("#### x"), Some(3));
    assert_eq!(parse_heading_level("  ###### deep"), Some(3));
    assert_eq!(parse_heading_level("####x"), None);
    assert_eq!(parse_heading_level("#x"), None);
    assert_eq!(parse_heading_level("plain"), None);
}
