use glean::diag::{LogBuffer, LOG_CAPACITY};
use glean::fetch::{copied_text, fetch_selected_text, FetchStep};
use glean::selection::selection_to_show;
use glean::text::{is_whitespace, trimmed};
use glean::update::system_info;

#[test]
fn whitespace_matches_std() {
    for c in (0u32..=0x3100).filter_map(char::from_u32) {
        assert_eq!(is_whitespace(c), c.is_whitespace(), "{:?}", c);
    }
    assert_eq!(trimmed("\u{3000} a b \u{85}"), "a b");
}

#[test]
fn log_keeps_the_latest_lines() {
    let mut log = LogBuffer::new();
    for i in 0..LOG_CAPACITY + 5 {
        log.push(format!("line {i}"));
    }
    let lines = log.lines();
    assert_eq!(lines.len(), LOG_CAPACITY);
    assert_eq!(lines[0], "line 5");
    assert_eq!(lines[LOG_CAPACITY - 1], format!("line {}", LOG_CAPACITY + 4));
}

#[test]
fn accessibility_answer_or_copy_fallback() {
    assert!(matches!(fetch_selected_text(Some("x".to_string())), FetchStep::Selected(s) if s == "x"));
    assert!(matches!(fetch_selected_text(Some(String::new())), FetchStep::CopyFallback));
    assert!(matches!(fetch_selected_text(None), FetchStep::CopyFallback));
}

#[test]
fn text_on_cleared_clipboard_means_copied() {
    // The same text as before the copy still counts: the clipboard was cleared.
    assert_eq!(copied_text(Some("old".to_string())), Some("old".to_string()));
    assert_eq!(copied_text(Some("new".to_string())), Some("new".to_string()));
    assert_eq!(copied_text(Some(String::new())), None);
    assert_eq!(copied_text(None), None);
}

#[test]
fn blank_selection_is_dropped() {
    assert!(selection_to_show(" \n ").is_none());
    assert_eq!(selection_to_show("  word\n").unwrap().text, "word");
}

#[test]
fn system_info_labels() {
    let i = system_info(true, "macos", "aarch64", Some(" 14.5\n".to_string()));
    assert_eq!(i.build_type, "Debug");
    assert_eq!(i.platform, "macos");
    assert_eq!(i.arch, "aarch64");
    assert_eq!(i.os_version, "macOS 14.5");
    assert_eq!(system_info(false, "macos", "x86_64", None).os_version, "macOS");
    assert_eq!(system_info(false, "linux", "x86_64", None).os_version, "linux");
    assert_eq!(system_info(false, "linux", "x86_64", Some("14.5".to_string())).os_version, "linux");
    assert_eq!(system_info(false, "linux", "x86_64", None).build_type, "Release");
}
