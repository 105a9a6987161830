use scriptview::entry::SubtitleEntry;
use scriptview::reload::{reload, ReadOutcome};
use scriptview::store::TranscriptStore;

fn entry(text: &str, start_time_ms: i64) -> SubtitleEntry {
    SubtitleEntry { text: text.to_string(), start_time_ms, end_time_ms: None, timestamp: 0 }
}

fn texts(entries: &[SubtitleEntry]) -> Vec<String> {
    entries.iter().map(|e| e.text.clone()).collect()
}

#[test]
fn test_store_starts_empty_and_absent() {
    let store = TranscriptStore::new();
    assert_eq!(store.len(), 0);
    assert_eq!(store.snapshot().len(), 0);
    assert!(!store.feed_present());
}

#[test]
fn test_store_replace_and_snapshot() {
    let mut store = TranscriptStore::new();
    store.replace(vec![entry("a", 0), entry("b", 1000)]);
    let snap = store.snapshot();
    assert_eq!(texts(&snap), vec!["a".to_string(), "b".to_string()]);
    assert_eq!(snap[1].start_time_ms, 1000);
}

#[test]
fn test_store_replace_is_wholesale() {
    // A snapshot reflects exactly one installed transcript, never a mix of
    // two, and an older snapshot is untouched by a later replace.
    let mut store = TranscriptStore::new();
    store.replace(vec![entry("old one", 0), entry("old two", 1000)]);
    let before = store.snapshot();

    store.replace(vec![entry("new one", 2000)]);
    let after = store.snapshot();

    assert_eq!(texts(&before), vec!["old one".to_string(), "old two".to_string()]);
    assert_eq!(texts(&after), vec!["new one".to_string()]);
}

#[test]
fn test_store_clear_empties_transcript_only() {
    let mut store = TranscriptStore::new();
    store.set_feed_present(true);
    store.replace(vec![entry("a", 0)]);
    store.clear();
    assert_eq!(store.len(), 0);
    assert!(store.feed_present());
}

#[test]
fn test_reload_content_installs_collapsed_transcript() {
    let mut store = TranscriptStore::new();
    let raw = "[{\"text\":\"I\",\"start_time\":1.0,\"timestamp\":1},\
               {\"text\":\"I am\",\"start_time\":1.2,\"timestamp\":2},\
               {\"text\":\"Next\",\"start_time\":2.0,\"timestamp\":3}]";
    reload(&mut store, ReadOutcome::Content(raw.to_string()));
    assert!(store.feed_present());
    let snap = store.snapshot();
    assert_eq!(texts(&snap), vec!["I am".to_string(), "Next".to_string()]);
    assert_eq!(snap[0].start_time_ms, 1200);
    assert_eq!(snap[0].timestamp, 2);
}

#[test]
fn test_reload_parse_error_keeps_transcript_identical() {
    let mut store = TranscriptStore::new();
    let raw = "[{\"text\":\"kept line\",\"start_time\":1.5,\"end_time\":2.5,\"timestamp\":9}]";
    reload(&mut store, ReadOutcome::Content(raw.to_string()));
    let before = store.snapshot();
    assert_eq!(before.len(), 1);

    reload(&mut store, ReadOutcome::Content("[{\"text\":\"mid-write".to_string()));
    let after = store.snapshot();

    assert_eq!(before.len(), after.len());
    for (a, b) in before.iter().zip(after.iter()) {
        assert_eq!(a.text, b.text);
        assert_eq!(a.start_time_ms, b.start_time_ms);
        assert_eq!(a.end_time_ms, b.end_time_ms);
        assert_eq!(a.timestamp, b.timestamp);
    }
    assert!(store.feed_present());
}

#[test]
fn test_reload_missing_keeps_transcript_and_flags_absence() {
    let mut store = TranscriptStore::new();
    reload(
        &mut store,
        ReadOutcome::Content("[{\"text\":\"a\",\"start_time\":0,\"timestamp\":0}]".to_string()),
    );
    assert_eq!(store.len(), 1);
    assert!(store.feed_present());

    reload(&mut store, ReadOutcome::Missing);
    assert_eq!(store.len(), 1);
    assert!(!store.feed_present());

    reload(&mut store, ReadOutcome::Unreadable);
    assert_eq!(store.len(), 1);
    assert!(store.feed_present());
}

#[test]
fn test_reload_empty_feed_clears_transcript() {
    let mut store = TranscriptStore::new();
    reload(
        &mut store,
        ReadOutcome::Content("[{\"text\":\"a\",\"start_time\":0,\"timestamp\":0}]".to_string()),
    );
    assert_eq!(store.len(), 1);

    reload(&mut store, ReadOutcome::Content("[]".to_string()));
    assert_eq!(store.len(), 0);
    assert!(store.feed_present());
}
