use scriptview::collapse::filter_prefix_subtitles;
use scriptview::collapse::str_is_prefix_of;
use scriptview::entry::SubtitleEntry;

fn create_subtitle(text: &str, start_time: f64) -> SubtitleEntry {
    SubtitleEntry {
        text: text.to_string(),
        start_time_ms: (start_time * 1000.0) as i64,
        end_time_ms: None,
        timestamp: 0,
    }
}

#[test]
fn test_filter_no_prefixes() {
    let subtitles = vec![
        create_subtitle("Hello world", 1.0),
        create_subtitle("Goodbye world", 2.0),
        create_subtitle("Another subtitle", 3.0),
    ];

    let filtered = filter_prefix_subtitles(subtitles.clone());
    assert_eq!(filtered.len(), 3);
    assert_eq!(filtered[0].text, "Hello world");
    assert_eq!(filtered[1].text, "Goodbye world");
    assert_eq!(filtered[2].text, "Another subtitle");
}

#[test]
fn test_filter_single_prefix() {
    let subtitles = vec![
        create_subtitle("Hello", 1.0),
        create_subtitle("Hello world", 2.0),
        create_subtitle("Goodbye", 3.0),
    ];

    let filtered = filter_prefix_subtitles(subtitles);
    assert_eq!(filtered.len(), 2);
    assert_eq!(filtered[0].text, "Hello world");
    assert_eq!(filtered[1].text, "Goodbye");
}

#[test]
fn test_filter_multiple_prefixes() {
    let subtitles = vec![
        create_subtitle("H", 1.0),
        create_subtitle("He", 1.5),
        create_subtitle("Hel", 2.0),
        create_subtitle("Hell", 2.5),
        create_subtitle("Hello", 3.0),
        create_subtitle("Hello world", 3.5),
        create_subtitle("Next subtitle", 4.0),
    ];

    let filtered = filter_prefix_subtitles(subtitles);
    assert_eq!(filtered.len(), 2);
    assert_eq!(filtered[0].text, "Hello world");
    assert_eq!(filtered[1].text, "Next subtitle");
}

#[test]
fn test_filter_keeps_last_subtitle() {
    let subtitles = vec![create_subtitle("Hello", 1.0), create_subtitle("World", 2.0)];

    let filtered = filter_prefix_subtitles(subtitles);
    assert_eq!(filtered.len(), 2);
    assert_eq!(filtered[1].text, "World");
}

#[test]
fn test_filter_empty_list() {
    let subtitles = vec![];
    let filtered = filter_prefix_subtitles(subtitles);
    assert_eq!(filtered.len(), 0);
}

#[test]
fn test_filter_single_subtitle() {
    let subtitles = vec![create_subtitle("Only one", 1.0)];
    let filtered = filter_prefix_subtitles(subtitles);
    assert_eq!(filtered.len(), 1);
    assert_eq!(filtered[0].text, "Only one");
}

#[test]
fn test_filter_progressive_typing() {
    // Simulates progressive typing/display of a subtitle
    let subtitles = vec![
        create_subtitle("I", 1.0),
        create_subtitle("I a", 1.1),
        create_subtitle("I am", 1.2),
        create_subtitle("I am t", 1.3),
        create_subtitle("I am ty", 1.4),
        create_subtitle("I am typ", 1.5),
        create_subtitle("I am typi", 1.6),
        create_subtitle("I am typin", 1.7),
        create_subtitle("I am typing", 1.8),
        create_subtitle("I am typing this", 1.9),
        create_subtitle("I am typing this message", 2.0),
        create_subtitle("Next subtitle", 3.0),
    ];

    let filtered = filter_prefix_subtitles(subtitles);
    assert_eq!(filtered.len(), 2);
    assert_eq!(filtered[0].text, "I am typing this message");
    assert_eq!(filtered[1].text, "Next subtitle");
}

#[test]
fn test_filter_non_prefix_similar_start() {
    // These start similarly but aren't prefixes
    let subtitles = vec![
        create_subtitle("Hello world", 1.0),
        create_subtitle("Hello there", 2.0),
        create_subtitle("Helicopter", 3.0),
    ];

    let filtered = filter_prefix_subtitles(subtitles);
    assert_eq!(filtered.len(), 3);
    assert_eq!(filtered[0].text, "Hello world");
    assert_eq!(filtered[1].text, "Hello there");
    assert_eq!(filtered[2].text, "Helicopter");
}

#[test]
fn test_filter_strict_prefix_chain() {
    let subtitles = vec![
        create_subtitle("H", 1.0),
        create_subtitle("He", 1.1),
        create_subtitle("Hel", 1.2),
        create_subtitle("Hell", 1.3),
        create_subtitle("Hello", 1.4),
    ];

    let filtered = filter_prefix_subtitles(subtitles);
    assert_eq!(filtered.len(), 1);
    assert_eq!(filtered[0].text, "Hello");
}

#[test]
fn test_filter_mixed_chain_then_new() {
    let subtitles = vec![
        create_subtitle("I", 1.0),
        create_subtitle("I a", 1.1),
        create_subtitle("I am", 1.2),
        create_subtitle("Next subtitle", 2.0),
    ];

    let filtered = filter_prefix_subtitles(subtitles);
    assert_eq!(filtered.len(), 2);
    assert_eq!(filtered[0].text, "I am");
    assert_eq!(filtered[1].text, "Next subtitle");
}

#[test]
fn test_filter_equal_neighbours_collapse() {
    // An entry equal to its successor counts as a prefix and is dropped.
    let subtitles = vec![
        create_subtitle("Same", 1.0),
        create_subtitle("Same", 2.0),
        create_subtitle("Other", 3.0),
    ];

    let filtered = filter_prefix_subtitles(subtitles);
    assert_eq!(filtered.len(), 2);
    assert_eq!(filtered[0].text, "Same");
    assert_eq!(filtered[1].text, "Other");
}

#[test]
fn test_filter_retains_all_fields() {
    let subtitles = vec![
        SubtitleEntry {
            text: "Partial".to_string(),
            start_time_ms: 1000,
            end_time_ms: None,
            timestamp: 7,
        },
        SubtitleEntry {
            text: "Partial sentence".to_string(),
            start_time_ms: 1500,
            end_time_ms: Some(2500),
            timestamp: 8,
        },
    ];

    let filtered = filter_prefix_subtitles(subtitles);
    assert_eq!(filtered.len(), 1);
    assert_eq!(filtered[0].text, "Partial sentence");
    assert_eq!(filtered[0].start_time_ms, 1500);
    assert_eq!(filtered[0].end_time_ms, Some(2500));
    assert_eq!(filtered[0].timestamp, 8);
}

#[test]
fn test_filter_twice_is_fixed_point_on_progressive() {
    let subtitles = vec![
        create_subtitle("I", 1.0),
        create_subtitle("I a", 1.1),
        create_subtitle("I am", 1.2),
        create_subtitle("Next subtitle", 2.0),
    ];

    let once = filter_prefix_subtitles(subtitles);
    let twice = filter_prefix_subtitles(once.clone());
    assert_eq!(once.len(), twice.len());
    for (a, b) in once.iter().zip(twice.iter()) {
        assert_eq!(a.text, b.text);
        assert_eq!(a.start_time_ms, b.start_time_ms);
    }
}

#[test]
fn test_filter_shrinking_rewrite_needs_second_pass() {
    // A feed that shortens a fragment and then extends it past an earlier
    // retained form leaves an adjacent prefix pair after one pass.
    let subtitles = vec![
        create_subtitle("XY", 1.0),
        create_subtitle("X", 2.0),
        create_subtitle("XYZ", 3.0),
    ];

    let once = filter_prefix_subtitles(subtitles);
    assert_eq!(once.len(), 2);
    assert_eq!(once[0].text, "XY");
    assert_eq!(once[1].text, "XYZ");

    let twice = filter_prefix_subtitles(once);
    assert_eq!(twice.len(), 1);
    assert_eq!(twice[0].text, "XYZ");
}

#[test]
fn test_filter_empty_text_is_prefix_of_anything() {
    let subtitles = vec![create_subtitle("", 1.0), create_subtitle("A", 2.0)];

    let filtered = filter_prefix_subtitles(subtitles);
    assert_eq!(filtered.len(), 1);
    assert_eq!(filtered[0].text, "A");
}

#[test]
fn test_str_is_prefix_of_cases() {
    assert!(str_is_prefix_of("", "anything"));
    assert!(str_is_prefix_of("Hello", "Hello"));
    assert!(str_is_prefix_of("Hello", "Hello world"));
    assert!(!str_is_prefix_of("Hello world", "Hello"));
    assert!(!str_is_prefix_of("Hello world", "Hello there"));
    assert!(!str_is_prefix_of("hello", "Hello"));
}
