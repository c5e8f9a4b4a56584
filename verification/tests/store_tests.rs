use hmm::codec::load_rows_from_str;
use hmm::codec::save_rows_to_string;
use hmm::store::add_thought;
use hmm::store::add_thought_at;
use hmm::store::get_next_id;
use hmm::store::list_thoughts;
use hmm::store::remove_all_thoughts;
use hmm::store::remove_thought;
use hmm::thought::Thought;

fn thought(id: u32, timestamp: &str, message: &str, tags: &str) -> Thought {
    Thought {
        id,
        timestamp: timestamp.to_string(),
        message: message.to_string(),
        tags: tags.to_string(),
    }
}

#[test]
fn test_load_file_into_rows() {
    // An empty file yields no records.
    let empty: Vec<Thought> = Vec::new();
    assert_eq!(load_rows_from_str("").unwrap(), empty);

    // A file with a header and one data line.
    let content = "id,timestamp,message,tags\n1,2018-01-01 00:00:00,hello world,tag1\n";
    let rows = vec![thought(1, "2018-01-01 00:00:00", "hello world", "tag1")];
    assert_eq!(load_rows_from_str(content).unwrap(), rows);

    // The same data line without a header parses the same.
    let content = "1,2018-01-01 00:00:00,hello world,tag1\n";
    assert_eq!(load_rows_from_str(content).unwrap(), rows);
}

#[test]
fn test_save_rows_to_file() {
    let rows = vec![
        thought(1, "1627386000", "Hello world!", "test"),
        thought(2, "1627386600", "How are you?", "test"),
    ];
    let text = save_rows_to_string(&rows);
    let loaded = load_rows_from_str(&text).unwrap();
    assert_eq!(loaded, rows);
}

#[test]
fn test_embedded_delimiter_is_not_escaped() {
    // A known limitation of the format: a comma inside a field is
    // written as it is and splits the field on the way back.
    let rows = vec![thought(1, "1627386000", "Hello, world!", "test")];
    let text = save_rows_to_string(&rows);
    assert_eq!(text, "id,timestamp,message,tags\n1,1627386000,Hello, world!,test\n");
    let loaded = load_rows_from_str(&text).unwrap();
    assert_eq!(loaded[0].message, "Hello");
    assert_eq!(loaded[0].tags, " world!");
}

#[test]
fn test_list_thoughts() {
    let rows = vec![
        thought(1, "2022-01-01", "Test thought 1", "test1"),
        thought(2, "2022-01-02", "Test thought 2", "test2"),
        thought(3, "2022-01-03", "Test thought 3", "test1"),
    ];

    let all = list_thoughts(&rows, None);
    assert_eq!(all, rows);

    let tag = "test1".to_string();
    let filtered = list_thoughts(&rows, Some(&tag));
    assert_eq!(filtered.len(), 2);
    assert_eq!(filtered[0], rows[0]);
    assert_eq!(filtered[1], rows[2]);
}

#[test]
fn test_add_assigns_next_id() {
    let rows = add_thought_at("first", "", "2024-01-01".to_string(), Vec::new());
    assert_eq!(rows.len(), 1);
    assert_eq!(rows[0].id, 1);

    let rows = vec![thought(5, "2024-01-01", "old", "")];
    let rows = add_thought_at("second", "", "2024-01-02".to_string(), rows);
    assert_eq!(rows[1].id, 6);
}

#[test]
fn test_next_id_skips_gaps() {
    // The next id is one past the largest present, not a record count.
    let rows = vec![thought(1, "2024-01-01", "a", ""), thought(3, "2024-01-01", "b", "")];
    assert_eq!(get_next_id(&rows), 4);
}

#[test]
fn test_add_uses_clock() {
    let rows = add_thought("note", "", Vec::new());
    let stamp = &rows[0].timestamp;
    assert!(stamp.len() >= 10);
    assert!(stamp.chars().all(|c| c.is_ascii_digit() || c == '-' || c == '+'));
    assert_eq!(stamp.matches('-').count(), 2);
}

#[test]
fn test_add_trims_whitespace() {
    let rows = add_thought_at("  hi there  ", " work ", "2024-01-01".to_string(), Vec::new());
    assert_eq!(rows[0].message, "hi there");
    assert_eq!(rows[0].tags, "work");
}

#[test]
fn test_id_non_reuse() {
    // Removing an id below the maximum never lets it be assigned again.
    let rows = vec![
        thought(1, "2024-01-01", "a", ""),
        thought(2, "2024-01-01", "b", ""),
        thought(3, "2024-01-01", "c", ""),
    ];
    let rows = remove_thought(&"2".to_string(), rows);
    assert_eq!(rows.len(), 2);
    let rows = add_thought_at("d", "", "2024-01-02".to_string(), rows);
    assert_eq!(rows[2].id, 4);
}

#[test]
fn test_remove_absent_is_noop() {
    let rows = vec![thought(1, "2024-01-01", "a", ""), thought(2, "2024-01-01", "b", "")];
    let kept = remove_thought(&"7".to_string(), rows.clone());
    assert_eq!(kept, rows);
}

#[test]
fn test_remove_takes_first_match_only() {
    let rows = vec![
        thought(1, "2024-01-01", "a", ""),
        thought(2, "2024-01-01", "b", ""),
        thought(3, "2024-01-01", "c", ""),
    ];
    let rows = remove_thought(&"1".to_string(), rows);
    assert_eq!(rows.len(), 2);
    assert_eq!(rows[0].id, 2);
    assert_eq!(rows[1].id, 3);
}

#[test]
fn test_clear_is_idempotent() {
    let rows = vec![thought(1, "2024-01-01", "a", ""), thought(2, "2024-01-01", "b", "")];
    let once = remove_all_thoughts(rows);
    assert!(once.is_empty());
    let twice = remove_all_thoughts(once);
    assert!(twice.is_empty());
}

#[test]
fn test_filter_is_substring_match() {
    // "wo" matches a tags value of "work": substring, not token.
    let rows = vec![thought(1, "2024-01-01", "a", "work"), thought(2, "2024-01-01", "b", "home")];
    let tag = "wo".to_string();
    let filtered = list_thoughts(&rows, Some(&tag));
    assert_eq!(filtered.len(), 1);
    assert_eq!(filtered[0].id, 1);
}

#[test]
fn test_scenario_session() {
    // An empty store, two adds, a filtered list, a removal, a clear.
    let rows: Vec<Thought> = Vec::new();
    let rows = add_thought_at("buy milk", "", "2024-01-01".to_string(), rows);
    assert_eq!(rows.len(), 1);
    assert_eq!(rows[0].id, 1);
    assert_eq!(rows[0].message, "buy milk");
    assert_eq!(rows[0].tags, "");

    let rows = add_thought_at("call mom", "family", "2024-01-01".to_string(), rows);
    assert_eq!(rows.len(), 2);
    assert_eq!(rows[1].id, 2);
    assert_eq!(rows[1].message, "call mom");
    assert_eq!(rows[1].tags, "family");

    let tag = "fam".to_string();
    let filtered = list_thoughts(&rows, Some(&tag));
    assert_eq!(filtered.len(), 1);
    assert_eq!(filtered[0].id, 2);

    let rows = remove_thought(&"1".to_string(), rows);
    assert_eq!(rows.len(), 1);
    assert_eq!(rows[0].id, 2);

    let rows = remove_all_thoughts(rows);
    assert!(rows.is_empty());
}
