use hmm::codec::load_rows_from_str;
use hmm::codec::save_rows_to_string;
use hmm::thought::Thought;

fn thought(id: u32, timestamp: &str, message: &str, tags: &str) -> Thought {
    Thought {
        id,
        timestamp: timestamp.to_string(),
        message: message.to_string(),
        tags: tags.to_string(),
    }
}

#[test]
fn test_malformed_line_fails_load() {
    // The second data line has only two comma-separated fields.
    let content = "id,timestamp,message,tags\n1,2020-01-01,ok,t\n2,2020-01-01\n";
    assert!(load_rows_from_str(content).is_err());
}

#[test]
fn test_non_integer_id_fails_load() {
    assert!(load_rows_from_str("x,2020-01-01,msg,tag\n").is_err());
    assert!(load_rows_from_str("1a,2020-01-01,msg,tag\n").is_err());
    assert!(load_rows_from_str(",2020-01-01,msg,tag\n").is_err());
}

#[test]
fn test_id_too_large_fails_load() {
    let content = "4294967296,2020-01-01,msg,tag\n";
    assert!(load_rows_from_str(content).is_err());
    let content = "4294967295,2020-01-01,msg,tag\n";
    let rows = load_rows_from_str(content).unwrap();
    assert_eq!(rows[0].id, 4294967295);
}

#[test]
fn test_leading_zeros_in_id() {
    let rows = load_rows_from_str("007,2020-01-01,msg,tag\n").unwrap();
    assert_eq!(rows[0].id, 7);
}

#[test]
fn test_missing_tags_field_is_empty() {
    // A missing fourth field is an empty tag string, not an error.
    let rows = load_rows_from_str("1,2020-01-01,msg\n").unwrap();
    assert_eq!(rows[0], thought(1, "2020-01-01", "msg", ""));
}

#[test]
fn test_fields_past_the_fourth_are_ignored() {
    let rows = load_rows_from_str("1,2020-01-01,msg,a,b\n").unwrap();
    assert_eq!(rows[0], thought(1, "2020-01-01", "msg", "a"));
}

#[test]
fn test_empty_lines_are_skipped() {
    let content = "1,2020-01-01,a,\n\n2,2020-01-02,b,\n";
    let rows = load_rows_from_str(content).unwrap();
    assert_eq!(rows.len(), 2);
    assert_eq!(rows[0].id, 1);
    assert_eq!(rows[1].id, 2);
}

#[test]
fn test_header_only_file_is_empty() {
    let empty: Vec<Thought> = Vec::new();
    assert_eq!(load_rows_from_str("id,timestamp,message,tags\n").unwrap(), empty);
    assert_eq!(load_rows_from_str("id,timestamp,message,tags").unwrap(), empty);
}

#[test]
fn test_to_csv_renders_fields_in_order() {
    let t = thought(1, "2020-01-01", "a", "b");
    assert_eq!(t.to_csv(), "1,2020-01-01,a,b");
    let t = thought(42, "2020-12-31", "note text", "");
    assert_eq!(t.to_csv(), "42,2020-12-31,note text,");
}

#[test]
fn test_save_writes_header_and_lines() {
    let rows = vec![thought(1, "2020-01-01", "a", "x"), thought(2, "2020-01-02", "b", "")];
    let text = save_rows_to_string(&rows);
    assert_eq!(text, "id,timestamp,message,tags\n1,2020-01-01,a,x\n2,2020-01-02,b,\n");
}

#[test]
fn test_round_trip_preserves_records() {
    // Zero, one and several records, with empty fields among them.
    let empty: Vec<Thought> = Vec::new();
    assert_eq!(load_rows_from_str(&save_rows_to_string(&empty)).unwrap(), empty);

    let one = vec![thought(1, "2020-01-01", "only", "tag")];
    assert_eq!(load_rows_from_str(&save_rows_to_string(&one)).unwrap(), one);

    let several = vec![
        thought(3, "2020-01-01", "", ""),
        thought(1, "2020-01-02", "unsorted ids stay put", "k"),
        thought(7, "2020-01-03", "last", "k tag"),
    ];
    assert_eq!(load_rows_from_str(&save_rows_to_string(&several)).unwrap(), several);
}
