use recent_stickers::{Data, Timestamp};

fn ts(text: &str) -> Timestamp {
    Timestamp::from_text(String::from(text)).expect("valid RFC 3339 text")
}

#[test]
fn snapshot_exact_text() {
    let mut d = Data::new();
    d.record_use_at(
        String::from("key-1"),
        String::from("file-1"),
        String::from("id-1"),
        ts("2020-01-02T03:04:05+00:00"),
    );
    assert_eq!(
        d.to_json(),
        "{\"stickers\":{\"key-1\":{\"id\":\"id-1\",\"file_id\":\"file-1\",\
         \"last_usage_time\":\"2020-01-02T03:04:05+00:00\"}}}"
    );
}

#[test]
fn round_trip_two_entries() {
    let mut d = Data::new();
    d.record_use_at(
        String::from("k1"),
        String::from("f1"),
        String::from("id-1"),
        ts("2020-01-02T03:04:05.123456789+01:00"),
    );
    d.record_use_at(
        String::from("k2"),
        String::from("f2"),
        String::from("id-2"),
        ts("2021-11-12T13:14:15-05:00"),
    );
    let s = d.to_json();
    let d2 = Data::from_json(&s).expect("own snapshot reads back");
    assert_eq!(d2.len(), 2);
    for i in 0..2 {
        assert_eq!(d2.stickers[i].0, d.stickers[i].0);
        assert_eq!(d2.stickers[i].1.id, d.stickers[i].1.id);
        assert_eq!(d2.stickers[i].1.file_id, d.stickers[i].1.file_id);
        assert_eq!(
            d2.stickers[i].1.last_usage_time.text(),
            d.stickers[i].1.last_usage_time.text()
        );
        assert_eq!(
            d2.stickers[i].1.last_usage_time.secs(),
            d.stickers[i].1.last_usage_time.secs()
        );
        assert_eq!(
            d2.stickers[i].1.last_usage_time.nanos(),
            d.stickers[i].1.last_usage_time.nanos()
        );
    }
}

#[test]
fn round_trip_escaped_strings() {
    let mut d = Data::new();
    d.record_use_at(
        String::from("a\"b\\c"),
        String::from("f\\\"g"),
        String::from("id-\"x\\"),
        ts("2020-05-05T05:05:05+00:00"),
    );
    let s = d.to_json();
    let d2 = Data::from_json(&s).expect("escaped snapshot reads back");
    assert_eq!(d2.len(), 1);
    assert_eq!(d2.stickers[0].0, "a\"b\\c");
    assert_eq!(d2.stickers[0].1.id, "id-\"x\\");
    assert_eq!(d2.stickers[0].1.file_id, "f\\\"g");
}

#[test]
fn malformed_snapshots_are_refused() {
    assert!(Data::from_json("").is_none());
    assert!(Data::from_json("{}").is_none());
    assert!(Data::from_json("{\"stickers\":{}").is_none());
    assert!(Data::from_json("{\"stickers\":{}}}").is_none());
    assert!(Data::from_json("{\"other\":{}}").is_none());
    assert!(Data::from_json(
        "{\"stickers\":{\"k\":{\"id\":\"i\",\"file_id\":\"f\"}}}"
    )
    .is_none());
}

#[test]
fn bad_timestamp_is_refused() {
    let s = "{\"stickers\":{\"k\":{\"id\":\"i\",\"file_id\":\"f\",\
             \"last_usage_time\":\"not-a-date\"}}}";
    assert!(Data::from_json(s).is_none());
}

#[test]
fn duplicate_key_is_refused() {
    let one = "\"k\":{\"id\":\"i\",\"file_id\":\"f\",\
               \"last_usage_time\":\"2020-01-01T00:00:00+00:00\"}";
    let s = format!("{{\"stickers\":{{{one},{one}}}}}");
    assert!(Data::from_json(&s).is_none());
}

#[test]
fn unescaped_quote_forms_are_refused() {
    let s = "{\"stickers\":{\"k\\x\":{\"id\":\"i\",\"file_id\":\"f\",\
             \"last_usage_time\":\"2020-01-01T00:00:00+00:00\"}}}";
    assert!(Data::from_json(s).is_none());
}

#[test]
fn loaded_table_keeps_working() {
    let mut d = Data::new();
    d.record_use_at(
        String::from("k1"),
        String::from("f1"),
        String::from("id-1"),
        ts("2020-01-01T00:00:00+00:00"),
    );
    let s = d.to_json();
    let mut d2 = Data::from_json(&s).expect("snapshot reads back");
    d2.record_use_at(
        String::from("k2"),
        String::from("f2"),
        String::from("id-2"),
        ts("2020-01-02T00:00:00+00:00"),
    );
    let l = d2.list_by_recency();
    assert_eq!(l.len(), 2);
    assert_eq!(l[0].file_id, "f2");
    assert_eq!(l[1].file_id, "f1");
}
