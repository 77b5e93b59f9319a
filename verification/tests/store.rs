use recent_stickers::{Data, StickersEntry, Timestamp};

fn ts(text: &str) -> Timestamp {
    Timestamp::from_text(String::from(text)).expect("valid RFC 3339 text")
}

fn listed(d: &Data) -> Vec<StickersEntry> {
    d.list_by_recency()
}

#[test]
fn bootstrap_empty() {
    let d = Data::new();
    assert_eq!(d.len(), 0);
    let s = d.to_json();
    assert_eq!(s, "{\"stickers\":{}}");
    let d2 = Data::from_json(&s).expect("empty snapshot reads back");
    assert_eq!(d2.len(), 0);
    assert_eq!(listed(&d2).len(), 0);
}

#[test]
fn empty_listing_is_empty() {
    let d = Data::new();
    assert_eq!(listed(&d).len(), 0);
}

#[test]
fn upsert_keeps_id_and_takes_new_handle() {
    let mut d = Data::new();
    d.record_use(String::from("key-1"), String::from("file-v1"));
    assert_eq!(d.len(), 1);
    let id_first = d.stickers[0].1.id.clone();
    assert_eq!(id_first.len(), 36);
    d.record_use(String::from("key-1"), String::from("file-v2"));
    assert_eq!(d.len(), 1);
    assert_eq!(d.stickers[0].1.id, id_first);
    assert_eq!(d.stickers[0].1.file_id, "file-v2");
}

#[test]
fn fresh_ids_are_hyphenated_uuids() {
    let mut d = Data::new();
    d.record_use(String::from("a"), String::from("f"));
    let id = d.stickers[0].1.id.clone();
    assert_eq!(id.len(), 36);
    for (i, c) in id.chars().enumerate() {
        if i == 8 || i == 13 || i == 18 || i == 23 {
            assert_eq!(c, '-');
        } else {
            assert!(c.is_ascii_hexdigit());
        }
    }
}

#[test]
fn now_text_names_the_same_instant() {
    let t = Timestamp::now();
    let back = Timestamp::from_text(t.text().clone()).expect("own text parses");
    assert_eq!(back.secs(), t.secs());
    assert_eq!(back.nanos(), t.nanos());
}

#[test]
fn recency_ordering_three_times() {
    let mut d = Data::new();
    d.record_use_at(
        String::from("k1"),
        String::from("f1"),
        String::from("id-1"),
        ts("2020-01-01T10:00:00+00:00"),
    );
    d.record_use_at(
        String::from("k2"),
        String::from("f2"),
        String::from("id-2"),
        ts("2020-01-01T12:00:00+00:00"),
    );
    d.record_use_at(
        String::from("k3"),
        String::from("f3"),
        String::from("id-3"),
        ts("2020-01-01T11:00:00+00:00"),
    );
    let l = listed(&d);
    assert_eq!(l.len(), 3);
    assert_eq!(l[0].file_id, "f2");
    assert_eq!(l[1].file_id, "f3");
    assert_eq!(l[2].file_id, "f1");
}

#[test]
fn update_reorders() {
    let mut d = Data::new();
    d.record_use_at(
        String::from("b"),
        String::from("fb"),
        String::from("id-b"),
        ts("2021-05-05T08:00:00+02:00"),
    );
    d.record_use_at(
        String::from("a"),
        String::from("fa"),
        String::from("id-a"),
        ts("2021-05-05T09:00:00+02:00"),
    );
    let l = listed(&d);
    assert_eq!(l[0].file_id, "fa");
    assert_eq!(l[1].file_id, "fb");
    d.record_use_at(
        String::from("b"),
        String::from("fb2"),
        String::from("id-unused"),
        ts("2021-05-05T10:00:00+02:00"),
    );
    let l2 = listed(&d);
    assert_eq!(l2[0].file_id, "fb2");
    assert_eq!(l2[0].id, "id-b");
    assert_eq!(l2[1].file_id, "fa");
}

#[test]
fn scenario_two_stickers() {
    let mut d = Data::new();
    d.record_use_at(
        String::from("sticker-1"),
        String::from("file-a"),
        String::from("id-s1"),
        ts("2022-03-01T09:00:00+00:00"),
    );
    d.record_use_at(
        String::from("sticker-2"),
        String::from("file-b"),
        String::from("id-s2"),
        ts("2022-03-01T09:30:00+00:00"),
    );
    let l = listed(&d);
    assert_eq!(l.len(), 2);
    assert_eq!(l[0].file_id, "file-b");
    assert_eq!(l[1].file_id, "file-a");
    d.record_use_at(
        String::from("sticker-1"),
        String::from("file-c"),
        String::from("id-unused"),
        ts("2022-03-01T10:00:00+00:00"),
    );
    let l2 = listed(&d);
    assert_eq!(l2.len(), 2);
    assert_eq!(l2[0].file_id, "file-c");
    assert_eq!(l2[0].id, "id-s1");
    assert_eq!(l2[1].file_id, "file-b");
    assert_eq!(l2[1].id, "id-s2");
}

#[test]
fn entry_new_and_update() {
    let mut e = StickersEntry::new(String::from("file-first"));
    assert_eq!(e.file_id, "file-first");
    assert_eq!(e.id.len(), 36);
    let id_before = e.id.clone();
    e.update(String::from("file-second"));
    assert_eq!(e.file_id, "file-second");
    assert_eq!(e.id, id_before);
}

#[test]
fn parsed_instants_follow_the_offset() {
    let t = ts("1970-01-01T00:00:01+00:00");
    assert_eq!(t.secs(), 1);
    assert_eq!(t.nanos(), 0);
    let shifted = ts("1970-01-01T01:00:00+01:00");
    assert_eq!(shifted.secs(), 0);
    let sub = ts("1970-01-01T00:00:00.250+00:00");
    assert_eq!(sub.secs(), 0);
    assert_eq!(sub.nanos(), 250_000_000);
    assert!(t.le(&ts("1970-01-01T00:00:02+00:00")));
    assert!(!t.le(&sub));
}

#[test]
fn listing_is_a_snapshot() {
    let mut d = Data::new();
    d.record_use_at(
        String::from("k"),
        String::from("f"),
        String::from("id-k"),
        ts("2020-06-06T06:06:06+00:00"),
    );
    let l = listed(&d);
    d.record_use_at(
        String::from("k2"),
        String::from("f2"),
        String::from("id-k2"),
        ts("2020-06-06T07:07:07+00:00"),
    );
    assert_eq!(l.len(), 1);
    assert_eq!(l[0].file_id, "f");
}
