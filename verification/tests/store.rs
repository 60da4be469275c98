use simple_db::{Db, Errors, IndexEntry, OffsetIndex, Table};
use std::cell::Cell;

fn bytes_of(text: &str) -> Vec<u8> {
    text.as_bytes().to_vec()
}

fn starts_with(prefix: &'static str) -> impl Fn(&Vec<u8>) -> Option<bool> {
    move |bytes: &Vec<u8>| match std::str::from_utf8(bytes) {
        Ok(text) => Some(text.starts_with(prefix)),
        Err(_) => None,
    }
}

#[test]
fn new_table_is_empty() {
    let table = Table::new();
    assert!(table.log().is_empty());
    assert_eq!(table.next_append_offset(), 0);
    assert_eq!(table.lookup("a"), None);
    assert_eq!(table.read("a"), Err(Errors::NotFound));
}

#[test]
fn frame_is_length_header_then_payload() {
    let mut table = Table::new();
    table.create_with_id("a", &vec![1, 2, 3]).ok().unwrap();
    assert_eq!(table.log(), &vec![3, 0, 0, 0, 0, 0, 0, 0, 1, 2, 3]);
    assert_eq!(table.lookup("a"), Some(IndexEntry { position: 0, length: 3 }));
    assert_eq!(table.next_append_offset(), 11);
}

#[test]
fn frame_header_is_little_endian() {
    let mut table = Table::new();
    let payload = vec![7u8; 258];
    table.create_with_id("big", &payload).ok().unwrap();
    assert_eq!(&table.log()[..8], &[2, 1, 0, 0, 0, 0, 0, 0]);
    assert_eq!(&table.log()[8..], &payload[..]);
    assert_eq!(table.read("big"), Ok(payload));
}

#[test]
fn empty_payload_gets_a_header_only() {
    let mut table = Table::new();
    table.create_with_id("none", &vec![]).ok().unwrap();
    assert_eq!(table.log(), &vec![0u8; 8]);
    assert_eq!(table.lookup("none"), Some(IndexEntry { position: 0, length: 0 }));
    assert_eq!(table.read("none"), Ok(vec![]));
}

#[test]
fn frames_follow_one_another() {
    let mut table = Table::new();
    table.create_with_id("a", &bytes_of("hello1")).ok().unwrap();
    table.create_with_id("b", &bytes_of("hi")).ok().unwrap();
    table.create_with_id("c", &bytes_of("")).ok().unwrap();
    assert_eq!(table.lookup("a"), Some(IndexEntry { position: 0, length: 6 }));
    assert_eq!(table.lookup("b"), Some(IndexEntry { position: 14, length: 2 }));
    assert_eq!(table.lookup("c"), Some(IndexEntry { position: 24, length: 0 }));
    assert_eq!(table.next_append_offset(), 32);
    assert_eq!(table.read("a"), Ok(bytes_of("hello1")));
    assert_eq!(table.read("b"), Ok(bytes_of("hi")));
    assert_eq!(table.read("c"), Ok(bytes_of("")));
}

#[test]
fn read_gives_the_payload_and_nothing_of_its_neighbours() {
    let mut table = Table::new();
    table.create_with_id("a", &vec![0xaa; 5]).ok().unwrap();
    table.create_with_id("b", &vec![0xbb; 3]).ok().unwrap();
    table.create_with_id("c", &vec![0xcc; 4]).ok().unwrap();
    assert_eq!(table.read("b"), Ok(vec![0xbb; 3]));
}

#[test]
fn append_positions_never_go_back() {
    let mut table = Table::new();
    let mut entries = Vec::new();
    for n in 0..20usize {
        let id = format!("id-{}", n);
        table.create_with_id(&id, &vec![n as u8; n * 3]).ok().unwrap();
        if n % 4 == 1 {
            table.delete(&id).ok().unwrap();
            entries.push(None);
        } else {
            entries.push(table.lookup(&id));
        }
    }
    let live: Vec<IndexEntry> = entries.into_iter().flatten().collect();
    for pair in live.windows(2) {
        assert!(pair[1].position >= pair[0].position + pair[0].length as u64);
    }
    assert_eq!(live.len(), 15);
}

#[test]
fn duplicate_id_is_refused_and_changes_nothing() {
    let mut table = Table::new();
    table.create_with_id("a", &bytes_of("first")).ok().unwrap();
    assert_eq!(table.create_with_id("a", &bytes_of("second")), Err(Errors::DuplicateId));
    assert_eq!(table.read("a"), Ok(bytes_of("first")));
    assert_eq!(table.next_append_offset(), 13);
}

#[test]
fn deleted_id_is_not_found_and_cannot_come_back() {
    let mut table = Table::new();
    table.create_with_id("a", &bytes_of("first")).ok().unwrap();
    assert_eq!(table.delete("a"), Ok(()));
    assert_eq!(table.read("a"), Err(Errors::NotFound));
    assert_eq!(table.delete("a"), Err(Errors::NotFound));
    assert_eq!(table.lookup("a"), None);
    assert_eq!(table.create_with_id("a", &bytes_of("again")), Err(Errors::DuplicateId));
    assert_eq!(table.read("a"), Err(Errors::NotFound));
}

#[test]
fn delete_leaves_the_log_as_it_is() {
    let mut table = Table::new();
    table.create_with_id("a", &bytes_of("first")).ok().unwrap();
    table.create_with_id("b", &bytes_of("second")).ok().unwrap();
    let before = table.log().clone();
    table.delete("a").ok().unwrap();
    assert_eq!(table.log(), &before);
    assert_eq!(table.read("b"), Ok(bytes_of("second")));
    table.create_with_id("c", &bytes_of("third")).ok().unwrap();
    assert_eq!(table.lookup("c"), Some(IndexEntry { position: before.len() as u64, length: 5 }));
}

#[test]
fn delete_of_unknown_id_is_not_found() {
    let mut table = Table::new();
    assert_eq!(table.delete("a"), Err(Errors::NotFound));
}

#[test]
fn create_gives_an_id_that_reads_back() {
    let mut table = Table::new();
    let id = table.create(&bytes_of("payload")).ok().unwrap();
    assert_eq!(table.read(&id), Ok(bytes_of("payload")));
    assert_eq!(table.lookup(&id), Some(IndexEntry { position: 0, length: 7 }));
}

#[test]
fn destroy_empties_log_and_index() {
    let mut table = Table::new();
    table.create_with_id("a", &bytes_of("first")).ok().unwrap();
    table.create_with_id("b", &bytes_of("second")).ok().unwrap();
    table.delete("b").ok().unwrap();
    table.destroy();
    assert!(table.log().is_empty());
    assert_eq!(table.read("a"), Err(Errors::NotFound));
    assert_eq!(table.create_with_id("b", &bytes_of("anew")), Ok(()));
    assert_eq!(table.lookup("b"), Some(IndexEntry { position: 0, length: 4 }));
}

#[test]
fn scan_collects_matches_in_order_of_creation() {
    let mut table = Table::new();
    table.create_with_id("1", &bytes_of("hello1")).ok().unwrap();
    table.create_with_id("2", &bytes_of("other")).ok().unwrap();
    table.create_with_id("3", &bytes_of("hello2")).ok().unwrap();
    table.create_with_id("4", &bytes_of("hello3")).ok().unwrap();
    let found = table.scan(starts_with("hell"), 10).ok().unwrap();
    assert_eq!(found, vec![bytes_of("hello1"), bytes_of("hello2"), bytes_of("hello3")]);
}

#[test]
fn scan_stops_at_the_limit() {
    let mut table = Table::new();
    for n in 0..10 {
        table.create_with_id(&format!("{}", n), &bytes_of(&format!("hello{}", n))).ok().unwrap();
    }
    let found = table.scan(starts_with("hell"), 3).ok().unwrap();
    assert_eq!(found, vec![bytes_of("hello0"), bytes_of("hello1"), bytes_of("hello2")]);
}

#[test]
fn scan_is_lazy() {
    let mut table = Table::new();
    for n in 0..10 {
        table.create_with_id(&format!("{}", n), &bytes_of(&format!("hello{}", n))).ok().unwrap();
    }
    let asked = Cell::new(0usize);
    let counting = |bytes: &Vec<u8>| {
        asked.set(asked.get() + 1);
        Some(bytes.ends_with(b"2") || bytes.ends_with(b"4"))
    };
    let found = table.scan(counting, 1).ok().unwrap();
    assert_eq!(found, vec![bytes_of("hello2")]);
    assert_eq!(asked.get(), 3);
}

#[test]
fn scan_with_limit_zero_asks_nothing() {
    let mut table = Table::new();
    table.create_with_id("a", &vec![0xff, 0xfe]).ok().unwrap();
    let asked = Cell::new(0usize);
    let counting = |_bytes: &Vec<u8>| {
        asked.set(asked.get() + 1);
        None
    };
    assert_eq!(table.scan(counting, 0), Ok(vec![]));
    assert_eq!(asked.get(), 0);
}

#[test]
fn scan_passes_over_deleted_records() {
    let mut table = Table::new();
    table.create_with_id("1", &bytes_of("hello1")).ok().unwrap();
    table.create_with_id("2", &bytes_of("hello2")).ok().unwrap();
    table.create_with_id("3", &bytes_of("hello3")).ok().unwrap();
    table.delete("2").ok().unwrap();
    let found = table.scan(starts_with("hell"), 10).ok().unwrap();
    assert_eq!(found, vec![bytes_of("hello1"), bytes_of("hello3")]);
}

#[test]
fn scan_fails_on_a_record_that_cannot_be_decoded() {
    let mut table = Table::new();
    table.create_with_id("1", &bytes_of("hello1")).ok().unwrap();
    table.create_with_id("2", &vec![0xff, 0xfe]).ok().unwrap();
    table.create_with_id("3", &bytes_of("hello3")).ok().unwrap();
    assert_eq!(table.scan(starts_with("hell"), 10), Err(Errors::Corrupt));
}

#[test]
fn scan_does_not_reach_a_bad_record_beyond_the_limit() {
    let mut table = Table::new();
    table.create_with_id("1", &bytes_of("hello1")).ok().unwrap();
    table.create_with_id("2", &vec![0xff, 0xfe]).ok().unwrap();
    assert_eq!(table.scan(starts_with("hell"), 1), Ok(vec![bytes_of("hello1")]));
}

#[test]
fn scan_of_a_deleted_bad_record_succeeds() {
    let mut table = Table::new();
    table.create_with_id("1", &vec![0xff, 0xfe]).ok().unwrap();
    table.create_with_id("2", &bytes_of("hello2")).ok().unwrap();
    table.delete("1").ok().unwrap();
    assert_eq!(table.scan(starts_with("hell"), 5), Ok(vec![bytes_of("hello2")]));
}

#[test]
fn index_insert_lookup_remove() {
    let mut index = OffsetIndex::new();
    assert_eq!(index.len(), 0);
    assert_eq!(index.insert("a".to_string(), IndexEntry { position: 0, length: 4 }), Ok(()));
    assert_eq!(index.insert("b".to_string(), IndexEntry { position: 12, length: 1 }), Ok(()));
    assert_eq!(
        index.insert("a".to_string(), IndexEntry { position: 21, length: 9 }),
        Err(Errors::DuplicateId)
    );
    assert_eq!(index.len(), 2);
    assert!(index.contains("a"));
    assert!(!index.contains("c"));
    assert_eq!(index.lookup("a"), Some(IndexEntry { position: 0, length: 4 }));
    assert_eq!(index.lookup("b"), Some(IndexEntry { position: 12, length: 1 }));
    assert_eq!(index.lookup("c"), None);
    assert_eq!(index.remove("a"), Some(IndexEntry { position: 0, length: 4 }));
    assert_eq!(index.remove("a"), None);
    assert_eq!(index.remove("c"), None);
    assert_eq!(index.lookup("a"), None);
    assert!(index.contains("a"));
    assert_eq!(index.len(), 2);
    assert_eq!(index.live_entry_at(0), None);
    assert_eq!(index.live_entry_at(1), Some(IndexEntry { position: 12, length: 1 }));
    index.clear();
    assert_eq!(index.len(), 0);
    assert!(!index.contains("a"));
    assert_eq!(index.insert("a".to_string(), IndexEntry { position: 0, length: 2 }), Ok(()));
}

#[test]
fn collections_do_not_collide() {
    let mut db = Db::new("isolated".to_string());
    db.post_with_id("left", "same", &bytes_of("on the left")).ok().unwrap();
    db.post_with_id("right", "same", &bytes_of("on the right")).ok().unwrap();
    let same = "same".to_string();
    assert_eq!(
        db.table("left").unwrap().lookup("same").unwrap().position,
        db.table("right").unwrap().lookup("same").unwrap().position
    );
    assert_eq!(db.get("left", &same), Ok(bytes_of("on the left")));
    assert_eq!(db.get("right", &same), Ok(bytes_of("on the right")));
    db.delete("left", &same).ok().unwrap();
    assert_eq!(db.get("left", &same), Err(Errors::NotFound));
    assert_eq!(db.get("right", &same), Ok(bytes_of("on the right")));
}

#[test]
fn id_of_one_collection_is_unknown_in_another() {
    let mut db = Db::new("isolated".to_string());
    let id = db.post("left", &bytes_of("on the left")).ok().unwrap();
    db.post("right", &bytes_of("on the right")).ok().unwrap();
    assert_eq!(db.get("right", &id), Err(Errors::NotFound));
    assert_eq!(db.delete("right", &id), Err(Errors::NotFound));
    assert_eq!(db.get("left", &id), Ok(bytes_of("on the left")));
}

#[test]
fn post_with_id_refuses_a_used_id() {
    let mut db = Db::new("dup".to_string());
    assert_eq!(db.post_with_id("k", "a", &bytes_of("one")), Ok(()));
    assert_eq!(db.post_with_id("k", "a", &bytes_of("two")), Err(Errors::DuplicateId));
    assert_eq!(db.get("k", &"a".to_string()), Ok(bytes_of("one")));
    db.delete("k", &"a".to_string()).ok().unwrap();
    assert_eq!(db.post_with_id("k", "a", &bytes_of("three")), Err(Errors::DuplicateId));
    assert_eq!(db.post_with_id("other", "a", &bytes_of("four")), Ok(()));
}

#[test]
fn store_for_gives_one_store_per_key() {
    let mut db = Db::new("registry".to_string());
    assert!(db.table("k").is_none());
    db.store_for("k").create_with_id("a", &bytes_of("one")).ok().unwrap();
    db.store_for("k").create_with_id("b", &bytes_of("two")).ok().unwrap();
    db.store_for("other").create_with_id("a", &bytes_of("three")).ok().unwrap();
    assert_eq!(db.get("k", &"a".to_string()), Ok(bytes_of("one")));
    assert_eq!(db.get("k", &"b".to_string()), Ok(bytes_of("two")));
    assert_eq!(db.get("other", &"a".to_string()), Ok(bytes_of("three")));
    assert_eq!(db.table("k").unwrap().next_append_offset(), 22);
    assert_eq!(db.table("other").unwrap().next_append_offset(), 13);
}

#[test]
fn find_in_a_collection_never_written_finds_nothing() {
    let db = Db::new("empty".to_string());
    assert_eq!(db.find("k", starts_with("hell"), 5), Ok(vec![]));
    assert_eq!(db.find_one("k", starts_with("hell")), Ok(None));
}

#[test]
fn find_respects_limit_and_predicate() {
    let mut db = Db::new("search".to_string());
    for n in 0..6 {
        db.post("k", &bytes_of(&format!("hello{}", n))).ok().unwrap();
        db.post("k", &bytes_of(&format!("bye{}", n))).ok().unwrap();
    }
    db.post("other", &bytes_of("hello-elsewhere")).ok().unwrap();
    let found = db.find("k", starts_with("hell"), 4).ok().unwrap();
    assert_eq!(
        found,
        vec![bytes_of("hello0"), bytes_of("hello1"), bytes_of("hello2"), bytes_of("hello3")]
    );
    let all = db.find("k", starts_with("bye"), 100).ok().unwrap();
    assert_eq!(all.len(), 6);
    assert!(all.iter().all(|bytes| bytes.starts_with(b"bye")));
}

#[test]
fn find_one_gives_the_first_match_or_none() {
    let mut db = Db::new("search".to_string());
    db.post("k", &bytes_of("hello1")).ok().unwrap();
    db.post("k", &bytes_of("hello2")).ok().unwrap();
    assert_eq!(db.find_one("k", starts_with("hell")), Ok(Some(bytes_of("hello1"))));
    assert_eq!(db.find_one("k", starts_with("hellllooo")), Ok(None));
}

#[test]
fn find_one_reports_a_record_that_cannot_be_decoded() {
    let mut db = Db::new("search".to_string());
    db.post("k", &vec![0xff, 0xfe]).ok().unwrap();
    db.post("k", &bytes_of("hello")).ok().unwrap();
    assert_eq!(db.find_one("k", starts_with("hell")), Err(Errors::Corrupt));
}

#[test]
fn nuke_forgets_everything_and_the_store_works_on() {
    let mut db = Db::new("reset".to_string());
    let id1 = db.post("left", &bytes_of("one")).ok().unwrap();
    let id2 = db.post("right", &bytes_of("two")).ok().unwrap();
    db.post_with_id("left", "fixed", &bytes_of("three")).ok().unwrap();
    db.delete("left", &"fixed".to_string()).ok().unwrap();
    assert_eq!(db.nuke(), Ok(()));
    assert_eq!(db.get("left", &id1), Err(Errors::NotFound));
    assert_eq!(db.get("right", &id2), Err(Errors::NotFound));
    assert!(db.table("left").is_none());
    assert_eq!(db.find("left", starts_with(""), 10), Ok(vec![]));
    assert_eq!(db.post_with_id("left", "fixed", &bytes_of("four")), Ok(()));
    assert_eq!(db.get("left", &"fixed".to_string()), Ok(bytes_of("four")));
    assert_eq!(db.table("left").unwrap().lookup("fixed"), Some(IndexEntry { position: 0, length: 4 }));
    let id3 = db.post("right", &bytes_of("five")).ok().unwrap();
    assert_eq!(db.get("right", &id3), Ok(bytes_of("five")));
}

#[test]
fn payload_longer_than_an_entry_can_say_is_refused() {
    let size = match usize::try_from(u64::from(u32::MAX) + 1) {
        Ok(size) => size,
        Err(_) => return,
    };
    let mut probe: Vec<u8> = Vec::new();
    if probe.try_reserve_exact(size).is_err() {
        println!("not enough memory for a payload of {} bytes: nothing tested", size);
        return;
    }
    drop(probe);
    let huge = vec![0u8; size];
    let mut table = Table::new();
    table.create_with_id("small", &bytes_of("fits")).ok().unwrap();
    assert_eq!(table.create_with_id("huge", &huge), Err(Errors::Io));
    assert_eq!(table.next_append_offset(), 12);
    assert_eq!(table.lookup("huge"), None);
    assert_eq!(table.create(&huge), Err(Errors::Io));
    let mut db = Db::new("limits".to_string());
    assert_eq!(db.post("k", &huge), Err(Errors::Io));
    assert_eq!(db.post_with_id("k", "huge", &huge), Err(Errors::Io));
    assert_eq!(db.post_with_id("k", "huge", &bytes_of("fits")), Ok(()));
}

#[test]
fn table_over_an_older_log_appends_behind_it() {
    let mut table = Table::open(vec![9, 9, 9, 9, 9]);
    assert_eq!(table.next_append_offset(), 5);
    assert_eq!(table.scan(starts_with(""), 10), Ok(vec![]));
    table.create_with_id("a", &bytes_of("new")).ok().unwrap();
    assert_eq!(table.lookup("a"), Some(IndexEntry { position: 5, length: 3 }));
    assert_eq!(table.log(), &vec![9, 9, 9, 9, 9, 3, 0, 0, 0, 0, 0, 0, 0, b'n', b'e', b'w']);
    assert_eq!(table.read("a"), Ok(bytes_of("new")));
}

#[test]
fn frame_is_what_the_log_holds_for_the_record() {
    let mut table = Table::new();
    table.create_with_id("a", &bytes_of("hello1")).ok().unwrap();
    table.create_with_id("b", &bytes_of("hi")).ok().unwrap();
    assert_eq!(table.frame("a"), Ok(vec![6, 0, 0, 0, 0, 0, 0, 0, b'h', b'e', b'l', b'l', b'o', b'1']));
    assert_eq!(table.frame("b"), Ok(vec![2, 0, 0, 0, 0, 0, 0, 0, b'h', b'i']));
    assert_eq!(table.frame("c"), Err(Errors::NotFound));
    let mut whole = table.frame("a").ok().unwrap();
    whole.extend(table.frame("b").ok().unwrap());
    assert_eq!(table.log(), &whole);
    table.delete("a").ok().unwrap();
    assert_eq!(table.frame("a"), Err(Errors::NotFound));
    assert_eq!(table.log(), &whole);
}

#[test]
fn adopt_takes_an_older_log_once() {
    let mut db = Db::new("older".to_string());
    assert!(db.adopt("k", vec![1, 2, 3, 4]));
    assert_eq!(db.table("k").unwrap().next_append_offset(), 4);
    assert!(!db.adopt("k", vec![5, 6]));
    assert_eq!(db.table("k").unwrap().log(), &vec![1, 2, 3, 4]);
    db.post_with_id("k", "a", &bytes_of("new")).ok().unwrap();
    assert_eq!(db.table("k").unwrap().lookup("a"), Some(IndexEntry { position: 4, length: 3 }));
    assert_eq!(db.get("k", &"a".to_string()), Ok(bytes_of("new")));
    db.post_with_id("fresh", "a", &bytes_of("first")).ok().unwrap();
    assert!(!db.adopt("fresh", vec![9]));
    assert_eq!(db.table("fresh").unwrap().lookup("a"), Some(IndexEntry { position: 0, length: 5 }));
}

#[test]
fn adopt_of_nothing_leaves_the_collection_open_to_adoption() {
    let mut db = Db::new("older".to_string());
    assert!(db.adopt("k", vec![]));
    assert!(db.table("k").unwrap().is_empty());
    assert!(db.adopt("k", vec![7]));
    assert!(!db.table("k").unwrap().is_empty());
    assert_eq!(db.table("k").unwrap().log(), &vec![7]);
}
