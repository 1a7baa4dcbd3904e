use kvs::engines::{FileOp, Segment, StoreWriter};
use kvs::KvsError;
use std::collections::HashMap;

fn text(s: &str) -> String {
    s.to_string()
}

fn empty_store() -> StoreWriter {
    StoreWriter::open(Vec::new()).unwrap()
}

fn reopen(store: StoreWriter) -> StoreWriter {
    StoreWriter::open(store.into_segments()).unwrap()
}

#[test]
fn get_stored_value() {
    let mut store = empty_store();
    store.set(text("k1"), text("v1")).unwrap();
    assert_eq!(store.get(text("k1")).unwrap(), Some(text("v1")));
    assert_eq!(store.get(text("k2")).unwrap(), None);
}

#[test]
fn overwrite_value() {
    let mut store = empty_store();
    store.set(text("k"), text("a")).unwrap();
    store.set(text("k"), text("b")).unwrap();
    assert_eq!(store.get(text("k")).unwrap(), Some(text("b")));
}

#[test]
fn remove_key() {
    let mut store = empty_store();
    store.set(text("k"), text("v")).unwrap();
    store.remove(text("k")).unwrap();
    assert_eq!(store.get(text("k")).unwrap(), None);
    assert!(matches!(store.remove(text("k")), Err(KvsError::KeyNotFoundError)));
}

#[test]
fn remove_never_written_key() {
    let mut store = empty_store();
    assert!(matches!(store.remove(text("nobody")), Err(KvsError::KeyNotFoundError)));
    assert_eq!(store.stale_bytes(), 0);
    let segments = store.into_segments();
    assert_eq!(segments.len(), 1);
    assert!(segments[0].data.is_empty());
}

#[test]
fn get_never_written_key() {
    let store = empty_store();
    assert_eq!(store.get(text("nobody")).unwrap(), None);
}

#[test]
fn open_empty_directory() {
    let mut store = empty_store();
    assert_eq!(store.active_gen(), 1);
    assert_eq!(store.stale_bytes(), 0);
    let journal = store.take_journal();
    assert_eq!(journal.len(), 1);
    assert!(matches!(journal[0], FileOp::Create { gen: 1 }));
    let segments = store.into_segments();
    assert_eq!(segments.len(), 1);
    assert_eq!(segments[0].gen, 1);
    assert!(segments[0].data.is_empty());
}

#[test]
fn open_takes_the_generation_after_the_last() {
    let segments = vec![
        Segment { gen: 3, data: Vec::new() },
        Segment { gen: 7, data: Vec::new() },
    ];
    let store = StoreWriter::open(segments).unwrap();
    assert_eq!(store.active_gen(), 8);
    let gens: Vec<u64> = store.into_segments().iter().map(|s| s.gen).collect();
    assert_eq!(gens, vec![3, 7, 8]);
}

#[test]
fn truncated_tail_is_refused() {
    let mut store = empty_store();
    store.set(text("whole"), text("record")).unwrap();
    store.set(text("cut"), text("short")).unwrap();
    let mut segments = store.into_segments();
    let len = segments[0].data.len();
    segments[0].data.truncate(len - 3);
    assert!(matches!(StoreWriter::open(segments), Err(KvsError::SerdeError)));
}

#[test]
fn garbage_is_refused() {
    let segments = vec![Segment { gen: 1, data: b"not a record".to_vec() }];
    assert!(matches!(StoreWriter::open(segments), Err(KvsError::SerdeError)));
}

#[test]
fn whole_records_before_a_cut_are_kept_by_the_log() {
    let mut store = empty_store();
    store.set(text("a"), text("1")).unwrap();
    let mut segments = store.into_segments();
    let whole = segments[0].data.clone();
    segments[0].data.extend_from_slice(b"{\"Set\":{\"key\":\"b\",\"val");
    assert!(matches!(StoreWriter::open(segments), Err(KvsError::SerdeError)));
    let again = StoreWriter::open(vec![Segment { gen: 1, data: whole }]).unwrap();
    assert_eq!(again.get(text("a")).unwrap(), Some(text("1")));
}

#[test]
fn write_ten_thousand_keys_and_reopen() {
    let mut store = empty_store();
    for i in 0..10_000 {
        store.set(format!("key{}", i), format!("value{}", i)).unwrap();
    }
    let store = reopen(store);
    for i in 0..10_000 {
        assert_eq!(store.get(format!("key{}", i)).unwrap(), Some(format!("value{}", i)));
    }
}

#[test]
fn overwriting_one_key_compacts_the_log() {
    let mut store = empty_store();
    let filler = "x".repeat(1024);
    let mut last = String::new();
    for i in 0..2000 {
        last = format!("{}{}", filler, i);
        store.set(text("key"), last.clone()).unwrap();
    }
    assert_eq!(store.get(text("key")).unwrap(), Some(last.clone()));
    assert!(store.active_gen() > 1);
    let journal = store.take_journal();
    let unlinked = journal.iter().filter(|op| matches!(op, FileOp::Remove { gen } if *gen < store.active_gen())).count();
    assert!(unlinked >= 1);
    let store = reopen(store);
    assert_eq!(store.get(text("key")).unwrap(), Some(last));
}

#[test]
fn compaction_fires_when_the_threshold_is_crossed() {
    let mut store = empty_store();
    let value = "v".repeat(1024 * 1024);
    store.set(text("big"), value.clone()).unwrap();
    assert_eq!(store.active_gen(), 1);
    assert_eq!(store.stale_bytes(), 0);
    store.set(text("big"), text("small")).unwrap();
    // the first record, now stale, is longer than the threshold
    assert_eq!(store.active_gen(), 3);
    assert_eq!(store.stale_bytes(), 0);
    assert_eq!(store.get(text("big")).unwrap(), Some(text("small")));
    let segments = store.into_segments();
    assert_eq!(segments.len(), 2);
    assert_eq!(segments[0].gen, 2);
    assert_eq!(segments[0].data, b"{\"Set\":{\"key\":\"big\",\"value\":\"small\"}}".to_vec());
    assert_eq!(segments[1].gen, 3);
    assert!(segments[1].data.is_empty());
}

#[test]
fn stale_bytes_are_counted() {
    let mut store = empty_store();
    store.set(text("k"), text("a")).unwrap();
    assert_eq!(store.stale_bytes(), 0);
    // {"Set":{"key":"k","value":"a"}} is 31 bytes long
    store.set(text("k"), text("b")).unwrap();
    assert_eq!(store.stale_bytes(), 31);
    // {"Remove":{"key":"k"}} is 22 bytes long
    store.remove(text("k")).unwrap();
    assert_eq!(store.stale_bytes(), 31 + 31 + 22);
    let reopened = reopen(store);
    assert_eq!(reopened.stale_bytes(), 31 + 31 + 22);
}

#[test]
fn compact_keeps_what_the_store_holds() {
    let mut store = empty_store();
    for i in 0..50 {
        store.set(format!("k{}", i % 10), format!("v{}", i)).unwrap();
    }
    store.remove(text("k3")).unwrap();
    let before = store.active_gen();
    store.compact();
    assert_eq!(store.active_gen(), before + 2);
    assert_eq!(store.stale_bytes(), 0);
    for i in 0..10 {
        let expected = if i == 3 { None } else { Some(format!("v{}", 40 + i)) };
        assert_eq!(store.get(format!("k{}", i)).unwrap(), expected);
    }
    let segments = store.into_segments();
    assert_eq!(segments.len(), 2);
    assert_eq!(segments[0].gen, before + 1);
    assert_eq!(segments[1].gen, before + 2);
    let live: usize = (0..10)
        .filter(|i| *i != 3)
        .map(|i| format!("{{\"Set\":{{\"key\":\"k{}\",\"value\":\"v{}\"}}}}", i, 40 + i).len())
        .sum();
    assert_eq!(segments[0].data.len(), live);
    assert!(segments[1].data.is_empty());
}

#[test]
fn history_decides_what_is_read() {
    let mut store = empty_store();
    let mut model: HashMap<String, String> = HashMap::new();
    let mut seed: u64 = 42;
    for step in 0..3000 {
        seed = seed.wrapping_mul(6364136223846793005).wrapping_add(1442695040888963407);
        let key = format!("key{}", (seed >> 33) % 17);
        match (seed >> 20) % 3 {
            0 => {
                let value = format!("value{}", step);
                store.set(key.clone(), value.clone()).unwrap();
                model.insert(key, value);
            },
            1 => {
                let removed = store.remove(key.clone());
                match model.remove(&key) {
                    Some(_) => assert!(removed.is_ok()),
                    None => assert!(matches!(removed, Err(KvsError::KeyNotFoundError))),
                }
            },
            _ => {
                assert_eq!(store.get(key.clone()).unwrap(), model.get(&key).cloned());
            },
        }
    }
    for i in 0..17 {
        let key = format!("key{}", i);
        assert_eq!(store.get(key.clone()).unwrap(), model.get(&key).cloned());
    }
}

#[test]
fn reopened_store_holds_the_same() {
    let mut store = empty_store();
    store.set(text("a"), text("1")).unwrap();
    store.set(text("b"), text("2")).unwrap();
    store.set(text("a"), text("3")).unwrap();
    store.remove(text("b")).unwrap();
    store.set(text("c"), text("line\nbreak \"quoted\" \\ \u{1} \u{e9}\u{4e16}\u{1f600}")).unwrap();
    let stale = store.stale_bytes();
    let mut store = reopen(store);
    assert_eq!(store.active_gen(), 2);
    assert_eq!(store.stale_bytes(), stale);
    assert_eq!(store.get(text("a")).unwrap(), Some(text("3")));
    assert_eq!(store.get(text("b")).unwrap(), None);
    assert_eq!(
        store.get(text("c")).unwrap(),
        Some(text("line\nbreak \"quoted\" \\ \u{1} \u{e9}\u{4e16}\u{1f600}"))
    );
    store.set(text("d"), text("4")).unwrap();
    store.compact();
    let store = reopen(store);
    assert_eq!(store.get(text("a")).unwrap(), Some(text("3")));
    assert_eq!(store.get(text("b")).unwrap(), None);
    assert_eq!(store.get(text("d")).unwrap(), Some(text("4")));
}

fn carry_out(dir: &mut HashMap<u64, Vec<u8>>, ops: Vec<FileOp>) {
    for op in ops {
        match op {
            FileOp::Create { gen } => {
                dir.entry(gen).or_insert_with(Vec::new);
            },
            FileOp::Append { gen, data } => {
                dir.entry(gen).or_insert_with(Vec::new).extend_from_slice(&data);
            },
            FileOp::Remove { gen } => {
                dir.remove(&gen);
            },
        }
    }
}

fn listing(dir: &HashMap<u64, Vec<u8>>) -> Vec<Segment> {
    let mut gens: Vec<u64> = dir.keys().copied().collect();
    gens.sort();
    gens.into_iter().map(|gen| Segment { gen, data: dir[&gen].clone() }).collect()
}

#[test]
fn journal_carries_the_log_to_a_directory() {
    let mut dir: HashMap<u64, Vec<u8>> = HashMap::new();
    let mut store = empty_store();
    let big = "b".repeat(300 * 1024);
    for round in 0..12 {
        store.set(format!("k{}", round % 4), format!("{}{}", big, round)).unwrap();
        if round % 5 == 4 {
            store.remove(format!("k{}", round % 4)).unwrap();
        }
        if round % 3 == 0 {
            carry_out(&mut dir, store.take_journal());
        }
    }
    carry_out(&mut dir, store.take_journal());
    assert!(store.take_journal().is_empty());
    assert!(store.active_gen() > 1);
    let expected: Vec<(u64, Vec<u8>)> =
        store.into_segments().into_iter().map(|s| (s.gen, s.data)).collect();
    let found: Vec<(u64, Vec<u8>)> = listing(&dir).into_iter().map(|s| (s.gen, s.data)).collect();
    assert_eq!(found, expected);
    let reopened = StoreWriter::open(listing(&dir)).unwrap();
    assert_eq!(reopened.get(text("k3")).unwrap(), Some(format!("{}{}", big, 11)));
    assert_eq!(reopened.get(text("k0")).unwrap(), Some(format!("{}{}", big, 8)));
    assert_eq!(reopened.get(text("k1")).unwrap(), None);
}

#[test]
fn journal_of_a_set_is_one_append() {
    let mut store = empty_store();
    store.take_journal();
    store.set(text("k"), text("v")).unwrap();
    let journal = store.take_journal();
    assert_eq!(journal.len(), 1);
    match &journal[0] {
        FileOp::Append { gen, data } => {
            assert_eq!(*gen, 1);
            assert_eq!(data.as_slice(), b"{\"Set\":{\"key\":\"k\",\"value\":\"v\"}}");
        },
        other => panic!("unexpected {:?}", other),
    }
}

#[test]
fn journal_of_a_compaction() {
    let mut store = StoreWriter::open(vec![Segment { gen: 4, data: Vec::new() }]).unwrap();
    store.set(text("k"), text("v")).unwrap();
    store.take_journal();
    store.compact();
    let journal = store.take_journal();
    assert_eq!(journal.len(), 5);
    assert!(matches!(journal[0], FileOp::Create { gen: 6 }));
    assert!(matches!(journal[1], FileOp::Create { gen: 7 }));
    match &journal[2] {
        FileOp::Append { gen, data } => {
            assert_eq!(*gen, 6);
            assert_eq!(data.as_slice(), b"{\"Set\":{\"key\":\"k\",\"value\":\"v\"}}");
        },
        other => panic!("unexpected {:?}", other),
    }
    assert!(matches!(journal[3], FileOp::Remove { gen: 4 }));
    assert!(matches!(journal[4], FileOp::Remove { gen: 5 }));
}

#[test]
fn compaction_waits_until_the_threshold_is_exceeded() {
    let mut store = empty_store();
    // a record for the key "k" is 30 bytes longer than its value
    let exact = "e".repeat(1024 * 1024 - 30);
    store.set(text("k"), exact).unwrap();
    store.set(text("k"), text("second")).unwrap();
    assert_eq!(store.stale_bytes(), 1024 * 1024);
    assert_eq!(store.active_gen(), 1);
    store.set(text("k"), text("third")).unwrap();
    assert_eq!(store.stale_bytes(), 0);
    assert_eq!(store.active_gen(), 3);
    assert_eq!(store.get(text("k")).unwrap(), Some(text("third")));
}

#[test]
fn compaction_is_left_out_when_generations_run_out() {
    let segments = vec![Segment { gen: u64::MAX - 2, data: Vec::new() }];
    let mut store = StoreWriter::open(segments).unwrap();
    assert_eq!(store.active_gen(), u64::MAX - 1);
    let big = "b".repeat(1024 * 1024);
    store.set(text("k"), big.clone()).unwrap();
    store.set(text("k"), big.clone()).unwrap();
    store.set(text("k"), text("small")).unwrap();
    assert!(store.stale_bytes() > 1024 * 1024);
    assert_eq!(store.active_gen(), u64::MAX - 1);
    assert_eq!(store.get(text("k")).unwrap(), Some(text("small")));
    assert_eq!(store.into_segments().len(), 2);
}

#[test]
fn replay_counts_stale_bytes_of_removes_without_a_key() {
    // a `Remove` record for a key that the index does not hold is stale itself
    let data = b"{\"Remove\":{\"key\":\"k\"}}{\"Set\":{\"key\":\"k\",\"value\":\"v\"}}".to_vec();
    let store = StoreWriter::open(vec![Segment { gen: 1, data }]).unwrap();
    assert_eq!(store.stale_bytes(), 22);
    assert_eq!(store.get(text("k")).unwrap(), Some(text("v")));
}

#[test]
fn later_segments_win_on_replay() {
    let old = b"{\"Set\":{\"key\":\"a\",\"value\":\"old\"}}{\"Set\":{\"key\":\"b\",\"value\":\"kept\"}}".to_vec();
    let new = b"{\"Set\":{\"key\":\"a\",\"value\":\"new\"}}{\"Remove\":{\"key\":\"b\"}}".to_vec();
    let store = StoreWriter::open(vec![
        Segment { gen: 2, data: old },
        Segment { gen: 5, data: new },
    ])
    .unwrap();
    assert_eq!(store.active_gen(), 6);
    assert_eq!(store.get(text("a")).unwrap(), Some(text("new")));
    assert_eq!(store.get(text("b")).unwrap(), None);
    assert_eq!(store.stale_bytes(), 33 + 34 + 22);
}

#[test]
fn two_thousand_sets_compact_twice() {
    let mut store = empty_store();
    let mut compacted_at = Vec::new();
    for i in 1..=2000u32 {
        let gen = store.active_gen();
        store.set(text("k"), format!("{:01024}", i)).unwrap();
        if store.active_gen() != gen {
            compacted_at.push(i);
        }
    }
    assert_eq!(compacted_at, vec![996, 1991]);
    assert_eq!(store.active_gen(), 5);
    assert_eq!(store.get(text("k")).unwrap(), Some(format!("{:01024}", 2000)));
    let segments = store.into_segments();
    let sizes: Vec<(u64, usize)> = segments.iter().map(|s| (s.gen, s.data.len())).collect();
    assert_eq!(sizes, vec![(4, 1054), (5, 9486)]);
}

#[test]
fn compact_copies_the_live_record() {
    let mut store = empty_store();
    store.set(text("k"), text("a")).unwrap();
    store.set(text("k"), text("b")).unwrap();
    assert_eq!(store.stale_bytes(), 31);
    store.compact();
    assert_eq!(store.active_gen(), 3);
    assert_eq!(store.stale_bytes(), 0);
    assert_eq!(store.get(text("k")).unwrap(), Some(text("b")));
    let segments = store.into_segments();
    assert_eq!(segments.len(), 2);
    assert_eq!(segments[0].gen, 2);
    assert_eq!(segments[0].data, b"{\"Set\":{\"key\":\"k\",\"value\":\"b\"}}".to_vec());
    assert_eq!(segments[1].gen, 3);
    assert!(segments[1].data.is_empty());
}

#[test]
fn compact_keeps_records_that_the_encoder_would_write_otherwise() {
    // the key is written with an escape that the encoder does not use
    let data = b"{\"Set\":{\"key\":\"\\u0041\",\"value\":\"v\"}}".to_vec();
    let mut store = StoreWriter::open(vec![Segment { gen: 1, data: data.clone() }]).unwrap();
    store.compact();
    assert_eq!(store.get(text("A")).unwrap(), Some(text("v")));
    let segments = store.into_segments();
    assert_eq!(segments[0].gen, 3);
    assert_eq!(segments[0].data, data);
}

#[test]
fn compact_does_nothing_when_generations_run_out() {
    let segments = vec![Segment { gen: u64::MAX - 2, data: Vec::new() }];
    let mut store = StoreWriter::open(segments).unwrap();
    store.set(text("k"), text("a")).unwrap();
    store.set(text("k"), text("b")).unwrap();
    store.take_journal();
    store.compact();
    assert_eq!(store.active_gen(), u64::MAX - 1);
    assert_eq!(store.stale_bytes(), 31);
    assert!(store.take_journal().is_empty());
    assert_eq!(store.get(text("k")).unwrap(), Some(text("b")));
}
