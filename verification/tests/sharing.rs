use kvs::{KvStore, KvsEngine};
use std::sync::Mutex;

#[test]
fn hundred_workers_write_ten_keys() {
    let store = KvStore::open(Vec::new()).unwrap();
    let pool = rayon::ThreadPoolBuilder::new().num_threads(8).build().unwrap();
    let all: Mutex<Vec<Vec<(usize, String)>>> = Mutex::new(Vec::new());
    pool.scope(|scope| {
        for worker in 0..100usize {
            let store = store.clone();
            let all = &all;
            scope.spawn(move |_| {
                let mut written = Vec::new();
                for step in 0..100usize {
                    let key = (worker + step) % 10;
                    let value = format!("w{}s{}", worker, step);
                    store.set(format!("key{}", key), value.clone()).unwrap();
                    assert!(store.get(format!("key{}", key)).unwrap().is_some());
                    written.push((key, value));
                }
                all.lock().unwrap().push(written);
            });
        }
    });
    let all = all.into_inner().unwrap();
    assert_eq!(all.len(), 100);
    for key in 0..10usize {
        let found = store.get(format!("key{}", key)).unwrap().unwrap();
        // the value read is the last that some worker wrote to the key
        let last_writes: Vec<&String> = all
            .iter()
            .filter_map(|written| written.iter().rev().find(|(k, _)| *k == key).map(|(_, v)| v))
            .collect();
        assert!(last_writes.contains(&&found), "key{} holds {}", key, found);
    }
    // what the handles wrote is what a store opened on the journal's files holds
    let mut files: Vec<(u64, Vec<u8>)> = Vec::new();
    for op in store.take_journal() {
        match op {
            kvs::engines::FileOp::Create { gen } => {
                if !files.iter().any(|(g, _)| *g == gen) {
                    files.push((gen, Vec::new()));
                }
            },
            kvs::engines::FileOp::Append { gen, data } => {
                files.iter_mut().find(|(g, _)| *g == gen).unwrap().1.extend_from_slice(&data);
            },
            kvs::engines::FileOp::Remove { gen } => files.retain(|(g, _)| *g != gen),
        }
    }
    files.sort();
    let segments = files.into_iter().map(|(gen, data)| kvs::engines::Segment { gen, data }).collect();
    let reopened = KvStore::open(segments).unwrap();
    for key in 0..10usize {
        assert_eq!(reopened.get(format!("key{}", key)).unwrap(), store.get(format!("key{}", key)).unwrap());
    }
}
