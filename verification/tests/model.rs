use std::collections::BTreeMap;
use std::sync::Arc;

use tylsmdb::bound::KeyBound;
use tylsmdb::compact::executor::compact_entries;
use tylsmdb::db_state::{
    apply_batch, freeze_mutable_if_needed, get_opt, install_l0_table, scan_opt, take_oldest_flushable_memtable,
    DbState, TableRef,
};
use tylsmdb::key::InternalKey;
use tylsmdb::memtable::{MemTableKind, ValueRecord};
use tylsmdb::metrics::Metrics;
use tylsmdb::recovery::replay_wal;
use tylsmdb::table::builder::SSTableBuilder;
use tylsmdb::table::reader::SSTableReader;
use tylsmdb::version::FileMeta;
use tylsmdb::{ReadOptions, WriteBatch};

/// A table holding `entries`, in internal-key order, under file number `number`.
fn table_of(number: u64, entries: Vec<(InternalKey, ValueRecord)>) -> TableRef {
    let smallest = entries.first().expect("entries").0.clone();
    let largest = entries.last().expect("entries").0.clone();
    let smallest_seq = entries.iter().map(|(k, _)| k.sequence()).min().expect("entries");
    let largest_seq = entries.iter().map(|(k, _)| k.sequence()).max().expect("entries");
    let mut builder = SSTableBuilder::new(64);
    for (key, value) in entries {
        builder.add(key, &value).expect("add");
    }
    let image = builder.finish().expect("finish");
    let meta = FileMeta { number, file_size: image.len() as u64, smallest, largest, smallest_seq, largest_seq };
    (meta, Arc::new(SSTableReader::open(image).expect("open")))
}

/// A small linear congruential generator, so that the run is the same every time.
struct Lcg(u64);

impl Lcg {
    fn next(&mut self, n: u64) -> u64 {
        self.0 = self.0.wrapping_mul(6364136223846793005).wrapping_add(1442695040888963407);
        (self.0 >> 33) % n
    }
}

fn check(state: &DbState, oracle: &BTreeMap<Vec<u8>, Vec<u8>>) {
    let opts = ReadOptions::default();
    let rows = scan_opt(state, KeyBound::Unbounded, KeyBound::Unbounded, &opts, None).expect("scan");
    let expected: Vec<(Vec<u8>, Vec<u8>)> = oracle.iter().map(|(k, v)| (k.clone(), v.clone())).collect();
    assert_eq!(rows, expected);
    for k in 0..8u8 {
        let key = vec![b'k', b'0' + k];
        let mut metrics = Metrics::new();
        let got = get_opt(state, &key, &opts, None, &mut metrics).expect("get");
        assert_eq!(got.as_ref(), oracle.get(&key));
    }
}

#[test]
fn engine_answers_like_a_sorted_map() {
    for kind in [MemTableKind::BTree, MemTableKind::SkipList] {
        let mut rng = Lcg(7);
        let mut state = DbState::new(kind, vec![], vec![], 0);
        let mut oracle: BTreeMap<Vec<u8>, Vec<u8>> = BTreeMap::new();
        // The logged payloads of the mutable memtable and of each frozen one, oldest first.
        let mut mutable_log: Vec<Vec<u8>> = Vec::new();
        let mut frozen_logs: Vec<Vec<Vec<u8>>> = Vec::new();
        let mut next_number = 1u64;
        for step in 0..300u64 {
            match rng.next(10) {
                0..=5 => {
                    let mut batch = WriteBatch::new();
                    for _ in 0..=rng.next(3) {
                        let key = vec![b'k', b'0' + rng.next(8) as u8];
                        if rng.next(3) == 0 {
                            batch.delete(key.clone());
                            oracle.remove(&key);
                        } else {
                            let value = format!("v{step}").into_bytes();
                            batch.put(key.clone(), value.clone());
                            oracle.insert(key, value);
                        }
                    }
                    let start = state.last_sequence + 1;
                    mutable_log.push(batch.encode_with_sequence(start));
                    apply_batch(&mut state, start, &batch);
                }
                6 => {
                    if freeze_mutable_if_needed(&mut state, 1, kind) {
                        frozen_logs.push(std::mem::take(&mut mutable_log));
                    }
                }
                7 => {
                    if let Some((memtable, _)) = take_oldest_flushable_memtable(&mut state, kind) {
                        install_l0_table(&mut state, table_of(next_number, memtable.entries()));
                        next_number += 1;
                        if frozen_logs.is_empty() {
                            mutable_log.clear();
                        } else {
                            frozen_logs.remove(0);
                        }
                    }
                }
                8 => {
                    if !state.l0_tables.is_empty() {
                        let mut entries = Vec::new();
                        for (_, table) in &state.l0_tables {
                            entries.extend(table.entries().expect("entries"));
                        }
                        let compacted = compact_entries(entries, state.last_sequence, true);
                        state.l0_tables = if compacted.is_empty() {
                            Vec::new()
                        } else {
                            let table = table_of(next_number, compacted);
                            next_number += 1;
                            vec![table]
                        };
                    }
                }
                _ => {
                    let mut reopened =
                        DbState::new(kind, state.l0_tables.clone(), state.level_tables.clone(), state.last_sequence);
                    let mut log: Vec<Vec<u8>> = frozen_logs.drain(..).flatten().collect();
                    log.append(&mut mutable_log);
                    replay_wal(&mut reopened, &log).expect("replay");
                    mutable_log = log;
                    state = reopened;
                }
            }
            check(&state, &oracle);
        }
    }
}
