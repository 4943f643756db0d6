use bunjee::codec::parse_record_data;
use bunjee::metadata::column::{Column, ColumnType, Instant};
use bunjee::metadata::table::Table;
use bunjee::query::parser::insert::InsertParser;
use bunjee::query::parser::where_clause::{WhereClause, WhereParser};
use bunjee::storage::discovery::TableFile;
use bunjee::storage::lsm_engine::{Effect, EngineError, LSMEngine};
use bunjee::storage::record::Record;
use bunjee::storage::writelog::{replay, LogEntry};

/// A directory held in memory: the journal, and the table files with the
/// time at which each was written.
struct Disk {
    log: Vec<u8>,
    files: Vec<(String, Vec<u8>, u128)>,
    clock: u128,
}

fn fresh(dir: &str, size: usize) -> LSMEngine {
    let (engine, replayed) = LSMEngine::new(dir, size, &Vec::new(), &Vec::new());
    assert_eq!(replayed, 0);
    engine
}

fn empty_disk() -> Disk {
    Disk { log: Vec::new(), files: Vec::new(), clock: 0 }
}

fn perform(disk: &mut Disk, effects: Vec<Effect>) {
    for effect in effects {
        match effect {
            Effect::WriteTable { path, bytes } => {
                assert!(disk.files.iter().all(|f| f.0 != path), "file written twice: {}", path);
                disk.clock += 1;
                disk.files.push((path, bytes, disk.clock));
            }
            Effect::TruncateLog => disk.log.clear(),
            Effect::RemoveTable { path } => disk.files.retain(|f| f.0 != path),
        }
    }
}

fn load(engine: &mut LSMEngine, disk: &Disk, index: usize) {
    let path = engine.table_file(index).unwrap().to_string();
    let file = disk.files.iter().find(|f| f.0 == path).unwrap();
    engine.load_table(index, &file.1).unwrap();
}

fn insert(engine: &mut LSMEngine, disk: &mut Disk, record: Record) {
    disk.log.extend(LogEntry::Insert(record.clone()).encode());
    loop {
        match engine.insert(record.clone()) {
            Ok(effects) => {
                perform(disk, effects);
                return;
            }
            Err(EngineError::NotLoaded(i)) => load(engine, disk, i),
            Err(e) => panic!("{:?}", e),
        }
    }
}

fn update(engine: &mut LSMEngine, disk: &mut Disk, id: u64, data: Vec<u8>) {
    disk.log.extend(LogEntry::Update { id, data: data.clone() }.encode());
    loop {
        match engine.update(id, data.clone()) {
            Ok(effects) => {
                perform(disk, effects);
                return;
            }
            Err(EngineError::NotLoaded(i)) => load(engine, disk, i),
            Err(e) => panic!("{:?}", e),
        }
    }
}

fn delete(engine: &mut LSMEngine, disk: &mut Disk, id: u64) -> bool {
    disk.log.extend(LogEntry::Delete { id }.encode());
    engine.delete(id)
}

fn flush(engine: &mut LSMEngine, disk: &mut Disk) {
    loop {
        match engine.flush() {
            Ok(effects) => {
                perform(disk, effects);
                return;
            }
            Err(EngineError::NotLoaded(i)) => load(engine, disk, i),
            Err(e) => panic!("{:?}", e),
        }
    }
}

fn get(engine: &mut LSMEngine, disk: &Disk, id: u64) -> Option<Record> {
    loop {
        match engine.get(id) {
            Ok(found) => return found,
            Err(EngineError::NotLoaded(i)) => load(engine, disk, i),
            Err(e) => panic!("{:?}", e),
        }
    }
}

fn get_all(engine: &mut LSMEngine, disk: &Disk) -> Vec<Record> {
    loop {
        match engine.get_all_records() {
            Ok(all) => return all,
            Err(EngineError::NotLoaded(i)) => load(engine, disk, i),
            Err(e) => panic!("{:?}", e),
        }
    }
}

fn restart(disk: &mut Disk, dir: &str, size: usize) -> LSMEngine {
    let listing: Vec<TableFile> = disk
        .files
        .iter()
        .map(|f| TableFile { name: f.0.rsplit('/').next().unwrap().to_string(), modified: f.2 })
        .collect();
    let text = String::from_utf8(disk.log.clone()).unwrap();
    let journal = replay(&text);
    let (mut engine, replayed) = LSMEngine::new(dir, size, &listing, &journal);
    for entry in &journal[replayed..] {
        loop {
            match engine.replay_entry(entry.clone()) {
                Ok(effects) => {
                    perform(disk, effects);
                    break;
                }
                Err(EngineError::NotLoaded(i)) => load(&mut engine, disk, i),
                Err(e) => panic!("{:?}", e),
            }
        }
    }
    engine
}

fn names(disk: &Disk) -> Vec<String> {
    let mut v: Vec<String> = disk.files.iter().map(|f| f.0.clone()).collect();
    v.sort();
    v
}

#[test]
fn test_lsm_engine_basic_ops() {
    let mut disk = empty_disk();
    let mut engine = fresh("data", 3);

    // Test insert and get
    let record1 = Record::new(1, vec![1, 2, 3]);
    let record2 = Record::new(2, vec![4, 5, 6]);

    insert(&mut engine, &mut disk, record1.clone());
    insert(&mut engine, &mut disk, record2.clone());

    assert_eq!(get(&mut engine, &disk, 1).unwrap().data, vec![1, 2, 3]);
    assert_eq!(get(&mut engine, &disk, 2).unwrap().data, vec![4, 5, 6]);

    // Test update
    update(&mut engine, &mut disk, 1, vec![7, 8, 9]);
    assert_eq!(get(&mut engine, &disk, 1).unwrap().data, vec![7, 8, 9]);

    // Test delete
    delete(&mut engine, &mut disk, 1);
    assert!(get(&mut engine, &disk, 1).is_none());
}

#[test]
fn test_lsm_engine_memtable_flush() {
    let mut disk = empty_disk();
    let mut engine = fresh("data", 2);

    // Fill memtable to trigger flush
    insert(&mut engine, &mut disk, Record::new(1, vec![1]));
    insert(&mut engine, &mut disk, Record::new(2, vec![2]));
    insert(&mut engine, &mut disk, Record::new(3, vec![3])); // This should trigger flush

    // All records should still be accessible
    assert_eq!(get(&mut engine, &disk, 1).unwrap().data, vec![1]);
    assert_eq!(get(&mut engine, &disk, 2).unwrap().data, vec![2]);
    assert_eq!(get(&mut engine, &disk, 3).unwrap().data, vec![3]);

    let stats = engine.stats().unwrap();
    assert_eq!(stats.sstable_count, 1);
    assert_eq!(stats.memtable_size, 1);
}

#[test]
fn test_lsm_engine_recovery() {
    let mut disk = empty_disk();
    let data_dir = "data";

    // Create engine and insert some data
    {
        let mut engine = fresh(data_dir, 5);
        insert(&mut engine, &mut disk, Record::new(1, vec![1]));
        insert(&mut engine, &mut disk, Record::new(2, vec![2]));
        // Don't flush - data should be in write log
    }

    // Create new engine (simulating restart)
    {
        let mut engine = restart(&mut disk, data_dir, 5);
        // Data should be recovered from write log
        assert_eq!(get(&mut engine, &disk, 1).unwrap().data, vec![1]);
        assert_eq!(get(&mut engine, &disk, 2).unwrap().data, vec![2]);
    }
}

#[test]
fn flush_writes_first_table_and_cuts_the_journal() {
    let mut disk = empty_disk();
    let mut engine = fresh("data", 10);
    insert(&mut engine, &mut disk, Record::new(1, b"a".to_vec()));
    insert(&mut engine, &mut disk, Record::new(2, b"b".to_vec()));
    insert(&mut engine, &mut disk, Record::new(3, b"c".to_vec()));
    assert!(!disk.log.is_empty());
    flush(&mut engine, &mut disk);
    assert_eq!(get(&mut engine, &disk, 2).unwrap().data, b"b".to_vec());
    let ids: Vec<u64> = get_all(&mut engine, &disk).iter().map(|r| r.id).collect();
    assert_eq!(ids, vec![1, 2, 3]);
    assert_eq!(names(&disk), vec!["data/sstable_1.dat".to_string()]);
    assert!(disk.log.is_empty());
}

#[test]
fn third_insert_rolls_a_memtable_of_two() {
    let mut disk = empty_disk();
    let mut engine = fresh("data", 2);
    insert(&mut engine, &mut disk, Record::new(1, b"a".to_vec()));
    insert(&mut engine, &mut disk, Record::new(2, b"b".to_vec()));
    insert(&mut engine, &mut disk, Record::new(3, b"c".to_vec()));
    let stats = engine.stats().unwrap();
    assert_eq!(stats.memtable_size, 1);
    assert_eq!(stats.sstable_count, 1);
    assert_eq!(stats.total_records, 3);
    assert!(disk.log.is_empty());
    assert_eq!(disk.files.len(), 1);
    assert_eq!(get(&mut engine, &disk, 1).unwrap().data, b"a".to_vec());
    assert_eq!(get(&mut engine, &disk, 3).unwrap().data, b"c".to_vec());
}

#[test]
fn update_after_flush_survives_restart_by_replay() {
    let mut disk = empty_disk();
    {
        let mut engine = fresh("data", 10);
        insert(&mut engine, &mut disk, Record::new(1, b"a".to_vec()));
        flush(&mut engine, &mut disk);
        update(&mut engine, &mut disk, 1, b"b".to_vec());
    }
    let mut engine = restart(&mut disk, "data", 10);
    assert_eq!(get(&mut engine, &disk, 1).unwrap().data, b"b".to_vec());
}

#[test]
fn fifth_rollover_merges_the_two_oldest_tables() {
    let mut disk = empty_disk();
    let mut engine = fresh("data", 100);
    for id in 1..=10u64 {
        insert(&mut engine, &mut disk, Record::new(id, vec![id as u8]));
    }
    flush(&mut engine, &mut disk);
    for round in 0..3u64 {
        update(&mut engine, &mut disk, round + 1, vec![100 + round as u8]);
        flush(&mut engine, &mut disk);
    }
    assert_eq!(engine.table_count(), 4);
    assert_eq!(disk.files.len(), 4);
    update(&mut engine, &mut disk, 4, vec![103]);
    flush(&mut engine, &mut disk);
    // five tables were too many: the two oldest became one
    assert_eq!(engine.table_count(), 4);
    assert_eq!(
        names(&disk),
        vec![
            "data/sstable_3.dat".to_string(),
            "data/sstable_4.dat".to_string(),
            "data/sstable_5.dat".to_string(),
            "data/sstable_6.dat".to_string(),
        ]
    );
    update(&mut engine, &mut disk, 5, vec![104]);
    flush(&mut engine, &mut disk);
    assert_eq!(engine.table_count(), 4);
    let all = get_all(&mut engine, &disk);
    assert_eq!(all.len(), 10);
    for id in 1..=10u64 {
        let expected = if id <= 5 { vec![99 + id as u8] } else { vec![id as u8] };
        assert_eq!(get(&mut engine, &disk, id).unwrap().data, expected, "id {}", id);
        assert_eq!(all[(id - 1) as usize].id, id);
        assert_eq!(all[(id - 1) as usize].data, expected);
    }
}

#[test]
fn newest_write_wins_over_every_layer() {
    let mut disk = empty_disk();
    let mut engine = fresh("data", 2);
    insert(&mut engine, &mut disk, Record::new(1, vec![1]));
    flush(&mut engine, &mut disk);
    update(&mut engine, &mut disk, 1, vec![2]);
    assert_eq!(get(&mut engine, &disk, 1).unwrap().data, vec![2]);
    flush(&mut engine, &mut disk);
    assert_eq!(get(&mut engine, &disk, 1).unwrap().data, vec![2]);
    // a second insert of the key rolls the memtable over and takes its place
    update(&mut engine, &mut disk, 1, vec![3]);
    insert(&mut engine, &mut disk, Record::new(1, vec![4]));
    assert_eq!(get(&mut engine, &disk, 1).unwrap().data, vec![4]);
    insert(&mut engine, &mut disk, Record::new(2, vec![9]));
    insert(&mut engine, &mut disk, Record::new(3, vec![9]));
    assert_eq!(get(&mut engine, &disk, 1).unwrap().data, vec![4]);
    let all = get_all(&mut engine, &disk);
    assert_eq!(all.len(), 3);
    assert_eq!(all[0].data, vec![4]);
}

#[test]
fn delete_reports_the_memtable_only() {
    let mut disk = empty_disk();
    let mut engine = fresh("data", 4);
    insert(&mut engine, &mut disk, Record::new(1, vec![1]));
    flush(&mut engine, &mut disk);
    // the key lives in a table: nothing to take out of the memtable
    assert!(!delete(&mut engine, &mut disk, 1));
    assert_eq!(get(&mut engine, &disk, 1).unwrap().data, vec![1]);
    insert(&mut engine, &mut disk, Record::new(2, vec![2]));
    assert!(delete(&mut engine, &mut disk, 2));
    assert!(get(&mut engine, &disk, 2).is_none());
    assert!(!delete(&mut engine, &mut disk, 2));
    // a newer version in the memtable goes, the older one shows again
    update(&mut engine, &mut disk, 1, vec![7]);
    assert!(delete(&mut engine, &mut disk, 1));
    assert_eq!(get(&mut engine, &disk, 1).unwrap().data, vec![1]);
}

#[test]
fn memtable_of_bound_zero_rejects_writes() {
    let mut engine = fresh("data", 0);
    assert!(matches!(engine.insert(Record::new(1, vec![1])), Err(EngineError::Rejected)));
    assert!(matches!(engine.update(1, vec![1]), Err(EngineError::Rejected)));
    assert!(!engine.delete(1));
    assert!(engine.flush().unwrap().is_empty());
    // a replay passes over what the memtable cannot take
    assert!(engine.replay_entry(LogEntry::Insert(Record::new(1, vec![1]))).unwrap().is_empty());
    assert!(engine.get(1).unwrap().is_none());
    assert_eq!(EngineError::Rejected.message(), "Failed to insert after flush");
}

#[test]
fn flush_of_an_empty_memtable_does_nothing() {
    let mut engine = fresh("data", 3);
    assert!(engine.flush().unwrap().is_empty());
    assert_eq!(engine.table_count(), 0);
    let stats = engine.stats().unwrap();
    assert_eq!(stats.memtable_size, 0);
    assert_eq!(stats.sstable_count, 0);
    assert_eq!(stats.total_records, 0);
}

#[test]
fn rollover_effects_come_in_order() {
    let mut engine = fresh("dir", 1);
    assert!(engine.insert(Record::new(5, vec![5])).unwrap().is_empty());
    let effects = engine.insert(Record::new(6, vec![6])).unwrap();
    assert_eq!(effects.len(), 2);
    match &effects[0] {
        Effect::WriteTable { path, bytes } => {
            assert_eq!(path, "dir/sstable_1.dat");
            let mut expected: Vec<u8> = Vec::new();
            expected.extend_from_slice(&1u64.to_le_bytes());
            expected.extend_from_slice(&5u64.to_le_bytes());
            expected.extend_from_slice(&1u64.to_le_bytes());
            expected.push(5);
            assert_eq!(bytes, &expected);
        }
        _ => panic!("Expected a table file"),
    }
    assert!(matches!(effects[1], Effect::TruncateLog));
    assert_eq!(engine.table_file(0), Some("dir/sstable_1.dat"));
    assert_eq!(engine.table_file(1), None);
    assert_eq!(engine.data_dir(), "dir");
}

#[test]
fn tables_are_read_on_first_use_after_restart() {
    let mut disk = empty_disk();
    {
        let mut engine = fresh("data", 2);
        for id in 1..=6u64 {
            insert(&mut engine, &mut disk, Record::new(id, vec![id as u8]));
        }
        flush(&mut engine, &mut disk);
    }
    let mut engine = restart(&mut disk, "data", 2);
    assert_eq!(engine.table_count(), 3);
    assert!(matches!(engine.get(1), Err(EngineError::NotLoaded(0))));
    assert!(matches!(engine.stats(), Err(EngineError::NotLoaded(0))));
    assert!(matches!(engine.get_all_records(), Err(EngineError::NotLoaded(0))));
    // the newest table holds 5 and 6: a read of 6 needs that table alone
    load(&mut engine, &disk, 0);
    assert_eq!(engine.get(6).unwrap().unwrap().data, vec![6]);
    assert!(matches!(engine.get(1), Err(EngineError::NotLoaded(1))));
    assert_eq!(get(&mut engine, &disk, 1).unwrap().data, vec![1]);
    assert!(get(&mut engine, &disk, 7).is_none());
    assert_eq!(engine.stats().unwrap().total_records, 6);
    // the next table file gets a number that no file has
    insert(&mut engine, &mut disk, Record::new(7, vec![7]));
    flush(&mut engine, &mut disk);
    assert!(names(&disk).contains(&"data/sstable_4.dat".to_string()));
}

#[test]
fn load_table_refusals() {
    let mut disk = empty_disk();
    {
        let mut engine = fresh("data", 2);
        insert(&mut engine, &mut disk, Record::new(1, vec![1]));
        flush(&mut engine, &mut disk);
    }
    let mut engine = restart(&mut disk, "data", 2);
    assert!(matches!(engine.load_table(3, &[]), Err(EngineError::NoSuchTable(3))));
    assert!(matches!(engine.load_table(0, &[1, 2, 3]), Err(EngineError::Corrupt)));
    assert!(matches!(engine.get(1), Err(EngineError::NotLoaded(0))));
    load(&mut engine, &disk, 0);
    // once in memory the table is not read again
    assert!(engine.load_table(0, &[1, 2, 3]).is_ok());
    assert_eq!(engine.get(1).unwrap().unwrap().data, vec![1]);
}

#[test]
fn compaction_asks_for_the_oldest_tables_first() {
    let mut disk = empty_disk();
    {
        let mut engine = fresh("data", 1);
        for id in 1..=5u64 {
            insert(&mut engine, &mut disk, Record::new(id, vec![id as u8]));
        }
        flush(&mut engine, &mut disk);
    }
    assert_eq!(disk.files.len(), 4);
    let mut engine = restart(&mut disk, "data", 1);
    assert_eq!(engine.table_count(), 4);
    assert!(engine.insert(Record::new(9, vec![9])).unwrap().is_empty());
    // the next rollover merges the two oldest, which are not in memory
    assert!(matches!(engine.insert(Record::new(10, vec![10])), Err(EngineError::NotLoaded(3))));
    assert_eq!(engine.stats().err(), Some(EngineError::NotLoaded(0)));
    load(&mut engine, &disk, 3);
    assert!(matches!(engine.flush(), Err(EngineError::NotLoaded(2))));
    load(&mut engine, &disk, 2);
    let effects = engine.insert(Record::new(10, vec![10])).unwrap();
    assert_eq!(effects.len(), 5);
    // by the time of writing the merged file is the newest, so the oldest two are 3 and 4
    assert!(matches!(&effects[2], Effect::WriteTable { path, .. } if path == "data/sstable_8.dat"));
    assert!(matches!(&effects[3], Effect::RemoveTable { path } if path == "data/sstable_3.dat"));
    assert!(matches!(&effects[4], Effect::RemoveTable { path } if path == "data/sstable_4.dat"));
    perform(&mut disk, effects);
    assert_eq!(engine.table_count(), 4);
    assert_eq!(get(&mut engine, &disk, 2).unwrap().data, vec![2]);
    assert_eq!(get(&mut engine, &disk, 3).unwrap().data, vec![3]);
    assert_eq!(get(&mut engine, &disk, 10).unwrap().data, vec![10]);
}

#[test]
fn a_rollover_that_stopped_before_the_journal_was_cut_is_harmless() {
    let mut disk = empty_disk();
    let mut engine = fresh("data", 5);
    insert(&mut engine, &mut disk, Record::new(1, vec![1]));
    insert(&mut engine, &mut disk, Record::new(2, vec![2]));
    let effects = engine.flush().unwrap();
    // only the table file is written; the journal stays
    let mut effects = effects;
    effects.truncate(1);
    perform(&mut disk, effects);
    assert!(!disk.log.is_empty());
    let mut after = restart(&mut disk, "data", 5);
    assert_eq!(after.stats().err(), Some(EngineError::NotLoaded(0)));
    for id in [1u64, 2] {
        assert_eq!(get(&mut after, &disk, id).unwrap().data, get(&mut engine, &disk, id).unwrap().data);
    }
    assert!(get(&mut after, &disk, 3).is_none());
    let all = get_all(&mut after, &disk);
    assert_eq!(all.len(), 2);
}

#[test]
fn scan_is_sorted_with_one_record_for_each_key() {
    let mut disk = empty_disk();
    let mut engine = fresh("data", 3);
    for id in [9u64, 3, 7, 1, 5, 3, 9, 2] {
        update(&mut engine, &mut disk, id, vec![id as u8]);
    }
    update(&mut engine, &mut disk, 7, vec![77]);
    let all = get_all(&mut engine, &disk);
    let ids: Vec<u64> = all.iter().map(|r| r.id).collect();
    assert_eq!(ids, vec![1, 2, 3, 5, 7, 9]);
    assert_eq!(all[4].data, vec![77]);
    for r in &all {
        assert_eq!(get(&mut engine, &disk, r.id).unwrap().data, r.data);
    }
}

#[test]
fn number_of_tables_stays_bounded() {
    let mut disk = empty_disk();
    let mut engine = fresh("data", 1);
    for id in 1..=40u64 {
        insert(&mut engine, &mut disk, Record::new(id % 7, vec![id as u8]));
        assert!(engine.table_count() <= 4);
        assert!(disk.files.len() <= 4);
    }
    for id in 0..7u64 {
        assert!(get(&mut engine, &disk, id).is_some());
    }
}

#[test]
fn rows_of_a_table_are_found_after_restart() {
    let mut table = Table::new("users".to_string());
    let at = Instant { seconds: 0, nanos: 0 };
    table.add_column(Column::created("id".to_string(), ColumnType::Integer, at));
    table.add_column(Column::created("name".to_string(), ColumnType::Varchar(50), at));
    let columns = vec!["id".to_string(), "name".to_string()];
    let parser = InsertParser::new();
    let mut disk = empty_disk();
    {
        let mut engine = fresh("db/users", 100);
        for (key, id, name) in [(1u64, "1", "'Alice'"), (2, "2", "'Bob'")] {
            let values = vec![id.to_string(), name.to_string()];
            let payload = parser.row_bytes(&table, &columns, &values, &[None, None]).unwrap();
            insert(&mut engine, &mut disk, Record::new(key, payload));
        }
    }
    let mut engine = restart(&mut disk, "db/users", 100);
    let filter = WhereClause {
        column: "id".to_string(),
        operator: "=".to_string(),
        value: "2".to_string(),
    };
    let where_parser = WhereParser::new();
    let mut found: Vec<Vec<String>> = Vec::new();
    for record in get_all(&mut engine, &disk) {
        let row: Vec<String> =
            parse_record_data(&record, &table).iter().map(|v| v.to_text().unwrap()).collect();
        if where_parser.evaluate_where_clause(&row, &table, &filter, None).unwrap() {
            found.push(row);
        }
    }
    assert_eq!(found, vec![vec!["2".to_string(), "Bob".to_string()]]);
}

#[test]
fn no_rollover_without_a_number_for_the_file() {
    let listing = vec![TableFile { name: "sstable_18446744073709551615.dat".to_string(), modified: 1 }];
    let mut engine = LSMEngine::open("data", 1, &listing);
    assert!(engine.insert(Record::new(1, vec![1])).unwrap().is_empty());
    assert!(matches!(engine.insert(Record::new(2, vec![2])), Err(EngineError::IdsExhausted)));
    assert!(matches!(engine.flush(), Err(EngineError::IdsExhausted)));
    // the engine is as it was
    assert_eq!(engine.get(1).unwrap().unwrap().data, vec![1]);
    assert_eq!(engine.table_count(), 1);
    let listing = vec![TableFile { name: "sstable_18446744073709551614.dat".to_string(), modified: 1 }];
    let mut engine = LSMEngine::open("data", 1, &listing);
    assert!(matches!(engine.flush(), Ok(effects) if effects.is_empty()));
    engine.insert(Record::new(1, vec![1])).unwrap();
    assert!(matches!(engine.flush(), Err(EngineError::IdsExhausted)));
}

#[test]
fn errors_in_words() {
    assert_eq!(EngineError::NotLoaded(2).message(), "table file not loaded");
    assert_eq!(EngineError::NoSuchTable(2).message(), "no such table");
    assert_eq!(EngineError::Corrupt.message(), "table file is corrupt");
    assert_eq!(EngineError::Encoding.message(), "records could not be encoded");
    assert_eq!(EngineError::IdsExhausted.message(), "table file numbers exhausted");
}

#[test]
fn entries_that_the_memtable_takes_as_it_stands() {
    let mut engine = fresh("data", 2);
    assert!(engine.takes(&LogEntry::Insert(Record::new(1, vec![1]))));
    assert!(engine.takes(&LogEntry::Update { id: 1, data: vec![2] }));
    assert!(engine.takes(&LogEntry::Delete { id: 1 }));
    engine.insert(Record::new(1, vec![1])).unwrap();
    // a key that is there is not inserted again without a rollover
    assert!(!engine.takes(&LogEntry::Insert(Record::new(1, vec![9]))));
    assert!(engine.takes(&LogEntry::Update { id: 1, data: vec![2] }));
    engine.insert(Record::new(2, vec![2])).unwrap();
    assert!(!engine.takes(&LogEntry::Insert(Record::new(3, vec![3]))));
    assert!(!engine.takes(&LogEntry::Update { id: 3, data: vec![3] }));
    assert!(engine.takes(&LogEntry::Update { id: 2, data: vec![3] }));
    assert!(engine.takes(&LogEntry::Delete { id: 7 }));
    let none = fresh("data", 0);
    assert!(!none.takes(&LogEntry::Insert(Record::new(1, vec![1]))));
    assert!(!none.takes(&LogEntry::Update { id: 1, data: vec![1] }));
    assert!(none.takes(&LogEntry::Delete { id: 1 }));
}

#[test]
fn journal_is_replayed_up_to_the_first_rollover() {
    let journal = vec![
        LogEntry::Insert(Record::new(1, vec![1])),
        LogEntry::Update { id: 1, data: vec![7] },
        LogEntry::Update { id: 2, data: vec![2] },
        LogEntry::Delete { id: 1 },
        LogEntry::Insert(Record::new(3, vec![3])),
        LogEntry::Insert(Record::new(4, vec![4])),
        LogEntry::Insert(Record::new(5, vec![5])),
    ];
    let mut engine = fresh("data", 2);
    assert_eq!(engine.replay_journal(&journal), 5);
    let stats = engine.stats().unwrap();
    assert_eq!((stats.memtable_size, stats.sstable_count), (2, 0));
    assert!(engine.get(1).unwrap().is_none());
    assert_eq!(engine.get(2).unwrap().unwrap().data, vec![2]);
    assert_eq!(engine.get(3).unwrap().unwrap().data, vec![3]);
    assert!(engine.get(4).unwrap().is_none());
    // the entry that is left asks for a rollover
    assert!(!engine.takes(&journal[5]));
    assert_eq!(engine.replay_journal(&journal[5..].to_vec()), 0);
    let effects = engine.replay_entry(journal[5].clone()).unwrap();
    assert_eq!(effects.len(), 2);
    assert_eq!(engine.replay_journal(&journal[6..].to_vec()), 1);
    let stats = engine.stats().unwrap();
    assert_eq!((stats.memtable_size, stats.sstable_count), (2, 1));
    assert_eq!(engine.get(5).unwrap().unwrap().data, vec![5]);
    let mut wide = fresh("data", 10);
    assert_eq!(wide.replay_journal(&journal), journal.len());
    assert_eq!(wide.stats().unwrap().memtable_size, 4);
    assert_eq!(wide.replay_journal(&Vec::new()), 0);
}

#[test]
fn restart_gives_what_the_engine_gave() {
    let mut disk = empty_disk();
    let mut engine = fresh("data", 3);
    for id in 1..=7u64 {
        insert(&mut engine, &mut disk, Record::new(id, vec![id as u8]));
    }
    update(&mut engine, &mut disk, 7, vec![70]);
    update(&mut engine, &mut disk, 2, vec![20]);
    assert!(delete(&mut engine, &mut disk, 2));
    let listing: Vec<TableFile> = disk
        .files
        .iter()
        .map(|f| TableFile { name: f.0.rsplit('/').next().unwrap().to_string(), modified: f.2 })
        .collect();
    let journal = replay(&String::from_utf8(disk.log.clone()).unwrap());
    let (mut after, done) = LSMEngine::new("data", 3, &listing, &journal);
    // the journal holds the writes since the last rollover but the one
    // that rolled the memtable over
    assert_eq!(done, journal.len());
    assert_eq!(after.table_count(), engine.table_count());
    assert_eq!(after.stats().err(), Some(EngineError::NotLoaded(0)));
    for id in [1u64, 3, 4, 5, 6] {
        assert_eq!(
            get(&mut after, &disk, id).map(|r| r.data),
            get(&mut engine, &disk, id).map(|r| r.data),
            "key {}",
            id
        );
    }
    // the record whose write rolled the memtable over is in no journal
    assert_eq!(get(&mut engine, &disk, 7).unwrap().data, vec![70]);
    assert_eq!(get(&mut after, &disk, 7).unwrap().data, vec![70]);
    let (empty, done) = LSMEngine::new("data", 3, &Vec::new(), &Vec::new());
    assert_eq!(done, 0);
    assert_eq!(empty.table_count(), 0);
    assert_eq!(empty.stats().unwrap().memtable_size, 0);
}
