use bunjee::storage::block::Block;
use bunjee::storage::error::TableError;
use bunjee::storage::record::Record;
use bunjee::storage::sorted::{merge_records, sort_records};
use bunjee::storage::sstable::SSTable;

#[test]
fn test_sstable_create_and_load() {
    let file_path = "sstable_test.dat";

    // Create SSTable
    let mut block = Block::new();
    block.insert(Record::new(3, vec![3]));
    block.insert(Record::new(1, vec![1]));
    block.insert(Record::new(2, vec![2]));

    let sstable = SSTable::create_from_block(block, file_path);

    // Test get
    assert_eq!(sstable.get(1).unwrap().unwrap().data, vec![1]);
    assert_eq!(sstable.get(2).unwrap().unwrap().data, vec![2]);
    assert_eq!(sstable.get(3).unwrap().unwrap().data, vec![3]);

    // Test that records are sorted
    let all_records = sstable.get_all().unwrap();
    assert_eq!(all_records[0].id, 1);
    assert_eq!(all_records[1].id, 2);
    assert_eq!(all_records[2].id, 3);

    // The file's bytes give the same table back
    let bytes = sstable.to_bytes().unwrap();
    let loaded = SSTable::load_from_disk(file_path, &bytes).unwrap();
    assert_eq!(loaded.get(2).unwrap().unwrap().data, vec![2]);
    assert_eq!(loaded.size().unwrap(), 3);
    assert_eq!(loaded.file_path(), file_path);
}

#[test]
fn test_sstable_range_query() {
    let file_path = "sstable_range.dat";

    let mut block = Block::new();
    block.insert(Record::new(1, vec![1]));
    block.insert(Record::new(2, vec![2]));
    block.insert(Record::new(3, vec![3]));
    block.insert(Record::new(4, vec![4]));
    block.insert(Record::new(5, vec![5]));

    let sstable = SSTable::create_from_block(block, file_path);

    let range_records = sstable.get_range(2, 4).unwrap();
    assert_eq!(range_records.len(), 3);
    assert_eq!(range_records[0].id, 2);
    assert_eq!(range_records[1].id, 3);
    assert_eq!(range_records[2].id, 4);
}

#[test]
fn test_sstable_lazy_loading() {
    let file_path = "sstable_lazy.dat";

    // Create and save SSTable
    let mut block = Block::new();
    block.insert(Record::new(1, vec![1]));
    let bytes = block.to_bytes().unwrap();

    // Create lazy SSTable
    let mut lazy_sstable = SSTable::new_lazy(file_path);
    assert!(!lazy_sstable.is_loaded());
    assert!(matches!(lazy_sstable.get(1), Err(TableError::NotLoaded)));

    // Access after the file was read
    lazy_sstable.load(&bytes).unwrap();
    let record = lazy_sstable.get(1).unwrap().unwrap();
    assert_eq!(record.data, vec![1]);
    assert!(lazy_sstable.is_loaded());
}

#[test]
fn lazy_table_answers_nothing_before_load() {
    let table = SSTable::new_lazy("t.dat");
    assert!(matches!(table.get_all(), Err(TableError::NotLoaded)));
    assert!(matches!(table.get_range(0, 9), Err(TableError::NotLoaded)));
    assert!(matches!(table.is_empty(), Err(TableError::NotLoaded)));
    assert!(matches!(table.size(), Err(TableError::NotLoaded)));
    assert!(matches!(table.contains(1), Err(TableError::NotLoaded)));
    assert!(matches!(table.to_bytes(), Err(TableError::NotLoaded)));
    assert_eq!(table.file_path(), "t.dat");
}

#[test]
fn load_refuses_records_out_of_order() {
    let block = Block::from_records(vec![Record::new(2, vec![2]), Record::new(1, vec![1])]);
    let bytes = block.to_bytes().unwrap();
    assert!(matches!(SSTable::load_from_disk("x.dat", &bytes), Err(TableError::Corrupt)));
    let twice = Block::from_records(vec![Record::new(1, vec![2]), Record::new(1, vec![1])]);
    let mut lazy = SSTable::new_lazy("x.dat");
    assert!(matches!(lazy.load(&twice.to_bytes().unwrap()), Err(TableError::Corrupt)));
    assert!(!lazy.is_loaded());
    assert!(matches!(lazy.load(&[9, 9, 9]), Err(TableError::Corrupt)));
}

#[test]
fn load_is_done_once() {
    let one = Block::from_records(vec![Record::new(1, vec![1])]);
    let two = Block::from_records(vec![Record::new(2, vec![2])]);
    let mut table = SSTable::new_lazy("x.dat");
    table.load(&one.to_bytes().unwrap()).unwrap();
    table.load(&two.to_bytes().unwrap()).unwrap();
    assert!(table.contains(1).unwrap());
    assert!(!table.contains(2).unwrap());
}

#[test]
fn build_keeps_the_later_of_two_records() {
    let block = Block::from_records(vec![
        Record::new(2, vec![20]),
        Record::new(1, vec![10]),
        Record::new(2, vec![21]),
        Record::new(1, vec![11]),
        Record::new(3, vec![30]),
    ]);
    let table = SSTable::create_from_block(block, "x.dat");
    assert_eq!(table.size().unwrap(), 3);
    assert_eq!(table.get(1).unwrap().unwrap().data, vec![11]);
    assert_eq!(table.get(2).unwrap().unwrap().data, vec![21]);
    assert_eq!(table.get(3).unwrap().unwrap().data, vec![30]);
    assert!(table.get(4).unwrap().is_none());
}

#[test]
fn merge_lets_the_other_table_win() {
    let older = SSTable::create_from_block(
        Block::from_records(vec![
            Record::new(1, vec![1]),
            Record::new(2, vec![2]),
            Record::new(4, vec![4]),
        ]),
        "a.dat",
    );
    let newer = SSTable::create_from_block(
        Block::from_records(vec![Record::new(2, vec![22]), Record::new(3, vec![33])]),
        "b.dat",
    );
    let merged = older.merge_with(&newer, "c.dat").unwrap();
    assert_eq!(merged.file_path(), "c.dat");
    let all = merged.get_all().unwrap();
    let ids: Vec<u64> = all.iter().map(|r| r.id).collect();
    assert_eq!(ids, vec![1, 2, 3, 4]);
    assert_eq!(all[1].data, vec![22]);
    assert_eq!(all[2].data, vec![33]);
    // the inputs stay as they were
    assert_eq!(older.get(2).unwrap().unwrap().data, vec![2]);
    assert_eq!(newer.size().unwrap(), 2);
}

#[test]
fn merge_needs_both_tables_in_memory() {
    let loaded = SSTable::create_from_block(Block::new(), "a.dat");
    let lazy = SSTable::new_lazy("b.dat");
    assert!(matches!(loaded.merge_with(&lazy, "c.dat"), Err(TableError::NotLoaded)));
    assert!(matches!(lazy.merge_with(&loaded, "c.dat"), Err(TableError::NotLoaded)));
}

#[test]
fn range_edges() {
    let table = SSTable::create_from_block(
        Block::from_records(vec![
            Record::new(10, vec![1]),
            Record::new(20, vec![2]),
            Record::new(30, vec![3]),
        ]),
        "r.dat",
    );
    assert_eq!(table.get_range(0, 9).unwrap().len(), 0);
    assert_eq!(table.get_range(31, u64::MAX).unwrap().len(), 0);
    assert_eq!(table.get_range(10, 10).unwrap().len(), 1);
    assert_eq!(table.get_range(20, 10).unwrap().len(), 0);
    assert_eq!(table.get_range(0, u64::MAX).unwrap().len(), 3);
    let some = table.get_range(11, 30).unwrap();
    assert_eq!(some[0].id, 20);
    assert_eq!(some[1].id, 30);
}

#[test]
fn empty_table() {
    let table = SSTable::create_from_block(Block::new(), "e.dat");
    assert!(table.is_empty().unwrap());
    assert_eq!(table.size().unwrap(), 0);
    assert!(!table.contains(0).unwrap());
    assert!(table.get(0).unwrap().is_none());
}

#[test]
fn sort_and_merge_of_plain_records() {
    let sorted = sort_records(&vec![
        Record::new(3, vec![3]),
        Record::new(1, vec![1]),
        Record::new(3, vec![4]),
    ]);
    assert_eq!(sorted.len(), 2);
    assert_eq!(sorted[0].id, 1);
    assert_eq!(sorted[1].data, vec![4]);
    let merged = merge_records(&sorted, &vec![Record::new(0, vec![0]), Record::new(1, vec![9])]);
    let ids: Vec<u64> = merged.iter().map(|r| r.id).collect();
    assert_eq!(ids, vec![0, 1, 3]);
    assert_eq!(merged[1].data, vec![9]);
}

#[test]
fn table_errors_in_words() {
    assert_eq!(TableError::NotLoaded.message(), "table file not loaded");
    assert_eq!(TableError::Corrupt.message(), "table file is corrupt");
    assert_eq!(TableError::Encoding.message(), "records could not be encoded");
}
