use bunjee::index::error::IndexError;
use bunjee::index::index::Index;
use bunjee::storage::block::Block;
use bunjee::storage::record::Record;
use bunjee::storage::table::Table;
use bunjee::transaction::error::TransactionError;
use bunjee::transaction::transaction::Transaction;

#[test]
fn index_lists_rows_by_value() {
    let mut index = Index::new("by_name".to_string(), "name".to_string());
    assert!(index.find("Bob").is_none());
    index.insert("Bob".to_string(), 3);
    index.insert("Alice".to_string(), 1);
    index.insert("Bob".to_string(), 7);
    index.insert("Bob".to_string(), 3);
    assert_eq!(index.find("Bob"), Some(&vec![3, 7, 3]));
    assert_eq!(index.find("Alice"), Some(&vec![1]));
    index.remove("Bob", 3);
    assert_eq!(index.find("Bob"), Some(&vec![7, 3]));
    index.remove("Bob", 9);
    assert_eq!(index.find("Bob"), Some(&vec![7, 3]));
    index.remove("Carol", 1);
    assert!(index.find("Carol").is_none());
    index.remove("Alice", 1);
    assert_eq!(index.find("Alice"), Some(&vec![]));
}

#[test]
fn index_errors_carry_a_name() {
    let e = IndexError::IndexNotFound("by_name".to_string());
    assert!(matches!(e, IndexError::IndexNotFound(n) if n == "by_name"));
    assert!(matches!(IndexError::ColumnNotFound("c".to_string()), IndexError::ColumnNotFound(_)));
    assert!(matches!(
        IndexError::IndexAlreadyExists("c".to_string()),
        IndexError::IndexAlreadyExists(_)
    ));
}

#[test]
fn transaction_opens_and_closes() {
    let mut t = Transaction::new();
    assert!(matches!(t.commit(), Err(TransactionError::NotInTransaction)));
    assert!(matches!(t.rollback(), Err(TransactionError::NotInTransaction)));
    assert!(t.begin().is_ok());
    assert!(matches!(t.begin(), Err(TransactionError::AlreadyInTransaction)));
    assert!(t.commit().is_ok());
    assert!(t.begin().is_ok());
    assert!(t.rollback().is_ok());
    assert!(matches!(t.rollback(), Err(TransactionError::NotInTransaction)));
}

#[test]
fn block_table_keeps_blocks_in_order() {
    let mut table = Table::new("t".to_string());
    assert!(table.get_block(0).is_none());
    let mut a = Block::new();
    a.insert(Record::new(1, vec![1]));
    let mut b = Block::new();
    b.insert(Record::new(2, vec![2]));
    b.insert(Record::new(1, vec![3]));
    table.add_block(a);
    table.add_block(b);
    assert_eq!(table.get_block(0).unwrap().count(), 1);
    assert_eq!(table.get_block(1).unwrap().get(1).unwrap().data, vec![3]);
    assert!(table.get_block(2).is_none());
}

#[test]
fn payload_bytes_are_overwritten_in_place() {
    let mut block = Block::new();
    block.insert(Record::new(1, vec![1, 2, 3, 4, 5]));
    block.insert(Record::new(2, vec![9, 9]));
    block.update_record(1, 1, &[7, 8]);
    assert_eq!(block.get(1).unwrap().data, vec![1, 7, 8, 4, 5]);
    block.update_record(1, 5, &[]);
    block.update_record(3, 0, &[1, 2, 3]);
    assert_eq!(block.get(1).unwrap().data, vec![1, 7, 8, 4, 5]);
    assert_eq!(block.get(2).unwrap().data, vec![9, 9]);
}
