use bunjee::storage::block::Block;
use bunjee::storage::error::TableError;
use bunjee::storage::record::Record;
use bunjee::storage::table::Table;

#[test]
fn test_insert_get() {
    let mut block = Block::new();
    block.insert(Record::new(1, vec![1, 2, 3]));
    let result = block.get(1).unwrap();
    assert_eq!(result.data, vec![1, 2, 3]);
}

#[test]
fn test_load_unload() {
    let mut block = Block::new();
    block.insert(Record::new(1, vec![1, 2, 3]));
    block.insert(Record::new(2, vec![1, 2, 3, 4]));

    let bytes = block.to_bytes().unwrap();

    let loaded_block = Block::from_bytes(&bytes).unwrap();

    assert_eq!(block.count(), loaded_block.count());
    assert_eq!(block.get(1).unwrap().data, loaded_block.get(1).unwrap().data);
    assert_eq!(block.get(2).unwrap().data, loaded_block.get(2).unwrap().data);
}

#[test]
fn test_update() {
    let mut block = Block::new();
    block.insert(Record::new(1, vec![1, 2, 3]));

    let updated = block.update(1, vec![4, 5, 6]);
    assert!(updated);

    let result = block.get(1).unwrap();
    assert_eq!(result.data, vec![4, 5, 6]);

    let non_existing_update = block.update(2, vec![4, 5, 6]);
    assert!(!non_existing_update);
}

#[test]
fn test_remove() {
    let mut block = Block::new();
    block.insert(Record::new(1, vec![1, 2, 3]));
    block.insert(Record::new(2, vec![1, 2]));

    let deleted = block.delete(1);
    assert!(deleted);
    assert!(block.get(1).is_none());

    let non_existing_delete = block.delete(3);
    assert!(!non_existing_delete);

    assert!(block.get(2).is_some());
}

#[test]
fn test_count() {
    let mut block = Block::new();
    block.insert(Record::new(1, vec![1, 2, 3]));
    block.insert(Record::new(2, vec![1, 2]));

    assert_eq!(block.count(), 2);

    block.delete(1);
    assert_eq!(block.count(), 1);

    block.delete(2);
    assert_eq!(block.count(), 0);
}

#[test]
fn test_clear_empty() {
    let mut block = Block::new();
    block.insert(Record::new(1, vec![1, 2, 3]));
    block.insert(Record::new(2, vec![1, 2]));
    assert_eq!(block.count(), 2);

    block.clear();

    assert_eq!(block.count(), 0);
    assert!(block.get(1).is_none());
    assert!(block.get(2).is_none());
    assert!(block.is_empty())
}

#[test]
fn test_get_all() {
    let mut block = Block::new();
    block.insert(Record::new(1, vec![1, 2, 3]));
    block.insert(Record::new(2, vec![1, 2]));

    let mut result = block.get_all();
    assert_eq!(result.len(), 2);
    assert_eq!(result[0].data, vec![1, 2, 3]);
    assert_eq!(result[1].data, vec![1, 2]);

    block.delete(1);
    result = block.get_all();

    assert_eq!(result.len(), 1);
    assert_eq!(result[0].data, vec![1, 2]);
}

#[test]
fn test_clone() {
    let mut block = Block::new();
    block.insert(Record::new(1, vec![1, 2, 3]));
    block.insert(Record::new(2, vec![1, 2]));

    let clone_block = block.clone();

    assert_eq!(clone_block.count(), block.count());
    assert!(block == clone_block);

    for record in block.get_all() {
        let clone_record = clone_block.get(record.id).unwrap();
        assert_eq!(clone_record.data, record.data)
    }

    block.insert(Record::new(3, vec![4, 5, 6]));
    assert_ne!(clone_block.count(), block.count())
}

#[test]
fn insert_refuses_a_key_that_is_there() {
    let mut block = Block::new();
    assert!(block.insert(Record::new(7, vec![1])));
    assert!(!block.insert(Record::new(7, vec![2])));
    assert_eq!(block.count(), 1);
    assert_eq!(block.get(7).unwrap().data, vec![1]);
}

#[test]
fn delete_takes_the_first_match_only() {
    let block = Block::from_records(vec![
        Record::new(1, vec![1]),
        Record::new(2, vec![2]),
        Record::new(1, vec![3]),
    ]);
    let mut block = block;
    assert_eq!(block.get(1).unwrap().data, vec![1]);
    assert!(block.delete(1));
    assert_eq!(block.count(), 2);
    assert_eq!(block.get(1).unwrap().data, vec![3]);
}

#[test]
fn block_bytes_have_the_documented_layout() {
    let mut block = Block::new();
    block.insert(Record::new(1, vec![1, 2, 3]));
    let bytes = block.to_bytes().unwrap();
    let mut expected: Vec<u8> = Vec::new();
    expected.extend_from_slice(&1u64.to_le_bytes());
    expected.extend_from_slice(&1u64.to_le_bytes());
    expected.extend_from_slice(&3u64.to_le_bytes());
    expected.extend_from_slice(&[1, 2, 3]);
    assert_eq!(bytes, expected);
}

#[test]
fn empty_block_round_trip() {
    let block = Block::new();
    let bytes = block.to_bytes().unwrap();
    assert_eq!(bytes, 0u64.to_le_bytes().to_vec());
    let back = Block::from_bytes(&bytes).unwrap();
    assert!(back.is_empty());
}

#[test]
fn from_bytes_refuses_a_cut_file() {
    let mut block = Block::new();
    block.insert(Record::new(1, vec![1, 2, 3]));
    let bytes = block.to_bytes().unwrap();
    let cut = &bytes[..bytes.len() - 1];
    assert!(matches!(Block::from_bytes(cut), Err(TableError::Corrupt)));
    assert!(matches!(Block::from_bytes(&[1, 2]), Err(TableError::Corrupt)));
}

#[test]
fn block_round_trip_keeps_order_and_payloads() {
    let block = Block::from_records(vec![
        Record::new(9, vec![]),
        Record::new(3, vec![255, 0, 7]),
        Record::new(u64::MAX, vec![1; 40]),
    ]);
    let back = Block::from_bytes(&block.to_bytes().unwrap()).unwrap();
    assert!(back == block);
    let all = back.get_all();
    assert_eq!(all[0].id, 9);
    assert_eq!(all[1].id, 3);
    assert_eq!(all[2].id, u64::MAX);
}

#[test]
fn record_equality_is_by_key_and_payload() {
    assert!(Record::new(1, vec![1, 2]) == Record::new(1, vec![1, 2]));
    assert!(Record::new(1, vec![1, 2]) != Record::new(2, vec![1, 2]));
    assert!(Record::new(1, vec![1, 2]) != Record::new(1, vec![1, 3]));
    assert!(Record::new(1, vec![1, 2]) != Record::new(1, vec![1]));
}

fn block_of(records: &[(u64, &[u8])]) -> Block {
    let mut block = Block::new();
    for (id, data) in records {
        assert!(block.insert(Record::new(*id, data.to_vec())));
    }
    block
}

#[test]
fn block_pairs_round_trip() {
    let block = block_of(&[(3, &[1, 2]), (1, &[])]);
    let pairs = block.to_pairs();
    assert_eq!(pairs, vec![(3, vec![1, 2]), (1, Vec::new())]);
    let back = Block::from_pairs(pairs);
    assert_eq!(back.count(), 2);
    assert_eq!(back.get_all()[0].id, 3);
    assert_eq!(back.get(3).unwrap().data, vec![1, 2]);
    assert_eq!(back.get(1).unwrap().data, Vec::<u8>::new());
    assert!(Block::from_pairs(Vec::new()).is_empty());
}

#[test]
fn block_table_bytes_have_the_documented_layout() {
    let mut table = Table::new("t".to_string());
    assert_eq!(table.to_bytes().unwrap(), 0u64.to_le_bytes().to_vec());
    table.add_block(block_of(&[(7, &[9, 8])]));
    table.add_block(Block::new());
    let mut expected = 2u64.to_le_bytes().to_vec();
    expected.extend_from_slice(&1u64.to_le_bytes());
    expected.extend_from_slice(&7u64.to_le_bytes());
    expected.extend_from_slice(&2u64.to_le_bytes());
    expected.extend_from_slice(&[9, 8]);
    expected.extend_from_slice(&0u64.to_le_bytes());
    assert_eq!(table.to_bytes().unwrap(), expected);
}

#[test]
fn block_table_round_trip() {
    let mut table = Table::new("t".to_string());
    table.add_block(block_of(&[(1, &[1]), (2, &[2, 2])]));
    table.add_block(block_of(&[(3, &[3]), (1, &[4])]));
    let bytes = table.to_bytes().unwrap();
    let back = Table::load_from_disk("u".to_string(), &bytes).unwrap();
    let first = back.get_block(0).unwrap();
    let second = back.get_block(1).unwrap();
    assert!(back.get_block(2).is_none());
    assert_eq!(first.to_pairs(), vec![(1, vec![1]), (2, vec![2, 2])]);
    assert_eq!(second.to_pairs(), vec![(3, vec![3]), (1, vec![4])]);
    assert_eq!(back.to_bytes().unwrap(), bytes);
    // bytes behind the blocks are not looked at
    let mut longer = bytes.clone();
    longer.push(0);
    assert!(Table::load_from_disk("u".to_string(), &longer).unwrap().get_block(1).is_some());
}

#[test]
fn block_table_refuses_a_cut_file() {
    let mut table = Table::new("t".to_string());
    table.add_block(block_of(&[(1, &[1, 2, 3])]));
    let bytes = table.to_bytes().unwrap();
    assert!(matches!(Table::load_from_disk("t".to_string(), &bytes[..bytes.len() - 1]), Err(TableError::Corrupt)));
    assert!(matches!(Table::load_from_disk("t".to_string(), &[]), Err(TableError::Corrupt)));
    assert!(Table::load_from_disk("t".to_string(), &0u64.to_le_bytes()).unwrap().get_block(0).is_none());
}
