use bunjee::metadata::table::Table;
use bunjee::query::catalog::{Catalog, CatalogEffect, MEMTABLE_SIZE};
use bunjee::query::error::QueryError;
use bunjee::storage::discovery::TableFile;
use bunjee::storage::lsm_engine::{Effect, EngineError};
use bunjee::storage::record::Record;

#[test]
fn create_table_asks_for_directory_and_manifest() {
    let mut catalog = Catalog::new("db");
    assert_eq!(catalog.data_dir(), "db");
    assert_eq!(catalog.table_count(), 0);
    let effects = catalog.create_table("users", Table::new("users".to_string())).unwrap();
    assert_eq!(effects.len(), 2);
    assert!(matches!(&effects[0], CatalogEffect::CreateTableDir { path } if path == "db/users"));
    assert!(matches!(effects[1], CatalogEffect::SaveManifest));
    assert_eq!(catalog.list_tables(), vec!["users".to_string()]);
    assert_eq!(catalog.find("users"), Some(0));
    assert_eq!(catalog.schema(0).unwrap().name, "users");
    let engine = catalog.engine(0).unwrap();
    assert_eq!(engine.data_dir(), "db/users");
    assert_eq!(engine.table_count(), 0);
    assert!(catalog.schema(1).is_none());
    assert!(catalog.engine(1).is_none());
    assert_eq!(MEMTABLE_SIZE, 100);
}

#[test]
fn a_name_that_is_taken_is_refused() {
    let mut catalog = Catalog::new("db");
    catalog.create_table("t", Table::new("t".to_string())).unwrap();
    match catalog.create_table("t", Table::new("t".to_string())) {
        Err(QueryError::DuplicateKey(m)) => assert_eq!(m, "Table t already exists"),
        _ => panic!("expected a duplicate key"),
    }
    assert_eq!(catalog.table_count(), 1);
    assert!(!catalog.restore_table("t", Table::new("t".to_string()), &vec![]));
}

#[test]
fn drop_table_removes_directory_and_entry() {
    let mut catalog = Catalog::new("db");
    catalog.create_table("a", Table::new("a".to_string())).unwrap();
    catalog.create_table("t", Table::new("t".to_string())).unwrap();
    catalog.create_table("z", Table::new("z".to_string())).unwrap();
    let effects = catalog.drop_table("t").unwrap();
    assert_eq!(effects.len(), 2);
    assert!(matches!(&effects[0], CatalogEffect::RemoveTableDir { path } if path == "db/t"));
    assert!(matches!(effects[1], CatalogEffect::SaveManifest));
    assert_eq!(catalog.list_tables(), vec!["a".to_string(), "z".to_string()]);
    assert_eq!(catalog.find("t"), None);
    match catalog.drop_table("t") {
        Err(QueryError::TableNotFound(m)) => {
            assert_eq!(m, "t");
            assert_eq!(QueryError::TableNotFound(m).message(), "Table not found: t");
        }
        _ => panic!("expected table not found"),
    }
    assert_eq!(catalog.engine(1).unwrap().data_dir(), "db/z");
}

#[test]
fn restored_table_reads_its_files_lazily() {
    let mut catalog = Catalog::new("db");
    let files = vec![
        TableFile { name: "sstable_1.dat".to_string(), modified: 10 },
        TableFile { name: "write.log".to_string(), modified: 30 },
        TableFile { name: "sstable_7.dat".to_string(), modified: 20 },
    ];
    assert!(catalog.restore_table("users", Table::new("users".to_string()), &files));
    let engine = catalog.engine(0).unwrap();
    assert_eq!(engine.table_count(), 2);
    assert_eq!(engine.table_file(0), Some("db/users/sstable_7.dat"));
    assert_eq!(engine.table_file(1), Some("db/users/sstable_1.dat"));
    assert!(matches!(engine.get(1), Err(EngineError::NotLoaded(0))));
}

#[test]
fn engines_are_worked_on_through_the_catalog() {
    let mut catalog = Catalog::new("db");
    catalog.create_table("a", Table::new("a".to_string())).unwrap();
    catalog.create_table("b", Table::new("b".to_string())).unwrap();
    assert!(catalog.engine_mut(2).is_none());
    catalog.engine_mut(1).unwrap().insert(Record::new(1, vec![1])).unwrap();
    assert!(catalog.engine(0).unwrap().get(1).unwrap().is_none());
    assert_eq!(catalog.engine(1).unwrap().get(1).unwrap().unwrap().data, vec![1]);
    let (effects, refused) = catalog.flush_all();
    assert!(refused.is_none());
    assert_eq!(effects.len(), 2);
    assert!(effects[0].is_empty());
    assert_eq!(effects[1].len(), 2);
    assert!(matches!(&effects[1][0], Effect::WriteTable { path, .. } if path == "db/b/sstable_1.dat"));
    assert!(matches!(effects[1][1], Effect::TruncateLog));
    let (effects, refused) = catalog.flush_all();
    assert!(refused.is_none());
    assert!(effects.iter().all(|e| e.is_empty()));
}

#[test]
fn flush_all_stops_at_the_engine_that_refuses() {
    let mut catalog = Catalog::new("db");
    catalog.create_table("a", Table::new("a".to_string())).unwrap();
    let files: Vec<TableFile> = (1..=4u128)
        .map(|n| TableFile { name: format!("sstable_{}.dat", n), modified: n })
        .collect();
    catalog.restore_table("b", Table::new("b".to_string()), &files);
    catalog.create_table("c", Table::new("c".to_string())).unwrap();
    for i in 0..3 {
        catalog.engine_mut(i).unwrap().insert(Record::new(1, vec![1])).unwrap();
    }
    let (effects, refused) = catalog.flush_all();
    assert_eq!(effects.len(), 1);
    assert_eq!(refused, Some(EngineError::NotLoaded(3)));
    assert_eq!(catalog.engine(2).unwrap().stats().unwrap().memtable_size, 1);
}

#[test]
fn error_lines() {
    assert_eq!(QueryError::SyntaxError("x".to_string()).message(), "Syntax error: x");
    assert_eq!(QueryError::ColumnNotFound("x".to_string()).message(), "Column not found: x");
    assert_eq!(QueryError::TypeMismatch("x".to_string()).message(), "Type mismatch: x");
    assert_eq!(QueryError::DuplicateKey("x".to_string()).message(), "Duplicate key: x");
    assert_eq!(QueryError::InvalidValue("x".to_string()).message(), "Invalid value: x");
    assert_eq!(QueryError::InternalError("x".to_string()).message(), "Internal error: x");
}
