use bunjee::metadata::column::{read_boolean, unquoted, Column, ColumnConstraint, ColumnType, Instant};
use bunjee::metadata::schema::Schema;
use bunjee::metadata::table::Table;

fn schema_column(name: &str, data_type: ColumnType) -> Column {
    Column::created(name.to_string(), data_type, Instant { seconds: 5, nanos: 6 })
}

#[test]
fn new_column_is_bare() {
    let c = Column::new("id".to_string(), ColumnType::Integer);
    assert_eq!(c.name, "id");
    assert_eq!(c.data_type, ColumnType::Integer);
    assert!(c.constraints.is_empty());
    assert!(c.default_value.is_none());
    assert_eq!(c.created_at, c.updated_at);
    assert!(c.created_at.seconds > 1_500_000_000);
    assert!(c.created_at.nanos < 2_000_000_000);
    assert!(c.is_nullable());
    assert!(!c.is_unique());
    assert!(!c.is_primary_key());
}

#[test]
fn column_made_at_a_given_time() {
    let c = schema_column("id", ColumnType::Boolean);
    assert_eq!(c.created_at, Instant { seconds: 5, nanos: 6 });
    assert_eq!(c.updated_at, Instant { seconds: 5, nanos: 6 });
}

#[test]
fn constraints_decide_the_flags() {
    let c = schema_column("id", ColumnType::Integer).with_constraint(ColumnConstraint::NotNull);
    assert!(!c.is_nullable());
    assert!(!c.is_unique());
    let c = c.with_constraint(ColumnConstraint::Unique);
    assert!(c.is_unique());
    assert!(!c.is_primary_key());
    let c = schema_column("id", ColumnType::Integer)
        .with_constraint(ColumnConstraint::Check("id > 0".to_string()))
        .with_constraint(ColumnConstraint::PrimaryKey);
    assert!(c.is_unique());
    assert!(c.is_primary_key());
    assert!(c.is_nullable());
    assert_eq!(c.constraints.len(), 2);
    let c = c.with_default("7".to_string());
    assert_eq!(c.default_value, Some("7".to_string()));
    let d = c.clone();
    assert_eq!(d.name, "id");
    assert_eq!(d.constraints.len(), 2);
    assert_eq!(d.default_value, Some("7".to_string()));
}

#[test]
fn validate_value_by_type() {
    let int = schema_column("a", ColumnType::Integer);
    assert!(int.validate_value("12", None));
    assert!(int.validate_value("-12", None));
    assert!(!int.validate_value("12.5", None));
    assert!(!int.validate_value("'12'", None));
    let ts = schema_column("a", ColumnType::Timestamp);
    assert!(ts.validate_value("0", None));
    assert!(!ts.validate_value("", None));
    let float = schema_column("a", ColumnType::Float);
    assert!(float.validate_value("1.5", Some(1.5f64.to_bits())));
    assert!(!float.validate_value("abc", None));
    let text = schema_column("a", ColumnType::Varchar(5));
    assert!(text.validate_value("'Alice'", None));
    assert!(text.validate_value("Alice", None));
    assert!(!text.validate_value("'Alicia'", None));
    assert!(text.validate_value("''''''''", None));
    let flag = schema_column("a", ColumnType::Boolean);
    assert!(flag.validate_value("true", None));
    assert!(flag.validate_value("\"FALSE\"", None));
    assert!(!flag.validate_value("1", None));
    assert!(!flag.validate_value("truee", None));
}

#[test]
fn quotes_are_stripped_from_both_ends() {
    assert_eq!(unquoted(b"'ab'"), (1, 3));
    assert_eq!(unquoted(b"ab"), (0, 2));
    assert_eq!(unquoted(b"\"\"a'b''"), (2, 5));
    assert_eq!(unquoted(b"'''"), (3, 3));
    assert_eq!(unquoted(b""), (0, 0));
}

#[test]
fn booleans_in_any_case() {
    assert_eq!(read_boolean(b"true"), Some(true));
    assert_eq!(read_boolean(b"TrUe"), Some(true));
    assert_eq!(read_boolean(b"FALSE"), Some(false));
    assert_eq!(read_boolean(b"fals"), None);
    assert_eq!(read_boolean(b"t\x52ue"), Some(true));
    assert_eq!(read_boolean(b"\x14rue"), None);
}

#[test]
fn table_columns_and_widths() {
    let mut table = Table::new("users".to_string());
    assert_eq!(table.name, "users");
    assert!(table.columns.is_empty());
    table.add_column(schema_column("id", ColumnType::Integer));
    table.add_column(schema_column("name", ColumnType::Varchar(50)));
    table.add_column(schema_column("active", ColumnType::Boolean));
    table.add_column(schema_column("score", ColumnType::Float));
    table.add_column(schema_column("seen", ColumnType::Timestamp));
    assert_eq!(table.get_column_index("name"), Some(1));
    assert_eq!(table.get_column_index("missing"), None);
    assert_eq!(table.get_column_length(0), 8);
    assert_eq!(table.get_column_length(1), 54);
    assert_eq!(table.get_column_length(2), 1);
    assert_eq!(table.get_column_length(3), 8);
    assert_eq!(table.get_column_length(4), 8);
    assert_eq!(table.get_column_length(5), 0);
    assert_eq!(table.get_column_offset(0), 0);
    assert_eq!(table.get_column_offset(1), 8);
    assert_eq!(table.get_column_offset(2), 62);
    assert_eq!(table.get_column_offset(4), 71);
    assert_eq!(table.get_column_offset(9), 79);
}

#[test]
fn widths_stop_at_the_largest_number() {
    let mut table = Table::new("t".to_string());
    table.add_column(schema_column("a", ColumnType::Varchar(usize::MAX)));
    table.add_column(schema_column("b", ColumnType::Integer));
    assert_eq!(table.get_column_length(0), usize::MAX);
    assert_eq!(table.get_column_offset(2), usize::MAX);
}

#[test]
fn primary_key_and_indexes() {
    let mut table = Table::new("t".to_string());
    table.set_primary_key("id".to_string());
    assert_eq!(table.primary_key, Some("id".to_string()));
    table.create_index("name".to_string());
    table.create_index("age".to_string());
    assert_eq!(table.indexes.len(), 2);
    table.indexes[0].1.push(4);
    table.create_index("name".to_string());
    assert_eq!(table.indexes.len(), 2);
    assert_eq!(table.indexes[0].0, "name");
    assert!(table.indexes[0].1.is_empty());
}

#[test]
fn schema_lists_tables() {
    let mut schema = Schema::new("main".to_string());
    assert_eq!(schema.name(), "main");
    assert!(schema.get_table_columns("users").is_none());
    schema.add_table("users".to_string(), vec![schema_column("id", ColumnType::Integer)]);
    schema.add_table("orders".to_string(), vec![]);
    assert_eq!(schema.get_table_columns("users").unwrap().len(), 1);
    assert_eq!(schema.get_table_columns("orders").unwrap().len(), 0);
    schema.add_table(
        "users".to_string(),
        vec![schema_column("id", ColumnType::Integer), schema_column("n", ColumnType::Boolean)],
    );
    assert_eq!(schema.get_table_columns("users").unwrap().len(), 2);
    assert_eq!(schema.get_table_columns("orders").unwrap().len(), 0);
}
