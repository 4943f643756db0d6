use bunjee::metadata::column::{Column, ColumnType, Instant};
use bunjee::metadata::table::Table;
use bunjee::query::error::QueryError;
use bunjee::query::parser::aggregation::{AggregateFunction, AggregationParser};
use bunjee::query::parser::column::ColumnParser;
use bunjee::query::parser::create::CreateParser;
use bunjee::query::parser::delete::DeleteParser;
use bunjee::query::parser::insert::{InsertParser, BLOCK_CAPACITY};
use bunjee::query::parser::join::JoinParser;
use bunjee::query::parser::select::{SelectKind, SelectParser};
use bunjee::query::parser::update::UpdateParser;
use bunjee::query::statement::{select_at, statement_for, Statement};
use bunjee::storage::block::Block;
use bunjee::storage::record::Record;

fn words(text: &str) -> Vec<&str> {
    text.split_whitespace().collect()
}

fn names(values: &[&str]) -> Vec<String> {
    values.iter().map(|v| v.to_string()).collect()
}

fn made(name: &str, data_type: ColumnType) -> Column {
    Column::created(name.to_string(), data_type, Instant { seconds: 0, nanos: 0 })
}

fn people() -> Table {
    let mut table = Table::new("people".to_string());
    table.add_column(made("id", ColumnType::Integer));
    table.add_column(made("name", ColumnType::Varchar(5)));
    table.add_column(made("active", ColumnType::Boolean));
    table
}

fn told(r: Result<impl std::fmt::Debug, QueryError>) -> String {
    match r {
        Err(QueryError::SyntaxError(m)) => m,
        other => panic!("expected a syntax error, got {:?}", other),
    }
}

#[test]
fn join_clause_from_places() {
    let parser = JoinParser::new();
    let t = words("SELECT * FROM users INNER JOIN orders ON users.id = orders.user_id");
    let n = t.len();
    let clause = parser.join_clause_at(&t, 4, 5, 7).unwrap();
    assert_eq!(clause.left_table, "users");
    assert_eq!(clause.right_table, "orders");
    assert_eq!(clause.left_column, "id");
    assert_eq!(clause.right_column, "user_id");
    assert_eq!(told(parser.join_clause_at(&t, n, 5, 7)), "Expected INNER keyword");
    assert_eq!(told(parser.join_clause_at(&t, 4, n, 7)), "Expected JOIN keyword");
    assert_eq!(told(parser.join_clause_at(&t, 4, 5, n + 3)), "Expected ON keyword");
    assert_eq!(told(parser.join_clause_at(&t, 4, 6, 7)), "Invalid JOIN syntax order");
    assert_eq!(told(parser.join_clause_at(&t, 0, 1, 3)), "Invalid JOIN syntax order");
    assert_eq!(told(parser.join_clause_at(&t, 6, 7, 9)), "Invalid ON clause");
    assert_eq!(told(parser.join_clause_at(&t, 3, 4, 6)), "Only equality joins are supported");
    assert_eq!(told(parser.join_clause_at(&words("a b c"), 0, 1, 2)), "Invalid JOIN syntax");
    // the places decide, not the words that stand there
    let plain = words("x left y z right w p.a = q.b");
    let clause = parser.join_clause_at(&plain, 2, 3, 5).unwrap();
    assert_eq!(clause.left_table, "left");
    assert_eq!(clause.right_table, "right");
    assert_eq!(clause.left_column, "a");
    assert_eq!(clause.right_column, "b");
}

#[test]
fn statement_from_word_and_places() {
    let t = words("select * from users");
    assert!(matches!(statement_for(&t, "SELECT", 2, 4, false).unwrap(), Statement::Select { table } if table == "users"));
    assert_eq!(told(statement_for(&t, "select", 2, 4, false)), "Unknown command: select");
    let j = words("SELECT * FROM a INNER JOIN b ON a.x = b.y");
    assert!(matches!(
        statement_for(&j, "SELECT", 2, 5, false).unwrap(),
        Statement::Join { left, right } if left == "a" && right == "b"
    ));
    assert!(matches!(select_at(&j, 2, j.len()).unwrap(), Statement::Select { table } if table == "a"));
    assert_eq!(told(select_at(&j, j.len(), 5)), "Expected FROM clause");
    assert_eq!(told(select_at(&j, 2, j.len() - 1)), "Invalid JOIN syntax");
    assert_eq!(told(select_at(&words("SELECT a b"), 1, 9)), "Invalid SELECT syntax");
    let listed = words("SELECT id, name FROM users");
    assert!(matches!(select_at(&listed, 3, 9).unwrap(), Statement::Select { table } if table == "users"));
    assert_eq!(told(select_at(&listed, 4, 9)), "Invalid SELECT syntax");
    assert_eq!(told(select_at(&listed, 5, 9)), "Expected FROM clause");
    let d = words("drop table t");
    assert!(matches!(statement_for(&d, "DROP", 3, 3, true).unwrap(), Statement::Drop { table } if table == "t"));
    assert_eq!(told(statement_for(&d, "DROP", 3, 3, false)), "Expected TABLE keyword");
    assert!(matches!(statement_for(&d, "DELETE", 3, 3, false).unwrap(), Statement::Delete { table } if table == "t"));
    assert!(matches!(statement_for(&d, "CREATE", 3, 3, false).unwrap(), Statement::Create));
    assert_eq!(told(statement_for(&d, "INSERT", 3, 3, false)), "Invalid INSERT syntax");
    assert_eq!(told(statement_for(&d, "UPDATE", 3, 3, false)), "Invalid UPDATE syntax");
    assert_eq!(told(statement_for(&[], "SELECT", 0, 0, false)), "Empty query");
}

#[test]
fn function_from_upper_name() {
    let parser = AggregationParser::new();
    assert!(matches!(parser.function_named("sum(amount)", "SUM").unwrap(), AggregateFunction::Sum(c) if c == "amount"));
    assert!(matches!(parser.function_named("whatever(x)y", "COUNT").unwrap(), AggregateFunction::Count(c) if c == "x"));
    assert!(matches!(parser.function_named("a(b)", "AVG").unwrap(), AggregateFunction::Avg(c) if c == "b"));
    assert!(matches!(parser.function_named("a(b)", "MIN").unwrap(), AggregateFunction::Min(c) if c == "b"));
    assert!(matches!(parser.function_named("a()", "MAX").unwrap(), AggregateFunction::Max(c) if c.is_empty()));
    assert_eq!(told(parser.function_named("sum(amount)", "sum")), "Unsupported function: sum");
    assert_eq!(told(parser.function_named("sum(amount)", "MEDIAN")), "Unsupported function: sum");
    assert_eq!(told(parser.function_named("sum", "SUM")), "Invalid function syntax");
    assert_eq!(told(parser.function_named(")sum(", "SUM")), "Invalid function syntax");
}

#[test]
fn function_list_from_upper_names() {
    let parser = AggregationParser::new();
    let t = words("name, sum(amount), COUNT(*), Avg(x)");
    let found = parser.functions_named(&t, &names(&["NAME,", "SUM", "COUNT", "AVG"])).unwrap();
    assert_eq!(found.len(), 3);
    assert!(matches!(&found[0], AggregateFunction::Sum(c) if c == "amount"));
    assert!(matches!(&found[1], AggregateFunction::Count(c) if c == "*"));
    assert!(matches!(&found[2], AggregateFunction::Avg(c) if c == "x"));
    // the names decide, not what the tokens spell
    let found = parser.functions_named(&t, &names(&["MAX", "MIN", "MIN", "MAX"])).unwrap();
    assert_eq!(found.len(), 3);
    assert!(matches!(&found[0], AggregateFunction::Min(c) if c == "amount"));
    assert!(matches!(&found[2], AggregateFunction::Max(c) if c == "x"));
    // the first call without a function is the one that is told
    assert_eq!(
        told(parser.functions_named(&t, &names(&["", "SUM", "count", "avg"]))),
        "Unsupported function: COUNT"
    );
    // a call without a name spells no function
    assert_eq!(told(parser.functions_named(&t, &names(&["", "SUM"]))), "Unsupported function: COUNT");
    assert_eq!(told(parser.functions_named(&t, &Vec::new())), "Unsupported function: sum");
    assert!(parser.functions_named(&words("a b (c d)"), &Vec::new()).unwrap().is_empty());
    assert!(parser.functions_named(&[], &names(&["SUM"])).unwrap().is_empty());
    assert_eq!(told(parser.functions_named(&words("a )x("), &names(&["A", "SUM"]))), "Invalid function syntax");
}

#[test]
fn group_by_from_places() {
    let parser = AggregationParser::new();
    let t = words("SELECT x FROM t GROUP BY a, b ORDER BY a");
    assert_eq!(parser.group_by_at(&t, 4, true, 8).unwrap(), names(&["a", "b"]));
    assert_eq!(parser.group_by_at(&t, 4, true, 7).unwrap(), names(&["a"]));
    assert_eq!(parser.group_by_at(&t, 4, true, 100).unwrap(), names(&["a", "b", "ORDER", "BY", "a"]));
    assert_eq!(told(parser.group_by_at(&t, 4, true, 6)), "GROUP BY must specify at least one column");
    assert_eq!(told(parser.group_by_at(&t, 4, true, 0)), "GROUP BY must specify at least one column");
    assert_eq!(told(parser.group_by_at(&t, 4, false, 8)), "Expected BY after GROUP");
    assert_eq!(told(parser.group_by_at(&t, t.len() - 1, true, 8)), "Expected BY after GROUP");
    assert_eq!(told(parser.group_by_at(&t, t.len(), true, 8)), "Expected GROUP keyword");
}

#[test]
fn column_type_from_upper_name() {
    let parser = CreateParser::new();
    assert_eq!(parser.column_type_named(&names(&["int"]), "INT").unwrap(), ColumnType::Integer);
    assert_eq!(parser.column_type_named(&names(&["x"]), "INTEGER").unwrap(), ColumnType::Integer);
    assert_eq!(parser.column_type_named(&names(&["x"]), "FLOAT").unwrap(), ColumnType::Float);
    assert_eq!(parser.column_type_named(&names(&["x"]), "BOOLEAN").unwrap(), ColumnType::Boolean);
    assert_eq!(parser.column_type_named(&names(&["x"]), "TIMESTAMP").unwrap(), ColumnType::Timestamp);
    assert_eq!(parser.column_type_named(&names(&["x"]), "VARCHAR(50)").unwrap(), ColumnType::Varchar(50));
    assert_eq!(parser.column_type_named(&names(&["x", "(12)"]), "VARCHAR").unwrap(), ColumnType::Varchar(12));
    assert_eq!(told(parser.column_type_named(&names(&["int"]), "int")), "Unsupported column type: int");
    assert_eq!(told(parser.column_type_named(&names(&["x"]), "VARCHAR")), "VARCHAR requires length specification");
    assert_eq!(told(parser.column_type_named(&names(&["x"]), "VARCHAR(5")), "Missing closing parenthesis for VARCHAR");
    assert_eq!(told(parser.column_type_named(&names(&["x"]), "VARCHAR(a)")), "Invalid length for VARCHAR: a");
    assert_eq!(told(parser.column_type_named(&names(&["x", "y"]), "VARCHAR")), "Invalid length for VARCHAR: y");
    assert_eq!(told(parser.column_type_named(&Vec::new(), "INT")), "Unsupported column type: ");
}

#[test]
fn create_from_table_flag() {
    let parser = CreateParser::new();
    let t = words("CREATE TABLE users (id INTEGER, name VARCHAR(50))");
    let (name, table) = parser.create_with(&t, true).unwrap();
    assert_eq!(name, "users");
    assert_eq!(table.name, "users");
    assert_eq!(table.columns.len(), 2);
    assert_eq!(table.columns[0].name, "id");
    assert_eq!(table.columns[0].data_type, ColumnType::Integer);
    assert_eq!(table.columns[1].name, "name");
    assert_eq!(table.columns[1].data_type, ColumnType::Varchar(50));
    assert_eq!(told(parser.create_with(&t, false)), "Expected TABLE keyword");
    assert_eq!(told(parser.create_with(&words("CREATE TABLE"), true)), "Invalid CREATE TABLE syntax");
    let (name, table) = parser.create_with(&words("CREATE anything t"), true).unwrap();
    assert_eq!(name, "t");
    assert!(table.columns.is_empty());
    assert_eq!(
        told(parser.create_with(&words("CREATE TABLE t id INTEGER"), true)),
        "Expected column definitions in parentheses"
    );
}

#[test]
fn create_table_keeps_the_parentheses_of_types() {
    let parser = CreateParser::new();
    let (_, table) = parser
        .parse_and_execute(&words("CREATE TABLE t (a VARCHAR(3), b VARCHAR(4), c BOOLEAN)"))
        .unwrap();
    let types: Vec<ColumnType> = table.columns.iter().map(|c| c.data_type).collect();
    assert_eq!(types, vec![ColumnType::Varchar(3), ColumnType::Varchar(4), ColumnType::Boolean]);
    let (_, table) = parser.parse_and_execute(&words("CREATE TABLE t (a VARCHAR(7))")).unwrap();
    assert_eq!(table.columns[0].data_type, ColumnType::Varchar(7));
    let (_, table) = parser.parse_and_execute(&words("create table t (a varchar 9)")).unwrap();
    assert_eq!(table.columns[0].data_type, ColumnType::Varchar(9));
}

#[test]
fn column_list_before_a_place() {
    let parser = ColumnParser::new();
    let t = words("id, name FROM users");
    assert_eq!(parser.columns_before(&t, 2).unwrap(), names(&["id", "name"]));
    assert_eq!(parser.columns_before(&t, 1).unwrap(), names(&["id"]));
    assert_eq!(parser.columns_before(&t, 9).unwrap(), names(&["id", "name", "FROM", "users"]));
    assert_eq!(told(parser.columns_before(&t, 0)), "No columns specified");
    assert_eq!(parser.columns_before(&t, 2).unwrap(), parser.parse_column_list(&t).unwrap());
}

#[test]
fn insert_from_places() {
    let parser = InsertParser::new();
    let table = people();
    let t = words("INSERT INTO people VALUES (1, 'Al', true)");
    let (columns, rows) = parser.insert_at(&t, &table, true, 3).unwrap();
    assert_eq!(columns, names(&["id", "name", "active"]));
    assert_eq!(rows, vec![names(&["1", "'Al'", "true"])]);
    assert_eq!(told(parser.insert_at(&t, &table, false, 3)), "Expected INTO clause");
    assert_eq!(told(parser.insert_at(&t, &table, true, t.len())), "Expected VALUES clause");
    assert_eq!(told(parser.insert_at(&words("INSERT INTO people"), &table, true, 3)), "Invalid INSERT syntax");
    let listed = words("insert into (name, id) values ('Bo', 2)");
    let (columns, rows) = parser.insert_at(&listed, &table, true, 4).unwrap();
    assert_eq!(columns, names(&["name", "id"]));
    assert_eq!(rows, vec![names(&["'Bo'", "2"])]);
}

#[test]
fn delete_filter_from_flags() {
    let parser = DeleteParser::new();
    let t = words("DELETE FROM users WHERE age < 30");
    let filter = parser.filter_where(&t, true, true).unwrap().unwrap();
    assert_eq!((filter.column.as_str(), filter.operator.as_str(), filter.value.as_str()), ("age", "<", "30"));
    assert!(parser.filter_where(&t, true, false).unwrap().is_none());
    assert_eq!(told(parser.filter_where(&t, false, true)), "Expected FROM clause");
    assert_eq!(told(parser.filter_where(&words("DELETE FROM users WHERE age"), true, true)), "Invalid WHERE clause");
}

#[test]
fn update_from_places() {
    let parser = UpdateParser::new();
    let table = people();
    let t = words("UPDATE people SET name = 'Al' WHERE id = 1");
    let plan = parser.update_at(&t, &table, 2, true).unwrap();
    assert_eq!(plan.column, "name");
    assert_eq!(plan.value, "'Al'");
    let filter = plan.filter.unwrap();
    assert_eq!((filter.column.as_str(), filter.operator.as_str(), filter.value.as_str()), ("id", "=", "1"));
    assert!(parser.update_at(&t, &table, 2, false).unwrap().filter.is_none());
    assert_eq!(told(parser.update_at(&t, &table, t.len(), true)), "Expected SET clause");
    assert_eq!(told(parser.update_at(&t, &table, 7, true)), "Invalid SET clause");
    assert_eq!(told(parser.update_at(&t, &table, 1, true)), "Expected = after column name");
    let plan = parser.update_at(&t, &table, 6, false).unwrap();
    assert_eq!((plan.column.as_str(), plan.value.as_str()), ("id", "1"));
    assert!(matches!(
        parser.update_at(&words("UPDATE people SET city = 1"), &table, 2, false),
        Err(QueryError::ColumnNotFound(c)) if c == "city"
    ));
    assert_eq!(
        told(parser.update_at(&words("UPDATE people SET id = 1 WHERE id"), &table, 2, true)),
        "Invalid WHERE clause"
    );
}

#[test]
fn select_parts_from_places() {
    let parser = SelectParser::new();
    let table = people();
    let t = words("SELECT * FROM people where id = 2");
    let filter = parser.filter_at(&t, 4).unwrap().unwrap();
    assert_eq!((filter.column.as_str(), filter.operator.as_str(), filter.value.as_str()), ("id", "=", "2"));
    assert!(parser.filter_at(&t, t.len()).unwrap().is_none());
    assert!(parser.filter_at(&t, t.len() + 5).unwrap().is_none());
    assert_eq!(told(parser.filter_at(&t, 5)), "Invalid WHERE clause");
    let filter = parser.filter_at(&t, 0).unwrap().unwrap();
    assert_eq!((filter.column.as_str(), filter.operator.as_str(), filter.value.as_str()), ("*", "FROM", "people"));
    assert_eq!(parser.shown_places(true, &Vec::new(), &table), vec![0, 1, 2]);
    assert_eq!(parser.shown_places(false, &names(&["active", "id"]), &table), vec![0, 2]);
    assert_eq!(parser.shown_places(false, &names(&["city"]), &table), Vec::<usize>::new());
    assert_eq!(parser.shown_places(false, &Vec::new(), &table), Vec::<usize>::new());
    assert_eq!(parser.kind_where(0, false), SelectKind::Rows);
    assert_eq!(parser.kind_where(1, false), SelectKind::Aggregates);
    assert_eq!(parser.kind_where(0, true), SelectKind::Aggregates);
}

fn payloads(block: &Block) -> Vec<(u64, Vec<u8>)> {
    block.get_all().iter().map(|r| (r.id, r.data.clone())).collect()
}

#[test]
fn records_go_to_the_last_block_with_room() {
    let parser = InsertParser::new();
    assert_eq!(BLOCK_CAPACITY, 1000);
    let mut blocks: Vec<Block> = Vec::new();
    assert!(parser.store_record(&mut blocks, Record::new(1, vec![1])));
    assert_eq!(blocks.len(), 1);
    assert!(parser.store_record(&mut blocks, Record::new(2, vec![2])));
    assert_eq!(blocks.len(), 1);
    assert_eq!(payloads(&blocks[0]), vec![(1, vec![1]), (2, vec![2])]);
    // a key that the last block holds is not taken
    assert!(!parser.store_record(&mut blocks, Record::new(2, vec![9])));
    assert_eq!(blocks.len(), 1);
    assert_eq!(payloads(&blocks[0]), vec![(1, vec![1]), (2, vec![2])]);
    for id in 3..=1000u64 {
        assert!(parser.store_record(&mut blocks, Record::new(id, Vec::new())));
    }
    assert_eq!(blocks.len(), 1);
    assert_eq!(blocks[0].count(), 1000);
    // the full block is left alone, also for a key that it holds
    assert!(parser.store_record(&mut blocks, Record::new(2, vec![7])));
    assert_eq!(blocks.len(), 2);
    assert_eq!(blocks[0].count(), 1000);
    assert_eq!(payloads(&blocks[1]), vec![(2, vec![7])]);
    assert!(parser.store_record(&mut blocks, Record::new(1001, vec![3])));
    assert_eq!(blocks.len(), 2);
    assert_eq!(payloads(&blocks[1]), vec![(2, vec![7]), (1001, vec![3])]);
}

fn no_bits(tokens: &[&str]) -> Vec<Option<u64>> {
    tokens.iter().map(|_| None).collect()
}

#[test]
fn assignment_lists() {
    let parser = UpdateParser::new();
    let table = people();
    let t = words("UPDATE people SET name = 'Al' , id = 7 active = TRUE WHERE id = 1");
    let pairs = parser.parse_assignments(&t, &table, &no_bits(&t)).unwrap();
    assert_eq!(
        pairs,
        vec![
            ("name".to_string(), vec![0, 0, 0, 2, b'A', b'l']),
            ("id".to_string(), 7i64.to_be_bytes().to_vec()),
            ("active".to_string(), vec![1]),
        ]
    );
    let t = words("update people set id = -1");
    assert_eq!(
        parser.parse_assignments(&t, &table, &no_bits(&t)).unwrap(),
        vec![("id".to_string(), (-1i64).to_be_bytes().to_vec())]
    );
    // a value may be the word that ends a list elsewhere
    let t = words("UPDATE people SET name = where");
    assert_eq!(
        parser.parse_assignments(&t, &table, &no_bits(&t)).unwrap(),
        vec![("name".to_string(), vec![0, 0, 0, 5, b'w', b'h', b'e', b'r', b'e'])]
    );
    let t = words("UPDATE people SET WHERE id = 1");
    assert!(parser.parse_assignments(&t, &table, &no_bits(&t)).unwrap().is_empty());
    let t = words("UPDATE people SET");
    assert!(parser.parse_assignments(&t, &table, &no_bits(&t)).unwrap().is_empty());
    let refused = |text: &str| {
        let t = words(text);
        parser.parse_assignments(&t, &table, &no_bits(&t))
    };
    assert_eq!(told(refused("UPDATE people id = 1")), "Expected SET clause");
    assert_eq!(told(refused("UPDATE people SET id 1 2")), "Expected = after column name");
    assert_eq!(told(refused("UPDATE people SET id")), "Expected = after column name");
    assert_eq!(told(refused("UPDATE people SET id =")), "Invalid SET clause");
    assert_eq!(told(refused("UPDATE people SET id = 1 WHERE id =")), "Invalid WHERE clause");
    assert!(matches!(refused("UPDATE people SET city = 1"), Err(QueryError::ColumnNotFound(c)) if c == "city"));
    assert!(matches!(
        refused("UPDATE people SET id = x"),
        Err(QueryError::TypeMismatch(m)) if m == "Invalid integer value: x"
    ));
    assert!(matches!(
        refused("UPDATE people SET active = maybe"),
        Err(QueryError::TypeMismatch(m)) if m == "Invalid boolean value: maybe"
    ));
    assert!(matches!(
        refused("UPDATE people SET name = 'Alexander'"),
        Err(QueryError::TypeMismatch(m)) if m == "Value 'Alexander' exceeds column length of 5"
    ));
    // the first assignment that cannot be read is the one that is told
    assert!(matches!(
        refused("UPDATE people SET id = x , city"),
        Err(QueryError::TypeMismatch(m)) if m == "Invalid integer value: x"
    ));
    assert_eq!(told(refused("UPDATE people SET id = 1 , city")), "Expected = after column name");
}

#[test]
fn assignments_from_places_and_flags() {
    let parser = UpdateParser::new();
    let mut table = people();
    table.add_column(made("score", ColumnType::Float));
    let t = words("a b score = 1.5 , id = 3 stop id = 1");
    let mut stops = vec![false; t.len()];
    stops[9] = true;
    let mut bits: Vec<Option<u64>> = vec![None; t.len()];
    bits[4] = Some(1.5f64.to_bits());
    let pairs = parser.assignments_at(&t, &table, 1, &stops, &bits).unwrap();
    assert_eq!(
        pairs,
        vec![
            ("score".to_string(), 1.5f64.to_be_bytes().to_vec()),
            ("id".to_string(), 3i64.to_be_bytes().to_vec()),
        ]
    );
    assert!(matches!(
        parser.assignments_at(&t, &table, 1, &stops, &vec![None; t.len()]),
        Err(QueryError::TypeMismatch(m)) if m == "Invalid float value: 1.5"
    ));
    // without the flag the list goes on into the condition
    assert_eq!(
        told(parser.assignments_at(&t, &table, 1, &vec![false; t.len()], &bits)),
        "Expected = after column name"
    );
    // a flag is looked at only where an assignment would begin
    let mut early = stops.clone();
    early[4] = true;
    assert_eq!(parser.assignments_at(&t, &table, 1, &early, &bits).unwrap().len(), 2);
    assert_eq!(told(parser.assignments_at(&t, &table, t.len(), &stops, &bits)), "Expected SET clause");
    assert!(parser.assignments_at(&t, &table, t.len() - 1, &stops, &bits).unwrap().is_empty());
}
