use bunjee::cli::display::display_text;
use bunjee::metadata::column::{Column, ColumnType, Instant};
use bunjee::metadata::table::Table;
use bunjee::query::error::QueryError;
use bunjee::query::parser::aggregation::{AggregateFunction, AggregationParser};
use bunjee::query::parser::column::{find_word, ColumnParser};
use bunjee::query::parser::create::CreateParser;
use bunjee::query::parser::delete::DeleteParser;
use bunjee::query::parser::grouping::{group_rows, row_goes_before, sort_rows};
use bunjee::query::parser::insert::InsertParser;
use bunjee::query::parser::join::{JoinParser, JoinType};
use bunjee::query::parser::select::{SelectKind, SelectParser};
use bunjee::query::parser::update::UpdateParser;
use bunjee::query::parser::where_clause::{Comparison, WhereClause, WhereParser};
use bunjee::query::result::{AggregationResult, JoinResult, QueryResult};
use bunjee::query::statement::{parse_statement, Statement};
use bunjee::query::words::{chars_of, is_word, join_tokens, space, trimmed, trimmed_end};
use bunjee::storage::block::Block;
use bunjee::storage::record::Record;

fn tokens(text: &str) -> Vec<&str> {
    text.split_whitespace().collect()
}

fn texts(values: &[&str]) -> Vec<String> {
    values.iter().map(|v| v.to_string()).collect()
}

fn column(name: &str, data_type: ColumnType) -> Column {
    Column::created(name.to_string(), data_type, Instant { seconds: 0, nanos: 0 })
}

fn users() -> Table {
    let mut table = Table::new("users".to_string());
    table.add_column(column("id", ColumnType::Integer));
    table.add_column(column("name", ColumnType::Varchar(50)));
    table.add_column(column("age", ColumnType::Integer));
    table
}

fn syntax(r: Result<impl std::fmt::Debug, QueryError>) -> String {
    match r {
        Err(QueryError::SyntaxError(m)) => m,
        other => panic!("expected a syntax error, got {:?}", other),
    }
}

#[test]
fn words_and_trimming() {
    assert!(is_word("from", "FROM"));
    assert!(is_word("FrOm", "FROM"));
    assert!(!is_word("fromm", "FROM"));
    assert_eq!(chars_of("a\u{e9}b"), vec!['a', '\u{e9}', 'b']);
    assert_eq!(trimmed(",,a,b,", &vec![',']), "a,b");
    assert_eq!(trimmed(",,,", &vec![',']), "");
    assert_eq!(trimmed("(x),", &vec!['(', ')', ',']), "x");
    assert_eq!(trimmed_end("x,,", &vec![',']), "x");
    assert_eq!(trimmed_end(",x", &vec![',']), ",x");
    assert_eq!(join_tokens(&["a", "b", "c"], 1), "b c");
    assert_eq!(join_tokens(&["a"], 1), "");
    assert_eq!(find_word(&["select", "x", "From", "t"], "FROM", 0), 2);
    assert_eq!(find_word(&["select", "x"], "FROM", 0), 2);
    for c in ['\t', '\n', ' ', '\u{a0}', '\u{2003}', '\u{3000}', 'a', '_', '\u{200b}', '\u{feff}'] {
        assert_eq!(space(c), c.is_whitespace(), "char {:?}", c);
    }
}

#[test]
fn column_lists() {
    let parser = ColumnParser::new();
    assert_eq!(
        parser.parse_column_list(&tokens("id, name, ,age, FROM users")).unwrap(),
        texts(&["id", "name", "age"])
    );
    assert_eq!(parser.parse_column_list(&tokens("id from users")).unwrap(), texts(&["id"]));
    assert_eq!(parser.parse_column_list(&tokens("a b")).unwrap(), texts(&["a", "b"]));
    assert_eq!(syntax(parser.parse_column_list(&tokens("id , FROM users"))), "Empty column name");
    assert_eq!(syntax(parser.parse_column_list(&tokens("id ,, FROM , users"))), "Empty column name");
    assert_eq!(syntax(parser.parse_column_list(&tokens("FROM users"))), "No columns specified");
    assert_eq!(syntax(parser.parse_column_list(&[])), "No columns specified");
}

#[test]
fn where_clauses() {
    let parser = WhereParser::new();
    let clause = parser.parse_where_clause(&tokens("age >= 30 AND more")).unwrap();
    assert_eq!(clause.column, "age");
    assert_eq!(clause.operator, ">=");
    assert_eq!(clause.value, "30");
    assert_eq!(syntax(parser.parse_where_clause(&tokens("age >="))), "Invalid WHERE clause");
}

fn clause(column: &str, operator: &str, value: &str) -> WhereClause {
    WhereClause {
        column: column.to_string(),
        operator: operator.to_string(),
        value: value.to_string(),
    }
}

#[test]
fn conditions_on_rows() {
    let parser = WhereParser::new();
    let table = users();
    let row = texts(&["2", "Bob", "30"]);
    assert!(parser.evaluate_where_clause(&row, &table, &clause("id", "=", "2"), None).unwrap());
    assert!(parser.evaluate_where_clause(&row, &table, &clause("name", "=", "'Bob'"), None).unwrap());
    assert!(!parser.evaluate_where_clause(&row, &table, &clause("name", "=", "bob"), None).unwrap());
    assert!(parser.evaluate_where_clause(&row, &table, &clause("name", "!=", "\"Al\""), None).unwrap());
    // numbers are compared as the caller says
    let c = clause("age", ">", "4");
    assert_eq!(parser.where_operands(&row, &table, &c).unwrap(), ("30".to_string(), "4".to_string()));
    assert!(parser.evaluate_where_clause(&row, &table, &c, Some(Comparison::Greater)).unwrap());
    assert!(!parser.evaluate_where_clause(&row, &table, &c, Some(Comparison::Unordered)).unwrap());
    // texts are compared byte by byte: "30" comes before "4"
    assert!(!parser.evaluate_where_clause(&row, &table, &c, None).unwrap());
    assert!(parser.evaluate_where_clause(&row, &table, &clause("age", "<", "4"), None).unwrap());
    assert!(parser.evaluate_where_clause(&row, &table, &clause("age", "<=", "30"), None).unwrap());
    assert!(parser.evaluate_where_clause(&row, &table, &clause("age", ">=", "30"), None).unwrap());
    assert!(!parser.evaluate_where_clause(&row, &table, &clause("age", ">", "30"), None).unwrap());
    assert!(parser.evaluate_where_clause(&row, &table, &clause("name", ">", "Bo"), None).unwrap());
    assert!(parser.evaluate_where_clause(&row, &table, &clause("name", "<", "Bob "), None).unwrap());
    for (op, c, holds) in [
        ("<", Comparison::Less, true),
        ("<", Comparison::Equal, false),
        ("<=", Comparison::Equal, true),
        ("<=", Comparison::Greater, false),
        (">=", Comparison::Equal, true),
        (">=", Comparison::Less, false),
        (">=", Comparison::Unordered, false),
        (">", Comparison::Equal, false),
    ] {
        assert_eq!(
            parser.evaluate_where_clause(&row, &table, &clause("age", op, "1"), Some(c)).unwrap(),
            holds
        );
    }
    assert!(matches!(
        parser.evaluate_where_clause(&row, &table, &clause("city", "=", "x"), None),
        Err(QueryError::ColumnNotFound(c)) if c == "city"
    ));
    assert_eq!(
        syntax(parser.evaluate_where_clause(&row, &table, &clause("id", "~", "x"), None)),
        "Invalid operator: ~"
    );
    assert!(matches!(
        parser.evaluate_where_clause(&texts(&["2"]), &table, &clause("age", "=", "x"), None),
        Err(QueryError::InternalError(_))
    ));
}

#[test]
fn aggregate_functions() {
    let parser = AggregationParser::new();
    let found = parser.parse_aggregation_functions(&tokens("name, sum(amount), COUNT(*), Avg(x)")).unwrap();
    assert_eq!(found.len(), 3);
    assert!(matches!(&found[0], AggregateFunction::Sum(c) if c == "amount"));
    assert!(matches!(&found[1], AggregateFunction::Count(c) if c == "*"));
    assert!(matches!(&found[2], AggregateFunction::Avg(c) if c == "x"));
    assert!(matches!(parser.parse_single_function("min(a)x").unwrap(), AggregateFunction::Min(c) if c == "a"));
    assert!(matches!(parser.parse_single_function("MAX()").unwrap(), AggregateFunction::Max(c) if c.is_empty()));
    assert_eq!(syntax(parser.parse_single_function("median(a)")), "Unsupported function: median");
    assert_eq!(syntax(parser.parse_single_function("sum")), "Invalid function syntax");
    assert_eq!(syntax(parser.parse_single_function(")sum(")), "Invalid function syntax");
    assert_eq!(
        syntax(parser.parse_aggregation_functions(&tokens("sum(a) nope(b) what(c)"))),
        "Unsupported function: nope"
    );
    assert!(parser.parse_aggregation_functions(&tokens("a b (c d)")).unwrap().is_empty());
    assert_eq!(parser.get_function_header(&AggregateFunction::Count("*".to_string())), "COUNT(*)");
    assert_eq!(parser.get_function_header(&AggregateFunction::Count("id".to_string())), "COUNT(id)");
    assert_eq!(parser.get_function_header(&AggregateFunction::Sum("a".to_string())), "SUM(a)");
    assert_eq!(parser.get_function_header(&AggregateFunction::Avg("a".to_string())), "AVG(a)");
    assert_eq!(parser.get_function_header(&AggregateFunction::Min("a".to_string())), "MIN(a)");
    assert_eq!(parser.get_function_header(&AggregateFunction::Max("a".to_string())), "MAX(a)");
    let f = AggregateFunction::Min("a".to_string());
    assert!(matches!(f.clone(), AggregateFunction::Min(c) if c == "a"));
}

#[test]
fn group_by_lists() {
    let parser = AggregationParser::new();
    assert_eq!(
        parser.parse_group_by(&tokens("SELECT x FROM t GROUP BY a, b ORDER BY a")).unwrap(),
        texts(&["a", "b"])
    );
    assert_eq!(parser.parse_group_by(&tokens("group by a having, z")).unwrap(), texts(&["a"]));
    assert_eq!(syntax(parser.parse_group_by(&tokens("SELECT x FROM t"))), "Expected GROUP keyword");
    assert_eq!(syntax(parser.parse_group_by(&tokens("x GROUP"))), "Expected BY after GROUP");
    assert_eq!(syntax(parser.parse_group_by(&tokens("x GROUP a"))), "Expected BY after GROUP");
    assert_eq!(
        syntax(parser.parse_group_by(&tokens("x GROUP BY ORDER"))),
        "GROUP BY must specify at least one column"
    );
    assert_eq!(
        syntax(parser.parse_group_by(&tokens("x GROUP BY"))),
        "GROUP BY must specify at least one column"
    );
}

#[test]
fn aggregate_values() {
    let parser = AggregationParser::new();
    let table = users();
    assert_eq!(parser.aggregate_column(&AggregateFunction::Count("*".to_string()), &table).unwrap(), None);
    assert_eq!(parser.aggregate_column(&AggregateFunction::Count("age".to_string()), &table).unwrap(), Some(2));
    assert_eq!(parser.aggregate_column(&AggregateFunction::Sum("id".to_string()), &table).unwrap(), Some(0));
    assert!(matches!(
        parser.aggregate_column(&AggregateFunction::Sum("*".to_string()), &table),
        Err(QueryError::ColumnNotFound(c)) if c == "*"
    ));
    let rows = vec![
        texts(&["1", "Bob", "30"]),
        texts(&["2", "", "4"]),
        texts(&["3", "null", "25"]),
        texts(&["4", "Alice"]),
    ];
    assert_eq!(parser.column_values(&rows, 1), texts(&["Bob", "Alice"]));
    assert_eq!(parser.column_values(&rows, 2), texts(&["30", "4", "25"]));
    assert_eq!(parser.column_values(&rows, 9), Vec::<String>::new());
    assert_eq!(parser.least_value(&texts(&["30", "4", "25"])), "25");
    assert_eq!(parser.greatest_value(&texts(&["30", "4", "25"])), "4");
    assert_eq!(parser.least_value(&texts(&["b"])), "b");
    assert_eq!(parser.least_value(&vec![]), "");
    assert_eq!(parser.greatest_value(&vec![]), "");
}

#[test]
fn column_types() {
    let parser = CreateParser::new();
    assert_eq!(parser.parse_column_type(&texts(&["int"])).unwrap(), ColumnType::Integer);
    assert_eq!(parser.parse_column_type(&texts(&["INTEGER", "x"])).unwrap(), ColumnType::Integer);
    assert_eq!(parser.parse_column_type(&texts(&["Float"])).unwrap(), ColumnType::Float);
    assert_eq!(parser.parse_column_type(&texts(&["boolean"])).unwrap(), ColumnType::Boolean);
    assert_eq!(parser.parse_column_type(&texts(&["timestamp"])).unwrap(), ColumnType::Timestamp);
    assert_eq!(parser.parse_column_type(&texts(&["varchar(50)"])).unwrap(), ColumnType::Varchar(50));
    assert_eq!(parser.parse_column_type(&texts(&["VARCHAR", "50"])).unwrap(), ColumnType::Varchar(50));
    assert_eq!(parser.parse_column_type(&texts(&["VARCHAR", "(7)"])).unwrap(), ColumnType::Varchar(7));
    assert_eq!(parser.parse_column_type(&texts(&["varchar2(9)x"])).unwrap(), ColumnType::Varchar(9));
    assert_eq!(syntax(parser.parse_column_type(&texts(&["varchar"]))), "VARCHAR requires length specification");
    assert_eq!(syntax(parser.parse_column_type(&texts(&["varchar(5"]))), "Missing closing parenthesis for VARCHAR");
    assert_eq!(syntax(parser.parse_column_type(&texts(&["varchar(x)"]))), "Invalid length for VARCHAR: X");
    assert_eq!(syntax(parser.parse_column_type(&texts(&["varchar()"]))), "Invalid length for VARCHAR: ");
    assert_eq!(syntax(parser.parse_column_type(&texts(&["varchar", "many"]))), "Invalid length for VARCHAR: many");
    assert_eq!(syntax(parser.parse_column_type(&texts(&["text"]))), "Unsupported column type: text");
}

#[test]
fn create_table_statements() {
    let parser = CreateParser::new();
    let (name, table) = parser
        .parse_and_execute(&tokens("CREATE TABLE users (id INTEGER, name VARCHAR(50), age INTEGER)"))
        .unwrap();
    assert_eq!(name, "users");
    assert_eq!(table.name, "users");
    let columns: Vec<(&str, ColumnType)> =
        table.columns.iter().map(|c| (c.name.as_str(), c.data_type)).collect();
    assert_eq!(
        columns,
        vec![("id", ColumnType::Integer), ("name", ColumnType::Varchar(50)), ("age", ColumnType::Integer)]
    );
    let (_, table) = parser
        .parse_and_execute(&tokens("create table users (id INTEGER, name VARCHAR 50, email VARCHAR 100)"))
        .unwrap();
    assert_eq!(table.columns[1].data_type, ColumnType::Varchar(50));
    assert_eq!(table.columns[2].data_type, ColumnType::Varchar(100));
    let (name, table) = parser.parse_and_execute(&tokens("CREATE TABLE empty")).unwrap();
    assert_eq!(name, "empty");
    assert!(table.columns.is_empty());
    let (name, table) =
        parser.parse_and_execute(&tokens("CREATE TABLE users (id INTEGER, name VARCHAR(50))")).unwrap();
    assert_eq!(name, "users");
    assert_eq!(table.name, "users");
    assert_eq!(table.columns.len(), 2);
    assert_eq!((table.columns[0].name.as_str(), table.columns[0].data_type), ("id", ColumnType::Integer));
    assert_eq!(
        (table.columns[1].name.as_str(), table.columns[1].data_type),
        ("name", ColumnType::Varchar(50))
    );
    assert!(table.columns.iter().all(|c| c.constraints.is_empty() && c.default_value.is_none()));
    assert!(table.primary_key.is_none());
    let (_, table) = parser.parse_and_execute(&tokens("CREATE TABLE t ( a int , b varchar(3) )")).unwrap();
    assert_eq!(table.columns[1].data_type, ColumnType::Varchar(3));
    // one parenthesis is taken off at each end, no more
    assert_eq!(
        syntax(parser.parse_and_execute(&tokens("CREATE TABLE t ((a int , b float))"))),
        "Unsupported column type: float)"
    );
    assert_eq!(
        syntax(parser.parse_and_execute(&tokens("CREATE TABLE t ()"))),
        "Invalid column definition: "
    );
    assert_eq!(syntax(parser.parse_and_execute(&tokens("CREATE INDEX t"))), "Expected TABLE keyword");
    assert_eq!(syntax(parser.parse_and_execute(&tokens("CREATE TABLE"))), "Invalid CREATE TABLE syntax");
    assert_eq!(
        syntax(parser.parse_and_execute(&tokens("CREATE TABLE t id INTEGER"))),
        "Expected column definitions in parentheses"
    );
    assert_eq!(
        syntax(parser.parse_and_execute(&tokens("CREATE TABLE t (id INTEGER, name)"))),
        "Invalid column definition: name"
    );
    assert_eq!(
        syntax(parser.parse_and_execute(&tokens("CREATE TABLE t (id INTEGER, , x int)"))),
        "Invalid column definition: "
    );
    assert_eq!(
        syntax(parser.parse_and_execute(&tokens("CREATE TABLE t (id blob)"))),
        "Unsupported column type: blob"
    );
}

#[test]
fn insert_columns_and_values() {
    let parser = InsertParser::new();
    assert_eq!(parser.parse_column_list(&tokens("(id, name, age)")).unwrap(), texts(&["id", "name", "age"]));
    assert_eq!(parser.parse_column_list(&tokens("( id , name )")).unwrap(), texts(&["id", "name"]));
    assert_eq!(syntax(parser.parse_column_list(&tokens("( , )"))), "No columns specified");
    assert_eq!(
        parser.parse_values(&tokens("(1, 'Alice', 25)")).unwrap(),
        vec![texts(&["1", "'Alice'", "25"])]
    );
    assert_eq!(
        parser.parse_values(&tokens("(1, 'Alice Smith', 25), (2,'Bob',, 30 )")).unwrap(),
        vec![texts(&["1", "'Alice Smith'", "25"]), texts(&["2", "'Bob'", "30"])]
    );
    assert_eq!(parser.parse_values(&tokens("x (a (b) c) (d")).unwrap(), vec![texts(&["b"])]);
    assert_eq!(syntax(parser.parse_values(&tokens("1, 2"))), "No values specified");
    assert_eq!(syntax(parser.parse_values(&tokens("(1) ( , )"))), "No values specified in group");
    assert_eq!(syntax(parser.parse_values(&[])), "No values specified");
}

#[test]
fn insert_statements() {
    let parser = InsertParser::new();
    let table = users();
    let (columns, rows) =
        parser.parse_insert(&tokens("INSERT INTO users VALUES (1, 'Alice', 25)"), &table).unwrap();
    assert_eq!(columns, texts(&["id", "name", "age"]));
    assert_eq!(rows, vec![texts(&["1", "'Alice'", "25"])]);
    // a list of columns is read where the third token opens it
    let (columns, rows) = parser
        .parse_insert(&tokens("insert into (name, id) values ('Bob', 2), ('Al', 3)"), &table)
        .unwrap();
    assert_eq!(columns, texts(&["name", "id"]));
    assert_eq!(rows.len(), 2);
    let (columns, rows) = parser
        .parse_insert(&tokens("insert into users (name, id) values ('Bob', 2)"), &table)
        .unwrap();
    assert_eq!(columns, texts(&["id", "name", "age"]));
    assert_eq!(rows, vec![texts(&["'Bob'", "2"])]);
    assert_eq!(syntax(parser.parse_insert(&tokens("INSERT INTO users"), &table)), "Invalid INSERT syntax");
    assert_eq!(syntax(parser.parse_insert(&tokens("INSERT users x VALUES (1)"), &table)), "Expected INTO clause");
    assert_eq!(syntax(parser.parse_insert(&tokens("INSERT INTO users (1, 2)"), &table)), "Expected VALUES clause");
    assert_eq!(
        syntax(parser.parse_insert(&tokens("INSERT INTO (a VALUES 1"), &table)),
        "Expected closing parenthesis for columns"
    );
    assert_eq!(syntax(parser.parse_insert(&tokens("INSERT INTO () VALUES (1)"), &table)), "No columns specified");
    assert_eq!(syntax(parser.parse_insert(&tokens("INSERT INTO users VALUES 1"), &table)), "No values specified");
}

#[test]
fn insert_row_payloads() {
    let parser = InsertParser::new();
    let table = users();
    let bytes = parser
        .row_bytes(&table, &texts(&["id", "name", "age"]), &texts(&["1", "'Al'", "25"]), &[None, None, None])
        .unwrap();
    let mut expected = 1i64.to_be_bytes().to_vec();
    expected.extend_from_slice(&[0, 0, 0, 2, b'A', b'l']);
    expected.extend_from_slice(&25i64.to_be_bytes());
    assert_eq!(bytes, expected);
    // the values go in the order in which they are written
    let bytes = parser.row_bytes(&table, &texts(&["age", "id"]), &texts(&["7", "8"]), &[]).unwrap();
    let mut expected = 7i64.to_be_bytes().to_vec();
    expected.extend_from_slice(&8i64.to_be_bytes());
    assert_eq!(bytes, expected);
    assert_eq!(
        syntax(parser.row_bytes(&table, &texts(&["id", "name"]), &texts(&["1"]), &[])),
        "Column count (2) does not match value count (1)"
    );
    assert!(matches!(
        parser.row_bytes(&table, &texts(&["id", "city"]), &texts(&["x", "y"]), &[]),
        Err(QueryError::TypeMismatch(m)) if m == "Invalid value 'x' for column 'id'"
    ));
    assert!(matches!(
        parser.row_bytes(&table, &texts(&["city", "id"]), &texts(&["x", "y"]), &[]),
        Err(QueryError::ColumnNotFound(c)) if c == "city"
    ));
    let mut scores = Table::new("s".to_string());
    scores.add_column(column("score", ColumnType::Float));
    assert_eq!(
        parser.row_bytes(&scores, &texts(&["score"]), &texts(&["1.5"]), &[Some(1.5f64.to_bits())]).unwrap(),
        1.5f64.to_be_bytes().to_vec()
    );
    assert!(matches!(
        parser.row_bytes(&scores, &texts(&["score"]), &texts(&["abc"]), &[None]),
        Err(QueryError::TypeMismatch(_))
    ));
}

#[test]
fn record_ids_for_blocks() {
    let parser = InsertParser::new();
    assert_eq!(parser.generate_record_id(&[]), Some(1));
    let a = Block::from_records(vec![Record::new(3, vec![]), Record::new(9, vec![])]);
    let b = Block::from_records(vec![Record::new(5, vec![])]);
    assert_eq!(parser.generate_record_id(&[a.clone(), Block::new(), b]), Some(10));
    let full = Block::from_records(vec![Record::new(u64::MAX, vec![])]);
    assert_eq!(parser.generate_record_id(&[a, full]), None);
}

#[test]
fn join_clauses() {
    let parser = JoinParser::new();
    let clause = parser
        .parse_join_clause(&tokens("SELECT * FROM users INNER JOIN orders ON users.id = orders.user_id"))
        .unwrap();
    assert_eq!(clause.join_type, JoinType::Inner);
    assert_eq!(clause.left_table, "users");
    assert_eq!(clause.right_table, "orders");
    assert_eq!(clause.left_column, "id");
    assert_eq!(clause.right_column, "user_id");
    let cases = [
        ("a JOIN b ON c", "Invalid JOIN syntax"),
        ("SELECT * FROM a JOIN b ON a.x = b.y", "Expected INNER keyword"),
        ("SELECT * FROM a INNER b ON a.x = b.y", "Expected JOIN keyword"),
        ("SELECT * FROM a INNER JOIN b a.x = b.y", "Expected ON keyword"),
        ("SELECT * FROM a INNER x JOIN b ON a.x = b.y", "Invalid JOIN syntax order"),
        ("SELECT * FROM a INNER JOIN b c ON a.x = b.y", "Invalid JOIN syntax order"),
        ("INNER JOIN b ON a.x = b.y", "Invalid JOIN syntax order"),
        ("SELECT * FROM a INNER JOIN b ON a.x =", "Invalid ON clause"),
        ("SELECT * FROM a INNER JOIN b ON a.x < b.y", "Only equality joins are supported"),
        ("SELECT * FROM a INNER JOIN b ON x = b.y", "Expected table.column format in ON clause"),
        ("SELECT * FROM a INNER JOIN b ON a.x = b.y.z", "Expected table.column format in ON clause"),
    ];
    for (text, message) in cases {
        assert_eq!(syntax(parser.parse_join_clause(&tokens(text))), message, "statement {:?}", text);
    }
}

#[test]
fn join_rows_and_headers() {
    let parser = JoinParser::new();
    let left = vec![texts(&["1", "Alice"]), texts(&["2", "Bob"]), texts(&["3", "Carol"]), texts(&["4"])];
    let right = vec![
        texts(&["101", "1", "250"]),
        texts(&["102", "2", "180"]),
        texts(&["103", "1", "320"]),
        texts(&["104"]),
    ];
    let rows = parser.join_rows(&left, &right, 0, 1);
    assert_eq!(
        rows,
        vec![
            texts(&["1", "Alice", "101", "1", "250"]),
            texts(&["1", "Alice", "103", "1", "320"]),
            texts(&["2", "Bob", "102", "2", "180"]),
        ]
    );
    assert!(parser.join_rows(&left, &vec![], 0, 1).is_empty());
    let orders =
        vec![column("id", ColumnType::Integer), column("user_id", ColumnType::Integer)];
    let headers = parser.join_headers("users", &users().columns, "orders", &orders);
    assert_eq!(headers, texts(&["users.id", "users.name", "users.age", "orders.id", "orders.user_id"]));
    let picked = parser
        .filter_selected_columns(
            &headers,
            &[texts(&["1", "Al", "30", "7", "1"]), texts(&["2", "Bo", "31", "8", "2"])],
            &texts(&["name", "orders.id", "id"]),
        )
        .unwrap();
    assert_eq!(picked.0, texts(&["users.name", "orders.id", "users.id"]));
    assert_eq!(picked.1, vec![texts(&["Al", "7", "1"]), texts(&["Bo", "8", "2"])]);
    assert!(matches!(
        parser.filter_selected_columns(&headers, &[], &texts(&["name", "city"])),
        Err(QueryError::ColumnNotFound(c)) if c == "city"
    ));
    assert!(matches!(
        parser.filter_selected_columns(&headers, &[], &texts(&["users.city"])),
        Err(QueryError::ColumnNotFound(c)) if c == "users.city"
    ));
    assert!(matches!(
        parser.filter_selected_columns(&headers, &[texts(&["1"])], &texts(&["name"])),
        Err(QueryError::InternalError(_))
    ));
}

#[test]
fn select_statements() {
    let parser = SelectParser::new();
    let table = users();
    assert_eq!(parser.classify(&tokens("SELECT * FROM users")).unwrap(), SelectKind::Rows);
    assert_eq!(parser.classify(&tokens("SELECT COUNT(*) FROM users")).unwrap(), SelectKind::Aggregates);
    assert_eq!(parser.classify(&tokens("SELECT name FROM users GROUP BY name")).unwrap(), SelectKind::Aggregates);
    assert_eq!(parser.classify(&tokens("SELECT")).unwrap(), SelectKind::Rows);
    assert_eq!(
        syntax(parser.classify(&tokens("SELECT * FROM a INNER JOIN b ON a.x = b.y"))),
        "JOIN queries should use the QueryEngine directly"
    );
    assert_eq!(syntax(parser.classify(&tokens("SELECT foo(x) FROM t"))), "Unsupported function: foo");
    assert_eq!(parser.shown_columns(&tokens("SELECT * FROM users"), &table).unwrap(), vec![0, 1, 2]);
    assert_eq!(parser.shown_columns(&tokens("SELECT age, id FROM users"), &table).unwrap(), vec![0, 2]);
    assert_eq!(parser.shown_columns(&tokens("SELECT city FROM users"), &table).unwrap(), Vec::<usize>::new());
    assert_eq!(syntax(parser.shown_columns(&tokens("SELECT FROM users"), &table)), "No columns specified");
    assert!(parser.parse_filter(&tokens("SELECT * FROM users")).unwrap().is_none());
    let filter = parser.parse_filter(&tokens("SELECT * FROM users where id = 2")).unwrap().unwrap();
    assert_eq!((filter.column.as_str(), filter.operator.as_str(), filter.value.as_str()), ("id", "=", "2"));
    assert_eq!(syntax(parser.parse_filter(&tokens("SELECT * FROM users WHERE id"))), "Invalid WHERE clause");
    assert_eq!(parser.project_row(&texts(&["2", "Bob", "30"]), &vec![2, 0]).unwrap(), texts(&["30", "2"]));
    assert!(matches!(parser.project_row(&texts(&["2"]), &vec![1]), Err(QueryError::InternalError(_))));
}

#[test]
fn delete_statements() {
    let parser = DeleteParser::new();
    assert!(parser.parse_filter(&tokens("DELETE FROM users")).unwrap().is_none());
    let filter = parser.parse_filter(&tokens("DELETE FROM users WHERE age < 30")).unwrap().unwrap();
    assert_eq!((filter.column.as_str(), filter.operator.as_str(), filter.value.as_str()), ("age", "<", "30"));
    assert_eq!(syntax(parser.parse_filter(&tokens("DELETE users x"))), "Expected FROM clause");
    assert_eq!(syntax(parser.parse_filter(&tokens("DELETE FROM users WHERE age"))), "Invalid WHERE clause");
    assert!(parser.parse_filter(&tokens("DELETE FROM users x WHERE a = 1")).unwrap().is_none());
}

#[test]
fn update_statements() {
    let parser = UpdateParser::new();
    let table = users();
    let plan = parser.parse_update(&tokens("UPDATE users SET name = 'Al' WHERE id = 1"), &table).unwrap();
    assert_eq!(plan.column, "name");
    assert_eq!(plan.value, "'Al'");
    assert_eq!(plan.filter.unwrap().value, "1");
    let plan = parser.parse_update(&tokens("UPDATE users set age = 5"), &table).unwrap();
    assert!(plan.filter.is_none());
    assert_eq!(syntax(parser.parse_update(&tokens("UPDATE users age = 5"), &table)), "Expected SET clause");
    assert_eq!(syntax(parser.parse_update(&tokens("UPDATE users SET age ="), &table)), "Invalid SET clause");
    assert_eq!(
        syntax(parser.parse_update(&tokens("UPDATE users SET age 5 6"), &table)),
        "Expected = after column name"
    );
    assert!(matches!(
        parser.parse_update(&tokens("UPDATE users SET city = 5"), &table),
        Err(QueryError::ColumnNotFound(c)) if c == "city"
    ));
    assert_eq!(
        syntax(parser.parse_update(&tokens("UPDATE users SET age = 5 WHERE id"), &table)),
        "Invalid WHERE clause"
    );
    let mut payload = 1i64.to_be_bytes().to_vec();
    payload.extend_from_slice(&[0, 0, 0, 3, b'B', b'o', b'b']);
    payload.extend_from_slice(&30i64.to_be_bytes());
    let record = Record::new(1, payload);
    let updated = parser.build_updated_record_data(&record, &table, "name", "'Robert'", None).unwrap();
    let mut expected = 1i64.to_be_bytes().to_vec();
    expected.extend_from_slice(&[0, 0, 0, 6]);
    expected.extend_from_slice(b"Robert");
    expected.extend_from_slice(&30i64.to_be_bytes());
    assert_eq!(updated, expected);
    assert_eq!(
        parser.build_updated_record_data(&record, &table, "city", "x", None).unwrap(),
        record.data
    );
    assert!(matches!(
        parser.build_updated_record_data(&record, &table, "age", "old", None),
        Err(QueryError::TypeMismatch(m)) if m == "Invalid integer value: old"
    ));
}

#[test]
fn statements_by_kind() {
    assert!(matches!(parse_statement(&tokens("select * from users")).unwrap(), Statement::Select { table } if table == "users"));
    assert!(matches!(parse_statement(&tokens("SELECT id, name FROM users WHERE id = 1")).unwrap(), Statement::Select { table } if table == "users"));
    assert!(matches!(
        parse_statement(&tokens("SELECT * FROM a INNER JOIN b ON a.x = b.y")).unwrap(),
        Statement::Join { left, right } if left == "a" && right == "b"
    ));
    assert!(matches!(parse_statement(&tokens("INSERT INTO users VALUES (1)")).unwrap(), Statement::Insert { table } if table == "users"));
    assert!(matches!(parse_statement(&tokens("UPDATE users SET a = 1")).unwrap(), Statement::Update { table } if table == "users"));
    assert!(matches!(parse_statement(&tokens("DELETE FROM users")).unwrap(), Statement::Delete { table } if table == "users"));
    assert!(matches!(parse_statement(&tokens("CREATE TABLE t")).unwrap(), Statement::Create));
    assert!(matches!(parse_statement(&tokens("drop table t")).unwrap(), Statement::Drop { table } if table == "t"));
    assert_eq!(syntax(parse_statement(&[])), "Empty query");
    assert_eq!(syntax(parse_statement(&tokens("EXPLAIN x"))), "Unknown command: EXPLAIN");
    assert_eq!(syntax(parse_statement(&tokens("SELECT * FROM"))), "Invalid SELECT syntax");
    assert_eq!(syntax(parse_statement(&tokens("SELECT a b c d"))), "Expected FROM clause");
    assert_eq!(syntax(parse_statement(&tokens("SELECT a b c FROM"))), "Invalid SELECT syntax");
    assert_eq!(syntax(parse_statement(&tokens("SELECT a JOIN c d"))), "Expected FROM clause");
    assert_eq!(syntax(parse_statement(&tokens("SELECT a FROM c JOIN"))), "Invalid JOIN syntax");
    assert_eq!(syntax(parse_statement(&tokens("INSERT INTO t"))), "Invalid INSERT syntax");
    assert_eq!(syntax(parse_statement(&tokens("UPDATE t SET"))), "Invalid UPDATE syntax");
    assert_eq!(syntax(parse_statement(&tokens("DELETE FROM"))), "Invalid DELETE syntax");
    assert_eq!(syntax(parse_statement(&tokens("CREATE TABLE"))), "Invalid CREATE TABLE syntax");
    assert_eq!(syntax(parse_statement(&tokens("DROP TABLE"))), "Invalid DROP TABLE syntax");
    assert_eq!(syntax(parse_statement(&tokens("DROP INDEX i"))), "Expected TABLE keyword");
}

#[test]
fn results_as_text() {
    assert_eq!(display_text(&QueryResult::Select(vec![])), "No results found\n");
    assert_eq!(
        display_text(&QueryResult::Select(vec![texts(&["2", "Bob"]), texts(&["3"])])),
        "2 | Bob | \n3 | \n"
    );
    assert_eq!(
        display_text(&QueryResult::Join(JoinResult {
            headers: texts(&["a.x", "b.y"]),
            rows: vec![texts(&["1", "2"])],
        })),
        "a.x | b.y | \n--------- | --------- | \n1 | 2 | \n"
    );
    assert_eq!(
        display_text(&QueryResult::Join(JoinResult { headers: texts(&["a.x"]), rows: vec![] })),
        "No join results found\n"
    );
    assert_eq!(
        display_text(&QueryResult::Aggregation(AggregationResult {
            headers: texts(&["COUNT(*)"]),
            rows: vec![texts(&["3"])],
            group_by_columns: vec![],
        })),
        "COUNT(*) | \n--------- | \n3 | \n"
    );
    assert_eq!(
        display_text(&QueryResult::Aggregation(AggregationResult {
            headers: vec![],
            rows: vec![],
            group_by_columns: vec![],
        })),
        "No aggregation results found\n"
    );
    assert_eq!(display_text(&QueryResult::Insert(1)), "Inserted 1 rows\n");
    assert_eq!(display_text(&QueryResult::Update(20)), "Updated 20 rows\n");
    assert_eq!(display_text(&QueryResult::Delete(0)), "Deleted 0 rows\n");
    assert_eq!(display_text(&QueryResult::CreateTable), "Table created successfully\n");
    assert_eq!(display_text(&QueryResult::DropTable), "Table dropped successfully\n");
    assert_eq!(display_text(&QueryResult::Error("x".to_string())), "Error: x\n");
}

#[test]
fn rows_in_order() {
    let rows = vec![
        texts(&["b", "1"]),
        texts(&["a", "30"]),
        texts(&["a", "4"]),
        texts(&["a"]),
        texts(&[]),
        texts(&["B", "z"]),
        texts(&["a", "30", ""]),
        texts(&["\u{e9}"]),
        texts(&["a", "30"]),
    ];
    let mut expected = rows.clone();
    expected.sort();
    assert_eq!(sort_rows(rows.clone()), expected);
    assert_eq!(sort_rows(vec![]), Vec::<Vec<String>>::new());
    for a in &rows {
        for b in &rows {
            assert_eq!(row_goes_before(a, b), a < b, "rows {:?} {:?}", a, b);
        }
    }
}

#[test]
fn rows_in_groups() {
    let rows = vec![
        texts(&["north", "ann", "5"]),
        texts(&["south", "bob", "7"]),
        texts(&["north", "cy", "1"]),
        texts(&["south", "bob", "2"]),
    ];
    let groups = group_rows(&rows, &vec![0]).unwrap();
    assert_eq!(groups.len(), 2);
    assert_eq!(groups[0].key, texts(&["north"]));
    assert_eq!(groups[0].rows, vec![rows[0].clone(), rows[2].clone()]);
    assert_eq!(groups[1].key, texts(&["south"]));
    assert_eq!(groups[1].rows, vec![rows[1].clone(), rows[3].clone()]);
    let groups = group_rows(&rows, &vec![1, 0]).unwrap();
    assert_eq!(groups.len(), 3);
    assert_eq!(groups[1].key, texts(&["bob", "south"]));
    assert_eq!(groups[1].rows.len(), 2);
    let groups = group_rows(&rows, &vec![]).unwrap();
    assert_eq!(groups.len(), 1);
    assert_eq!(groups[0].rows.len(), 4);
    assert!(group_rows(&vec![], &vec![3]).unwrap().is_empty());
    assert!(matches!(group_rows(&rows, &vec![0, 3]), Err(QueryError::InternalError(_))));
}
