use bunjee::codec::{convert_value_to_bytes, decode_row, encode_row, parse_record_data, Value};
use bunjee::metadata::column::{Column, ColumnType, Instant};
use bunjee::metadata::table::Table;
use bunjee::query::error::QueryError;
use bunjee::storage::record::Record;

fn codec_column(name: &str, data_type: ColumnType) -> Column {
    Column::created(name.to_string(), data_type, Instant { seconds: 0, nanos: 0 })
}

fn codec_users() -> Vec<Column> {
    vec![codec_column("id", ColumnType::Integer), codec_column("name", ColumnType::Varchar(50))]
}

#[test]
fn integer_takes_eight_bytes_highest_first() {
    let mut out = Vec::new();
    Value::Integer(1).encode(&mut out);
    assert_eq!(out, vec![0, 0, 0, 0, 0, 0, 0, 1]);
    let mut out = Vec::new();
    Value::Integer(-2).encode(&mut out);
    assert_eq!(out, vec![255, 255, 255, 255, 255, 255, 255, 254]);
    let mut out = Vec::new();
    Value::Timestamp(0x0102030405060708).encode(&mut out);
    assert_eq!(out, vec![1, 2, 3, 4, 5, 6, 7, 8]);
    let mut out = Vec::new();
    Value::Integer(i64::MIN).encode(&mut out);
    assert_eq!(out, i64::MIN.to_be_bytes().to_vec());
}

#[test]
fn float_takes_the_bytes_of_its_bits() {
    let mut out = Vec::new();
    Value::Float(1.5f64.to_bits()).encode(&mut out);
    assert_eq!(out, 1.5f64.to_be_bytes().to_vec());
}

#[test]
fn varchar_takes_length_then_bytes() {
    let mut out = vec![9];
    Value::Varchar(b"Bob".to_vec()).encode(&mut out);
    assert_eq!(out, vec![9, 0, 0, 0, 3, b'B', b'o', b'b']);
    let mut out = Vec::new();
    Value::Varchar(Vec::new()).encode(&mut out);
    assert_eq!(out, vec![0, 0, 0, 0]);
}

#[test]
fn boolean_takes_one_byte() {
    let mut out = Vec::new();
    Value::Boolean(true).encode(&mut out);
    Value::Boolean(false).encode(&mut out);
    assert_eq!(out, vec![1, 0]);
}

#[test]
fn row_round_trip() {
    let columns = vec![
        codec_column("id", ColumnType::Integer),
        codec_column("score", ColumnType::Float),
        codec_column("name", ColumnType::Varchar(50)),
        codec_column("active", ColumnType::Boolean),
        codec_column("seen", ColumnType::Timestamp),
    ];
    let values = vec![
        Value::Integer(-7),
        Value::Float(2.25f64.to_bits()),
        Value::Varchar("Zo\u{eb}".as_bytes().to_vec()),
        Value::Boolean(true),
        Value::Timestamp(1_700_000_000),
    ];
    let payload = encode_row(&values);
    assert_eq!(payload.len(), 8 + 8 + 4 + 4 + 1 + 8);
    let back = decode_row(&columns, &payload);
    assert!(back == values);
}

#[test]
fn decoding_is_forgiving_of_a_short_payload() {
    let columns = vec![
        codec_column("a", ColumnType::Integer),
        codec_column("b", ColumnType::Varchar(10)),
        codec_column("c", ColumnType::Boolean),
        codec_column("d", ColumnType::Float),
        codec_column("e", ColumnType::Timestamp),
    ];
    let back = decode_row(&columns, &[]);
    assert!(
        back == vec![
            Value::Integer(0),
            Value::Varchar(Vec::new()),
            Value::Boolean(false),
            Value::Float(0),
            Value::Timestamp(0),
        ]
    );
    // the integer is cut short: it reads as zero, and the next value is looked for
    // where it would have stood
    let mut payload = vec![0, 0, 0];
    let back = decode_row(&columns, &payload);
    assert!(back[0] == Value::Integer(0));
    payload = vec![0, 0, 0, 0, 0, 0, 0, 5, 0, 0, 0, 9, b'x'];
    let back = decode_row(&columns, &payload);
    assert!(back[0] == Value::Integer(5));
    // nine bytes of text were announced, one is there
    assert!(back[1] == Value::Varchar(Vec::new()));
    assert!(back[2] == Value::Boolean(false));
}

#[test]
fn boolean_reads_true_only_from_one() {
    let columns = vec![codec_column("a", ColumnType::Boolean), codec_column("b", ColumnType::Boolean)];
    let back = decode_row(&columns, &[2, 1]);
    assert!(back == vec![Value::Boolean(false), Value::Boolean(true)]);
}

#[test]
fn values_from_text() {
    assert!(Value::from_text(&ColumnType::Integer, "25", None).unwrap() == Value::Integer(25));
    assert!(Value::from_text(&ColumnType::Integer, "+25", None).unwrap() == Value::Integer(25));
    assert!(Value::from_text(&ColumnType::Integer, "-0025", None).unwrap() == Value::Integer(-25));
    assert!(
        Value::from_text(&ColumnType::Integer, "-9223372036854775808", None).unwrap()
            == Value::Integer(i64::MIN)
    );
    assert!(
        Value::from_text(&ColumnType::Timestamp, "9223372036854775807", None).unwrap()
            == Value::Timestamp(i64::MAX)
    );
    assert!(
        Value::from_text(&ColumnType::Varchar(50), "'Alice'", None).unwrap()
            == Value::Varchar(b"Alice".to_vec())
    );
    assert!(
        Value::from_text(&ColumnType::Varchar(50), "\"'O'Neil\"\"", None).unwrap()
            == Value::Varchar(b"O'Neil".to_vec())
    );
    assert!(Value::from_text(&ColumnType::Varchar(0), "''", None).unwrap() == Value::Varchar(Vec::new()));
    assert!(Value::from_text(&ColumnType::Boolean, "TRUE", None).unwrap() == Value::Boolean(true));
    assert!(Value::from_text(&ColumnType::Boolean, "'False'", None).unwrap() == Value::Boolean(false));
    assert!(
        Value::from_text(&ColumnType::Float, "1.5", Some(1.5f64.to_bits())).unwrap()
            == Value::Float(1.5f64.to_bits())
    );
}

#[test]
fn text_that_stands_for_no_value() {
    let cases: Vec<(ColumnType, &str, &str)> = vec![
        (ColumnType::Integer, "abc", "Invalid integer value: abc"),
        (ColumnType::Integer, "", "Invalid integer value: "),
        (ColumnType::Integer, "-", "Invalid integer value: -"),
        (ColumnType::Integer, "9223372036854775808", "Invalid integer value: 9223372036854775808"),
        (ColumnType::Integer, "1.0", "Invalid integer value: 1.0"),
        (ColumnType::Timestamp, "now", "Invalid timestamp value: now"),
        (ColumnType::Float, "x", "Invalid float value: x"),
        (ColumnType::Boolean, "yes", "Invalid boolean value: yes"),
        (ColumnType::Boolean, "", "Invalid boolean value: "),
        (ColumnType::Varchar(3), "'Alice'", "String value exceeds maximum length of 3"),
    ];
    for (t, text, message) in cases {
        match Value::from_text(&t, text, None) {
            Err(QueryError::TypeMismatch(m)) => assert_eq!(m, message),
            _ => panic!("expected a type mismatch for {:?}", text),
        }
    }
}

#[test]
fn value_bytes_from_text() {
    let name = codec_column("name", ColumnType::Varchar(50));
    assert_eq!(
        convert_value_to_bytes("'Bob'", &name, None).unwrap(),
        vec![0, 0, 0, 3, b'B', b'o', b'b']
    );
    let id = codec_column("id", ColumnType::Integer);
    assert_eq!(convert_value_to_bytes("2", &id, None).unwrap(), vec![0, 0, 0, 0, 0, 0, 0, 2]);
    assert!(matches!(convert_value_to_bytes("two", &id, None), Err(QueryError::TypeMismatch(_))));
    let flag = codec_column("flag", ColumnType::Boolean);
    assert_eq!(convert_value_to_bytes("true", &flag, None).unwrap(), vec![1]);
}

#[test]
fn values_as_text() {
    assert_eq!(Value::Integer(0).to_text().unwrap(), "0");
    assert_eq!(Value::Integer(-120).to_text().unwrap(), "-120");
    assert_eq!(Value::Integer(i64::MIN).to_text().unwrap(), "-9223372036854775808");
    assert_eq!(Value::Timestamp(i64::MAX).to_text().unwrap(), "9223372036854775807");
    assert_eq!(Value::Boolean(true).to_text().unwrap(), "true");
    assert_eq!(Value::Boolean(false).to_text().unwrap(), "false");
    assert_eq!(Value::Varchar(b"Bob".to_vec()).to_text().unwrap(), "Bob");
    assert_eq!(Value::Varchar(vec![b'a', 0xff, b'b']).to_text().unwrap(), "a\u{fffd}b");
    assert!(Value::Float(0).to_text().is_none());
}

#[test]
fn stored_rows_come_back_after_encoding() {
    let mut table = Table::new("users".to_string());
    for c in codec_users() {
        table.add_column(c);
    }
    let rows = vec![("1", "'Alice'"), ("2", "'Bob'")];
    let mut records = Vec::new();
    for (i, (id, name)) in rows.iter().enumerate() {
        let mut payload = convert_value_to_bytes(id, &table.columns[0], None).unwrap();
        payload.extend(convert_value_to_bytes(name, &table.columns[1], None).unwrap());
        records.push(Record::new(i as u64 + 1, payload));
    }
    let found: Vec<Vec<String>> = records
        .iter()
        .map(|r| parse_record_data(r, &table).iter().map(|v| v.to_text().unwrap()).collect())
        .filter(|row: &Vec<String>| row[0] == "2")
        .collect();
    assert_eq!(found, vec![vec!["2".to_string(), "Bob".to_string()]]);
}

#[test]
fn value_clone_and_equality() {
    let v = Value::Varchar(vec![1, 2, 3]);
    assert!(v.clone() == v);
    assert!(Value::Integer(1) != Value::Timestamp(1));
    assert!(Value::Varchar(vec![1]) != Value::Varchar(vec![2]));
}
