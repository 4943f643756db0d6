use bunjee::storage::discovery::{discover, names_table, number_of, TableFile};
use bunjee::text::{append_decimal, parse_i64, parse_u64, push_decimal, same_text};

#[test]
fn decimal_digits_of_numbers() {
    for (n, text) in [(0u64, "0"), (7, "7"), (10, "10"), (909, "909"), (u64::MAX, "18446744073709551615")] {
        let mut out = vec![b'#'];
        push_decimal(&mut out, n);
        assert_eq!(out, format!("#{}", text).into_bytes());
        let mut s = String::from("#");
        append_decimal(&mut s, n);
        assert_eq!(s, format!("#{}", text));
        assert_eq!(parse_u64(text.as_bytes()), Some(n));
    }
}

#[test]
fn unsigned_numbers_are_read_as_the_standard_library_reads_them() {
    for text in ["", "+", "-", "-1", "++1", "1 ", " 1", "1_0", "0x10", "18446744073709551616", "99999999999999999999", "1e3", "\u{661}"] {
        assert_eq!(parse_u64(text.as_bytes()), text.parse::<u64>().ok(), "text {:?}", text);
        assert_eq!(parse_u64(text.as_bytes()), None);
    }
    for text in ["0", "+0", "007", "+18446744073709551615", "000000000000000000000000001"] {
        assert_eq!(parse_u64(text.as_bytes()), text.parse::<u64>().ok(), "text {:?}", text);
        assert!(parse_u64(text.as_bytes()).is_some());
    }
}

#[test]
fn signed_numbers_are_read_as_the_standard_library_reads_them() {
    for text in [
        "", "+", "-", "--1", "+-1", "-+1", "9223372036854775808", "-9223372036854775809", "1.5", "a",
        "0", "-0", "+0", "-1", "+1", "0042", "-0042", "9223372036854775807", "-9223372036854775808",
        "-09223372036854775808",
    ] {
        assert_eq!(parse_i64(text.as_bytes()), text.parse::<i64>().ok(), "text {:?}", text);
    }
    assert_eq!(parse_i64(b"-9223372036854775808"), Some(i64::MIN));
    assert_eq!(parse_i64(b"-12"), Some(-12));
}

#[test]
fn texts_are_compared_by_content() {
    assert!(same_text("", ""));
    assert!(same_text("abc", "abc"));
    assert!(!same_text("abc", "abd"));
    assert!(!same_text("abc", "ab"));
    assert!(same_text("\u{e9}", "\u{e9}"));
}

#[test]
fn table_file_names() {
    assert!(names_table("sstable_1.dat"));
    assert!(names_table("sstable_.dat"));
    assert!(names_table("sstable_x.y.dat"));
    assert!(!names_table("sstable_1.dat.tmp"));
    assert!(!names_table("Sstable_1.dat"));
    assert!(!names_table("sstable_dat"));
    assert!(!names_table("write.log"));
    assert!(!names_table(""));
    assert_eq!(number_of("sstable_12.dat"), Some(12));
    assert_eq!(number_of("sstable_+12.dat"), Some(12));
    assert_eq!(number_of("sstable_012.dat"), Some(12));
    assert_eq!(number_of("sstable_.dat"), None);
    assert_eq!(number_of("sstable_1.5.dat"), None);
    assert_eq!(number_of("sstable_99999999999999999999.dat"), None);
    assert_eq!(number_of("table_12.dat"), None);
}

fn file(name: &str, modified: u128) -> TableFile {
    TableFile { name: name.to_string(), modified }
}

#[test]
fn discovery_orders_newest_first_and_numbers_the_next_file() {
    let files = vec![
        file("sstable_2.dat", 20),
        file("write.log", 99),
        file("sstable_9.dat", 5),
        file("sstable_3.dat", 30),
        file("sstable_old.dat", 1),
        file("sstable_4.dat", 20),
    ];
    let (found, next) = discover(&files);
    let names: Vec<&str> = found.iter().map(|f| f.name.as_str()).collect();
    assert_eq!(
        names,
        vec!["sstable_3.dat", "sstable_2.dat", "sstable_4.dat", "sstable_9.dat", "sstable_old.dat"]
    );
    assert_eq!(next, 10);
}

#[test]
fn discovery_of_an_empty_directory() {
    let (found, next) = discover(&vec![file("write.log", 1)]);
    assert!(found.is_empty());
    assert_eq!(next, 1);
}

#[test]
fn the_greatest_number_has_no_successor() {
    let (found, next) = discover(&vec![file("sstable_18446744073709551615.dat", 1)]);
    assert_eq!(found.len(), 1);
    assert_eq!(next, u64::MAX);
}
