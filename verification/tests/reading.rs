use tabular::csv::parse_csv;
use tabular::filter::{apply_filter, FilterOps};
use tabular::error::EngineError;
use tabular::table::Table;
use tabular::value::{is_num_literal, parse_num, Value};

fn int_at(t: &Table, j: usize, r: usize) -> i64 {
    match &t.columns[j].cells[r] {
        Value::Int(v) => *v,
        other => panic!("expected an integer cell, found {:?}", other),
    }
}

fn str_at(t: &Table, j: usize, r: usize) -> String {
    match &t.columns[j].cells[r] {
        Value::Str(s) => s.clone(),
        other => panic!("expected a text cell, found {:?}", other),
    }
}

#[test]
fn parse_num_reads_decimal_integers() {
    assert_eq!(parse_num("0"), 0);
    assert_eq!(parse_num("15"), 15);
    assert_eq!(parse_num("-7"), -7);
    assert_eq!(parse_num("9223372036854775807"), i64::MAX);
    assert_eq!(parse_num("-9223372036854775808"), i64::MIN);
}

#[test]
fn parse_num_defaults_on_malformed_input() {
    assert_eq!(parse_num(""), 0);
    assert_eq!(parse_num("-"), 0);
    assert_eq!(parse_num("12x"), 0);
    assert_eq!(parse_num("1.5"), 0);
    assert_eq!(parse_num("9223372036854775808"), 0);
    assert_eq!(parse_num("-9223372036854775809"), 0);
}

#[test]
fn num_literal_recognition() {
    assert!(is_num_literal("42"));
    assert!(is_num_literal("-1"));
    assert!(!is_num_literal(""));
    assert!(!is_num_literal("four"));
    assert!(!is_num_literal("- 2"));
    assert!(!is_num_literal("18446744073709551615"));
}

#[test]
fn csv_loads_header_and_typed_columns() {
    let t = parse_csv("name,score\na,10\nb,20\nc,30\n").unwrap();
    assert_eq!(t.shape(), (3, 2));
    assert_eq!(t.columns[0].name, "name");
    assert_eq!(t.columns[1].name, "score");
    assert_eq!(str_at(&t, 0, 0), "a");
    assert_eq!(int_at(&t, 1, 2), 30);
}

#[test]
fn csv_without_trailing_newline() {
    let t = parse_csv("v\n1\n2").unwrap();
    assert_eq!(t.shape(), (2, 1));
    assert_eq!(int_at(&t, 0, 1), 2);
}

#[test]
fn csv_strips_carriage_returns() {
    let t = parse_csv("a,b\r\n1,x\r\n").unwrap();
    assert_eq!(t.shape(), (1, 2));
    assert_eq!(int_at(&t, 0, 0), 1);
    assert_eq!(str_at(&t, 1, 0), "x");
}

#[test]
fn csv_mixed_column_stays_text() {
    let t = parse_csv("v\n1\nx\n2\n").unwrap();
    assert_eq!(str_at(&t, 0, 0), "1");
    assert_eq!(str_at(&t, 0, 1), "x");
}

#[test]
fn csv_empty_fields_load_as_nulls() {
    let t = parse_csv("a,b\n1,\n,2\n").unwrap();
    assert!(matches!(t.columns[1].cells[0], Value::Null));
    assert!(matches!(t.columns[0].cells[1], Value::Null));
    assert_eq!(int_at(&t, 0, 0), 1);
    assert_eq!(int_at(&t, 1, 1), 2);
}

#[test]
fn csv_negative_numbers_infer_numeric() {
    let t = parse_csv("v\n-5\n7\n").unwrap();
    assert_eq!(int_at(&t, 0, 0), -5);
    assert_eq!(int_at(&t, 0, 1), 7);
}

#[test]
fn csv_header_only_gives_empty_table() {
    let t = parse_csv("a,b\n").unwrap();
    assert_eq!(t.shape(), (0, 2));
}

#[test]
fn csv_empty_text_is_refused() {
    assert_eq!(parse_csv("").unwrap_err(), EngineError::ParseError);
}

#[test]
fn csv_ragged_record_is_refused() {
    let r = parse_csv("a,b\n1,2\n3\n");
    assert_eq!(r.unwrap_err(), EngineError::ParseError);
}

#[test]
fn csv_then_filter_round() {
    let t = parse_csv("name,score\na,10\nb,20\nc,30\n").unwrap();
    let f = apply_filter(&t, "score", &FilterOps::GreaterThan, "15").unwrap();
    assert_eq!(f.height(), 2);
    assert_eq!(str_at(&f, 0, 0), "b");
}
