use csvprof::analyzer::{ReportDetail, StatsAnalyzer};
use csvprof::{stream_csv, ColumnAnalyzer, ColumnType, CsvProfError};

fn fed(values: &[&str]) -> StatsAnalyzer {
    let mut a = StatsAnalyzer::new();
    for v in values {
        a.feed(v);
    }
    a
}

#[test]
fn new_analyzer_is_empty_integer() {
    let a = StatsAnalyzer::new();
    assert_eq!(a.count, 0);
    assert_eq!(a.null_count, 0);
    assert_eq!(a.col_type, ColumnType::Integer);
    assert!(a.numbers.is_empty());
    assert_eq!(a.text_freq.len(), 0);
    assert_eq!(a.total_len, 0);
}

#[test]
fn integers_keep_the_integer_type() {
    let a = fed(&["1", " 22 ", "", "-3"]);
    assert_eq!(a.count, 4);
    assert_eq!(a.null_count, 1);
    assert_eq!(a.col_type, ColumnType::Integer);
    assert_eq!(a.numbers, vec!["1", "22", "-3"]);
    assert_eq!(a.total_len, 5);
}

#[test]
fn type_follows_the_last_non_integer_value() {
    let mut a = fed(&["1", "2.5"]);
    assert_eq!(a.col_type, ColumnType::Float);
    a.feed("abc");
    assert_eq!(a.col_type, ColumnType::Text);
    a.feed("7");
    assert_eq!(a.col_type, ColumnType::Text);
    a.feed("1e3");
    assert_eq!(a.col_type, ColumnType::Float);
    assert_eq!(a.numbers, vec!["1", "2.5", "7", "1e3"]);
    assert_eq!(a.text_freq.get(&"abc".to_string()), 1);
}

#[test]
fn every_value_lands_in_one_bucket() {
    let values = ["x", "", "3", "x", " ", "4.5", "y"];
    let a = fed(&values);
    assert_eq!(a.count, values.len());
    assert_eq!(a.null_count + a.numbers.len() + 3, a.count);
    assert_eq!(a.text_freq.get(&"x".to_string()), 2);
}

#[test]
fn total_len_counts_utf8_bytes_of_trimmed_values() {
    let a = fed(&[" é ", "ab"]);
    assert_eq!(a.total_len, 4);
}

#[test]
fn report_of_text_column() {
    let a = fed(&["b", "a", "b", "", "c", "b", "a"]);
    let r = a.report("Name");
    assert_eq!(r.name, "Name");
    assert_eq!(r.col_type, ColumnType::Text);
    assert_eq!(r.count, 7);
    assert_eq!(r.nulls, 1);
    match r.detail {
        ReportDetail::Text { unique, total_len, non_null, top } => {
            assert_eq!(unique, 3);
            assert_eq!(total_len, 6);
            assert_eq!(non_null, 6);
            assert_eq!(top, vec![("b".to_string(), 3), ("a".to_string(), 2), ("c".to_string(), 1)]);
        }
        _ => panic!("expected a text report"),
    }
}

#[test]
fn report_of_numeric_column() {
    let a = fed(&["1", "2.5", " 3 "]);
    let r = a.report("n");
    assert_eq!(r.col_type, ColumnType::Float);
    match r.detail {
        ReportDetail::Numbers { values } => assert_eq!(values, vec!["1", "2.5", "3"]),
        _ => panic!("expected a numeric report"),
    }
}

#[test]
fn stream_csv_profiles_each_column() {
    let data = b"id,name,score\n1,ann,3.5\n2,bob,\n3,ann,4\n";
    let cols = match stream_csv(data) {
        Ok(c) => c,
        Err(_) => panic!("expected columns"),
    };
    assert_eq!(cols.len(), 3);
    assert_eq!(cols[0].0, "id");
    assert_eq!(cols[0].1.col_type, ColumnType::Integer);
    assert_eq!(cols[0].1.count, 3);
    assert_eq!(cols[1].0, "name");
    assert_eq!(cols[1].1.col_type, ColumnType::Text);
    assert_eq!(cols[1].1.text_freq.get(&"ann".to_string()), 2);
    assert_eq!(cols[2].1.col_type, ColumnType::Float);
    assert_eq!(cols[2].1.null_count, 1);
    assert_eq!(cols[2].1.numbers, vec!["3.5", "4"]);
}

#[test]
fn stream_csv_empty_input_is_empty_file() {
    assert!(matches!(stream_csv(b""), Err(CsvProfError::EmptyFile)));
}

#[test]
fn stream_csv_unequal_record_is_csv_error() {
    assert!(matches!(stream_csv(b"a,b\n1,2\n3\n"), Err(CsvProfError::Csv(_))));
}

#[test]
fn stream_csv_invalid_utf8_header_is_csv_error() {
    assert!(matches!(stream_csv(b"a,\xff\n1,2\n"), Err(CsvProfError::Csv(_))));
}

#[test]
fn stream_csv_header_only() {
    let cols = match stream_csv(b"x,y\n") {
        Ok(c) => c,
        Err(_) => panic!("expected columns"),
    };
    assert_eq!(cols.len(), 2);
    assert_eq!(cols[1].1.count, 0);
}

#[test]
fn csv_prof_error_from_conversions() {
    let io = std::io::Error::new(std::io::ErrorKind::NotFound, "missing");
    assert!(matches!(CsvProfError::from(io), CsvProfError::Io(_)));
}

#[test]
fn only_integer_values_keep_integer_type() {
    assert_eq!(fed(&["1", "", "-2", "+3"]).col_type, ColumnType::Integer);
    assert_eq!(fed(&[]).col_type, ColumnType::Integer);
    assert_eq!(fed(&["1", "2.0"]).col_type, ColumnType::Float);
}

#[test]
fn stream_csv_every_column_counts_every_record() {
    let data = b"a,b,c\n1,,x\n,,\n3,4,y\n";
    let cols = match stream_csv(data) {
        Ok(c) => c,
        Err(_) => panic!("expected columns"),
    };
    for (_, a) in &cols {
        assert_eq!(a.count, 3);
    }
    assert_eq!(cols[1].1.null_count, 2);
}

#[test]
fn counters_stay_consistent_after_every_value() {
    let mut a = StatsAnalyzer::new();
    for v in ["x", " 3 ", "", "  ", "x ", "2.5", "y", "-7", "abc"] {
        a.feed(v);
        let entries = a.text_freq.ranked();
        let text_sum: usize = entries.iter().map(|e| e.1).sum();
        assert_eq!(a.null_count + a.numbers.len() + text_sum, a.count);
        for (k, c) in &entries {
            assert!(!k.is_empty());
            assert_eq!(k.trim(), k.as_str());
            assert!(*c >= 1);
        }
    }
    assert_eq!(a.count, 9);
    assert_eq!(a.text_freq.get(&"x".to_string()), 2);
}

#[test]
fn integer_type_once_left_never_returns() {
    let mut a = fed(&["1", "", " 2 "]);
    assert_eq!(a.col_type, ColumnType::Integer);
    a.feed("1.5");
    assert_eq!(a.col_type, ColumnType::Float);
    a.feed("4");
    a.feed("");
    assert_ne!(a.col_type, ColumnType::Integer);
}
