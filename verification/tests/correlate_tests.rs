use csvprof::correlate::{col_index, count_by, count_column, join_counts, CountError};
use csvprof::freq::FreqTable;

fn strings(v: &[&str]) -> Vec<String> {
    v.iter().map(|s| s.to_string()).collect()
}

#[test]
fn col_index_ignores_case_and_surrounding_space() {
    let headers = strings(&["Date", " Neighborhood ", "neighborhood"]);
    assert_eq!(col_index(&headers, "NEIGHBORHOOD"), Some(1));
    assert_eq!(col_index(&headers, "date"), Some(0));
    assert_eq!(col_index(&headers, "District"), None);
}

#[test]
fn count_column_skips_blank_and_short_rows() {
    let records = vec![strings(&["a", "X"]), strings(&["b"]), strings(&["c", " X "]), strings(&["d", ""]), strings(&["e", "Y"])];
    let t = count_column(&records, 1);
    assert_eq!(t.get(&"X".to_string()), 2);
    assert_eq!(t.get(&"Y".to_string()), 1);
    assert_eq!(t.len(), 2);
}

#[test]
fn count_by_reads_named_column() {
    let data = b"id,Neighborhood\n1,Canton\n2,Fells Point\n3,Canton\n4,\n";
    let t = match count_by(data, "neighborhood") {
        Ok(t) => t,
        Err(_) => panic!("expected counts"),
    };
    assert_eq!(t.get(&"Canton".to_string()), 2);
    assert_eq!(t.get(&"Fells Point".to_string()), 1);
    assert_eq!(t.len(), 2);
}

#[test]
fn count_by_missing_column() {
    assert!(matches!(count_by(b"a,b\n1,2\n", "c"), Err(CountError::ColumnNotFound)));
}

#[test]
fn count_by_bad_record() {
    assert!(matches!(count_by(b"a,b\n1,2\n3\n", "a"), Err(CountError::Csv(_))));
}

fn table(values: &[&str]) -> FreqTable {
    let mut t = FreqTable::new();
    for v in values {
        t.add(v);
    }
    t
}

#[test]
fn join_keeps_common_values_by_second_count() {
    let crimes = table(&["A", "B", "B", "C", "D", "D", "D"]);
    let calls = table(&["B", "C", "C", "C", "D", "E"]);
    let joined = join_counts(&crimes, &calls);
    assert_eq!(
        joined,
        vec![("C".to_string(), 1, 3), ("D".to_string(), 3, 1), ("B".to_string(), 2, 1)]
    );
}

#[test]
fn join_of_disjoint_tables_is_empty() {
    assert!(join_counts(&table(&["a"]), &table(&["b"])).is_empty());
}
