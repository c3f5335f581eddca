use csvprof::profiler::{profile_data, ColumnProfiler, ColumnType, Profiler};

fn profiled(values: &[&str]) -> ColumnProfiler {
    let mut p = ColumnProfiler::new();
    for v in values {
        p.update(v);
    }
    p
}

#[test]
fn update_counts_values_lengths_and_numbers() {
    let p = profiled(&["12", " ab ", "", "1.5", "12"]);
    assert_eq!(p.total, 5);
    assert_eq!(p.nulls, 1);
    assert_eq!(p.values.get(&"12".to_string()), 2);
    assert_eq!(p.lengths, vec![2, 2, 3, 2]);
    assert_eq!(p.nums, vec!["12", "1.5", "12"]);
    assert_eq!(p.col_type, ColumnType::Text);
}

#[test]
fn infer_boolean() {
    let mut p = profiled(&["Yes", "no", "Yes", "no"]);
    p.infer_type(true);
    assert_eq!(p.col_type, ColumnType::Boolean);
    let mut q = profiled(&["T", "1"]);
    q.infer_type(true);
    assert_eq!(q.col_type, ColumnType::Boolean);
    let mut r = profiled(&["Yes", "no", "yes", "NO"]);
    r.infer_type(true);
    assert_eq!(r.col_type, ColumnType::Categorical);
}

#[test]
fn infer_boolean_needs_at_most_two_values() {
    let mut p = profiled(&["yes", "no", "true"]);
    p.infer_type(true);
    assert_eq!(p.col_type, ColumnType::Categorical);
}

#[test]
fn infer_numeric() {
    let mut p = profiled(&["3", "4", "5"]);
    p.infer_type(true);
    assert_eq!(p.col_type, ColumnType::Integer);
    let mut q = profiled(&["3", "4.5", "5"]);
    q.infer_type(false);
    assert_eq!(q.col_type, ColumnType::Float);
}

#[test]
fn infer_date_needs_distinct_values() {
    let mut p = profiled(&["2024-01-01", "2024/02/02", ""]);
    p.infer_type(true);
    assert_eq!(p.col_type, ColumnType::Date);
    let mut q = profiled(&["2024-01-01", "2024-01-01"]);
    q.infer_type(true);
    assert_eq!(q.col_type, ColumnType::Categorical);
}

#[test]
fn infer_categorical_and_text_by_cardinality() {
    let small: Vec<String> = (0..20).map(|i| format!("v{}", i)).collect();
    let refs: Vec<&str> = small.iter().map(|s| s.as_str()).collect();
    let mut p = profiled(&refs);
    p.infer_type(true);
    assert_eq!(p.col_type, ColumnType::Categorical);
    let big: Vec<String> = (0..21).map(|i| format!("v{}", i)).collect();
    let refs: Vec<&str> = big.iter().map(|s| s.as_str()).collect();
    let mut q = profiled(&refs);
    q.infer_type(true);
    assert_eq!(q.col_type, ColumnType::Text);
}

#[test]
fn infer_leaves_all_blank_column_alone() {
    let mut p = profiled(&["", "  "]);
    p.infer_type(true);
    assert_eq!(p.col_type, ColumnType::Text);
}

#[test]
fn report_summary() {
    let mut p = profiled(&["a", "b", "a", "", "ccc"]);
    p.infer_type(true);
    let s = p.report("letters", true, true);
    assert_eq!(s.name, "letters");
    assert_eq!(s.col_type, ColumnType::Categorical);
    assert_eq!(s.rows, 5);
    assert_eq!(s.nulls, 1);
    assert_eq!(s.unique, 3);
    assert!(!s.constant);
    assert!(!s.numeric);
    assert!(!s.percentiles);
    assert_eq!(s.length_range, Some((1, 3)));
    assert_eq!(s.top[0], ("a".to_string(), 2));
    assert_eq!(s.top.len(), 3);
    assert_eq!(s.histogram.len(), 3);
    assert_eq!(s.max_count, 2);
}

#[test]
fn report_constant_numeric_column() {
    let mut p = profiled(&["7", "7"]);
    p.infer_type(true);
    let s = p.report("n", true, true);
    assert_eq!(s.col_type, ColumnType::Integer);
    assert!(s.constant);
    assert!(s.numeric);
    assert!(s.percentiles);
    assert!(s.histogram.is_empty());
}

#[test]
fn report_of_empty_column() {
    let p = ColumnProfiler::new();
    let s = p.report("e", false, true);
    assert_eq!(s.length_range, None);
    assert!(s.top.is_empty());
    assert_eq!(s.max_count, 1);
}

#[test]
fn profile_data_accepts_ragged_records() {
    let (headers, ps) = match profile_data(b"a,b\n1\n2,x,extra\n") {
        Ok(v) => v,
        Err(_) => panic!("flexible reading should accept ragged records"),
    };
    assert_eq!(headers, vec!["a", "b"]);
    assert_eq!(ps.len(), 2);
    assert_eq!(ps[0].total, 2);
    assert_eq!(ps[1].total, 1);
}

#[test]
fn every_update_is_counted_once() {
    let values = ["a", "", "1", " ", "2.5", "a"];
    let p = profiled(&values);
    assert_eq!(p.total, values.len());
    assert_eq!(p.nulls + p.lengths.len(), p.total);
    assert!(p.nums.len() <= p.lengths.len());
    assert_eq!(p.values.get(&"a".to_string()), 2);
}

#[test]
fn profile_counters_stay_consistent_after_every_value() {
    let mut p = ColumnProfiler::new();
    for v in ["a", "", " b ", "1", "  ", "2.5", "a"] {
        p.update(v);
        let entries = p.values.ranked();
        let sum: usize = entries.iter().map(|e| e.1).sum();
        assert_eq!(p.nulls + sum, p.total);
        assert_eq!(p.nulls + p.lengths.len(), p.total);
        assert!(p.nums.len() <= p.lengths.len());
        for (k, c) in &entries {
            assert!(!k.is_empty());
            assert_eq!(k.trim(), k.as_str());
            assert!(*c >= 1);
        }
    }
}

#[test]
fn two_updates_commute_up_to_order() {
    let base = profiled(&["x", "7"]);
    let mut p = profiled(&["x", "7"]);
    let mut q = profiled(&["x", "7"]);
    p.update(" 12 ");
    p.update("hello");
    q.update("hello");
    q.update(" 12 ");
    assert_eq!(p.total, base.total + 2);
    assert_eq!(p.total, q.total);
    assert_eq!(p.nulls, q.nulls);
    assert_eq!(p.col_type, q.col_type);
    let mut pv = p.values.ranked();
    let mut qv = q.values.ranked();
    pv.sort();
    qv.sort();
    assert_eq!(pv, qv);
    assert_ne!(p.lengths, q.lengths);
    let (mut pn, mut qn) = (p.nums.clone(), q.nums.clone());
    pn.sort();
    qn.sort();
    assert_eq!(pn, qn);
    let (mut pl, mut ql) = (p.lengths.clone(), q.lengths.clone());
    pl.sort();
    ql.sort();
    assert_eq!(pl, ql);
}

#[test]
fn histogram_starts_with_the_top_values_ties_in_first_seen_order() {
    let values = ["g", "f", "e", "d", "c", "b", "a", "b", "h", "i"];
    let mut p = profiled(&values);
    p.infer_type(true);
    assert_eq!(p.col_type, ColumnType::Categorical);
    let s = p.report("letters", false, true);
    assert_eq!(s.top.len(), 5);
    assert_eq!(s.histogram.len(), 9);
    assert_eq!(&s.histogram[..5], &s.top[..]);
    let names: Vec<&str> = s.histogram.iter().map(|e| e.0.as_str()).collect();
    assert_eq!(names, vec!["b", "g", "f", "e", "d", "c", "a", "h", "i"]);
}

#[test]
fn upper_case_boolean_words_are_recognised() {
    let mut p = profiled(&["TRUE", "False", "TRUE"]);
    p.infer_type(true);
    assert_eq!(p.col_type, ColumnType::Boolean);
}
