use csvprof::freq::{rank_desc, FreqTable};

fn table(values: &[&str]) -> FreqTable {
    let mut t = FreqTable::new();
    for v in values {
        t.add(v);
    }
    t
}

#[test]
fn counts_and_distinct_values() {
    let t = table(&["a", "b", "a", "c", "a", "b"]);
    assert_eq!(t.get(&"a".to_string()), 3);
    assert_eq!(t.get(&"b".to_string()), 2);
    assert_eq!(t.get(&"c".to_string()), 1);
    assert_eq!(t.get(&"d".to_string()), 0);
    assert!(t.contains(&"c".to_string()));
    assert!(!t.contains(&"d".to_string()));
    assert_eq!(t.len(), 3);
}

#[test]
fn ranked_is_stable_and_descending() {
    let t = table(&["x", "y", "z", "y", "z", "w"]);
    let r = t.ranked();
    let names: Vec<(&str, usize)> = r.iter().map(|(k, c)| (k.as_str(), *c)).collect();
    assert_eq!(names, vec![("y", 2), ("z", 2), ("x", 1), ("w", 1)]);
}

#[test]
fn top_takes_the_most_frequent() {
    let t = table(&["a", "b", "b", "c", "c", "c"]);
    let top = t.top(2);
    assert_eq!(top, vec![("c".to_string(), 3), ("b".to_string(), 2)]);
    assert_eq!(t.top(10).len(), 3);
    assert!(t.top(0).is_empty());
    assert!(FreqTable::new().top(3).is_empty());
}

#[test]
fn rank_desc_orders_indices() {
    assert_eq!(rank_desc(&vec![1, 5, 3, 5, 0]), vec![1, 3, 2, 0, 4]);
    assert_eq!(rank_desc(&vec![]), Vec::<usize>::new());
    assert_eq!(rank_desc(&vec![2, 2, 2]), vec![0, 1, 2]);
}
