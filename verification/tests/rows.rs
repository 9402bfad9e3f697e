use uplift_tree::sorting::sort;
use uplift_tree::{Column, Dataset, SplitError, SplitValue, Summary, Table};

fn text(values: &[&str]) -> Column {
    Column::Text(values.iter().map(|s| s.to_string()).collect())
}

fn s(v: &str) -> String {
    v.to_string()
}

fn study() -> Table {
    let mut t = Table::new(8);
    t.push_column(s("x"), Column::Numeric(vec![5, 3, 8, 1, 3, 9, 2, 5])).unwrap();
    t.push_column(s("city"), text(&["a", "b", "a", "c", "b", "a", "c", "d"])).unwrap();
    t.push_column(s("t"), Column::Numeric(vec![0, 1, 0, 1, 1, 0, 1, 0])).unwrap();
    t.push_column(s("y"), Column::Numeric(vec![1, 0, 3, 1, 1, 0, 0, 2])).unwrap();
    t
}

fn numeric(values: Vec<SplitValue>) -> Vec<i64> {
    values
        .into_iter()
        .map(|v| match v {
            SplitValue::Numeric(x) => x,
            SplitValue::Str(text) => panic!("text {text} on a numeric column"),
        })
        .collect()
}

fn texts(values: Vec<SplitValue>) -> Vec<String> {
    values
        .into_iter()
        .map(|v| match v {
            SplitValue::Str(text) => text,
            SplitValue::Numeric(x) => panic!("number {x} on a text column"),
        })
        .collect()
}

#[test]
fn sort_puts_numbers_in_ascending_order() {
    assert_eq!(sort(&vec![]), Vec::<i64>::new());
    assert_eq!(sort(&vec![7]), vec![7]);
    assert_eq!(sort(&vec![3, -1, 3, i64::MAX, 0, i64::MIN, 2]), vec![i64::MIN, -1, 0, 2, 3, 3, i64::MAX]);
    assert_eq!(sort(&vec![5, 4, 3, 2, 1]), vec![1, 2, 3, 4, 5]);
}

#[test]
fn threshold_sends_rows_left_and_right() {
    let t = study();
    let d = Dataset::new(&t, &s("t"), &s("y"), 1).unwrap();
    let rows = d.all_rows();
    let (left, right) = d.split_set(&SplitValue::Numeric(3), 0, &rows).unwrap();
    assert_eq!(left, vec![1, 3, 4, 6]);
    assert_eq!(right, vec![0, 2, 5, 7]);
}

#[test]
fn category_sends_rows_left_and_right() {
    let t = study();
    let d = Dataset::new(&t, &s("t"), &s("y"), 1).unwrap();
    let rows = d.all_rows();
    let (left, right) = d.split_set(&SplitValue::Str(s("a")), 1, &rows).unwrap();
    assert_eq!(left, vec![0, 2, 5]);
    assert_eq!(right, vec![1, 3, 4, 6, 7]);
    let (left, right) = d.split_set(&SplitValue::Str(s("z")), 1, &rows).unwrap();
    assert_eq!(left, Vec::<usize>::new());
    assert_eq!(right, rows);
}

#[test]
fn sides_are_apart_and_make_up_the_whole() {
    let t = study();
    let d = Dataset::new(&t, &s("t"), &s("y"), 1).unwrap();
    let rows = vec![7, 0, 4, 2, 6];
    for threshold in 0..10 {
        let (left, right) = d.split_set(&SplitValue::Numeric(threshold), 0, &rows).unwrap();
        assert_eq!(left.len() + right.len(), rows.len());
        for r in &rows {
            assert!(left.contains(r) != right.contains(r));
        }
        for r in left.iter().chain(right.iter()) {
            assert!(rows.contains(r));
        }
    }
}

#[test]
fn split_keeps_order_of_rows() {
    let t = study();
    let d = Dataset::new(&t, &s("t"), &s("y"), 1).unwrap();
    let (left, right) = d.split_set(&SplitValue::Numeric(4), 0, &vec![7, 6, 5, 4, 3]).unwrap();
    assert_eq!(left, vec![6, 4, 3]);
    assert_eq!(right, vec![7, 5]);
}

#[test]
fn split_on_missing_column_is_refused() {
    let t = study();
    let d = Dataset::new(&t, &s("t"), &s("y"), 1).unwrap();
    let r = d.split_set(&SplitValue::Numeric(3), 4, &d.all_rows());
    assert_eq!(r, Err(SplitError::NoSuchColumn));
    let r = d.split_set(&SplitValue::Str(s("a")), usize::MAX, &d.all_rows());
    assert_eq!(r, Err(SplitError::NoSuchColumn));
}

#[test]
fn split_of_wrong_kind_is_refused() {
    let t = study();
    let d = Dataset::new(&t, &s("t"), &s("y"), 1).unwrap();
    let rows = d.all_rows();
    assert_eq!(d.split_set(&SplitValue::Str(s("a")), 0, &rows), Err(SplitError::KindMismatch));
    assert_eq!(d.split_set(&SplitValue::Numeric(1), 1, &rows), Err(SplitError::KindMismatch));
}

#[test]
fn summary_counts_and_sums_each_arm() {
    let mut t = Table::new(8);
    t.push_column(s("x"), Column::Numeric(vec![5, 3, 8, 1, 3, 9, 2, 5])).unwrap();
    t.push_column(s("t"), Column::Numeric(vec![0, 1, 0, 1, 1, 0, 1, 0])).unwrap();
    t.push_column(s("y"), Column::Numeric(vec![1, 0, 3, 1, 1, 0, 0, 2])).unwrap();
    let d = Dataset::new(&t, &s("t"), &s("y"), 1).unwrap();
    assert_eq!(d.summary(&d.all_rows()), Some(Summary { n_c: 4, n_pc: 6, n_t: 4, n_pt: 2 }));
    assert_eq!(d.summary(&vec![0, 1, 2]), Some(Summary { n_c: 2, n_pc: 4, n_t: 1, n_pt: 0 }));
    assert_eq!(d.summary(&vec![3, 2]), Some(Summary { n_c: 1, n_pc: 3, n_t: 1, n_pt: 1 }));
}

#[test]
fn summary_needs_both_arms() {
    let mut t = Table::new(6);
    t.push_column(s("x"), Column::Numeric(vec![1, 2, 3, 4, 5, 6])).unwrap();
    t.push_column(s("t"), Column::Numeric(vec![0, 1, 0, 1, 1, 1])).unwrap();
    t.push_column(s("y"), Column::Numeric(vec![1, 0, 1, 1, 1, 0])).unwrap();
    let d = Dataset::new(&t, &s("t"), &s("y"), 1).unwrap();
    // only treated rows
    assert_eq!(d.summary(&vec![1, 3, 4, 5]), None);
    // only control rows
    assert_eq!(d.summary(&vec![0, 2]), None);
    // no rows
    assert_eq!(d.summary(&vec![]), None);
}

#[test]
fn summary_of_three_arms_is_none() {
    let mut t = Table::new(4);
    t.push_column(s("x"), Column::Numeric(vec![1, 2, 3, 4])).unwrap();
    t.push_column(s("t"), Column::Numeric(vec![0, 1, 2, 1])).unwrap();
    t.push_column(s("y"), Column::Numeric(vec![1, 0, 1, 1])).unwrap();
    let d = Dataset::new(&t, &s("t"), &s("y"), 1).unwrap();
    assert_eq!(d.summary(&d.all_rows()), None);
    assert_eq!(d.summary(&vec![0, 1, 3]), Some(Summary { n_c: 1, n_pc: 1, n_t: 2, n_pt: 1 }));
}

#[test]
fn smaller_treatment_value_is_control() {
    let mut t = Table::new(4);
    t.push_column(s("x"), Column::Numeric(vec![1, 2, 3, 4])).unwrap();
    t.push_column(s("t"), Column::Numeric(vec![7, -2, 7, 7])).unwrap();
    t.push_column(s("y"), Column::Numeric(vec![10, 20, 30, -5])).unwrap();
    let d = Dataset::new(&t, &s("t"), &s("y"), 1).unwrap();
    assert_eq!(d.summary(&d.all_rows()), Some(Summary { n_c: 1, n_pc: 20, n_t: 3, n_pt: 35 }));
}

#[test]
fn summary_adds_large_outcomes_exactly() {
    let mut t = Table::new(4);
    t.push_column(s("x"), Column::Numeric(vec![1, 2, 3, 4])).unwrap();
    t.push_column(s("t"), Column::Numeric(vec![0, 0, 1, 1])).unwrap();
    t.push_column(s("y"), Column::Numeric(vec![i64::MAX, i64::MAX, i64::MIN, i64::MIN])).unwrap();
    let d = Dataset::new(&t, &s("t"), &s("y"), 1).unwrap();
    let expected = Summary {
        n_c: 2,
        n_pc: 2 * (i64::MAX as i128),
        n_t: 2,
        n_pt: 2 * (i64::MIN as i128),
    };
    assert_eq!(d.summary(&d.all_rows()), Some(expected));
}

#[test]
fn few_numbers_are_all_tried_in_ascending_order() {
    let t = study();
    let d = Dataset::new(&t, &s("t"), &s("y"), 1).unwrap();
    let found = numeric(d.calc_split_values(0, &d.all_rows(), 6, 0));
    assert_eq!(found, vec![1, 2, 3, 5, 8, 9]);
    let found = numeric(d.calc_split_values(0, &vec![0, 7, 1], 6, 0));
    assert_eq!(found, vec![3, 5]);
}

#[test]
fn many_numbers_are_tried_at_the_end_of_each_stretch() {
    let mut t = Table::new(10);
    t.push_column(s("x"), Column::Numeric(vec![10, 9, 8, 7, 6, 5, 4, 3, 2, 1])).unwrap();
    t.push_column(s("t"), Column::Numeric(vec![0, 1, 0, 1, 0, 1, 0, 1, 0, 1])).unwrap();
    t.push_column(s("y"), Column::Numeric(vec![0; 10])).unwrap();
    let d = Dataset::new(&t, &s("t"), &s("y"), 1).unwrap();
    // ten values, three splits: stretches of three, closed by the 3rd, 6th and 9th value
    assert_eq!(numeric(d.calc_split_values(0, &d.all_rows(), 3, 0)), vec![3, 6, 9]);
    // stretches of two
    assert_eq!(numeric(d.calc_split_values(0, &d.all_rows(), 4, 0)), vec![2, 4, 6, 8, 10]);
    // stretches of ten
    assert_eq!(numeric(d.calc_split_values(0, &d.all_rows(), 1, 0)), vec![10]);
}

#[test]
fn equal_neighbours_among_the_picked_are_tried_once() {
    let mut t = Table::new(8);
    t.push_column(s("x"), Column::Numeric(vec![1, 2, 2, 2, 2, 3, 4, 5])).unwrap();
    t.push_column(s("t"), Column::Numeric(vec![0, 1, 0, 1, 0, 1, 0, 1])).unwrap();
    t.push_column(s("y"), Column::Numeric(vec![0; 8])).unwrap();
    let d = Dataset::new(&t, &s("t"), &s("y"), 1).unwrap();
    // five different values, four splits: stretches of two, closed by 2, 2, 3, 5
    assert_eq!(numeric(d.calc_split_values(0, &d.all_rows(), 4, 0)), vec![2, 3, 5]);
}

#[test]
fn three_categories_with_three_splits_are_all_tried() {
    let mut t = Table::new(6);
    t.push_column(s("city"), text(&["rome", "oslo", "rome", "lima", "oslo", "lima"])).unwrap();
    t.push_column(s("t"), Column::Numeric(vec![0, 1, 0, 1, 0, 1])).unwrap();
    t.push_column(s("y"), Column::Numeric(vec![0; 6])).unwrap();
    let d = Dataset::new(&t, &s("t"), &s("y"), 1).unwrap();
    for seed in 0..20 {
        let found = texts(d.calc_split_values(0, &d.all_rows(), 3, seed));
        assert_eq!(found, vec![s("rome"), s("oslo"), s("lima")]);
    }
}

#[test]
fn many_categories_are_drawn_without_repetition() {
    let mut t = Table::new(7);
    t.push_column(s("city"), text(&["a", "b", "c", "a", "d", "e", "f"])).unwrap();
    t.push_column(s("t"), Column::Numeric(vec![0, 1, 0, 1, 0, 1, 0])).unwrap();
    t.push_column(s("y"), Column::Numeric(vec![0; 7])).unwrap();
    let d = Dataset::new(&t, &s("t"), &s("y"), 1).unwrap();
    let all = vec![s("a"), s("b"), s("c"), s("d"), s("e"), s("f")];
    let mut seen_other_than_first_two = false;
    for seed in 0..64 {
        let found = texts(d.calc_split_values(0, &d.all_rows(), 2, seed));
        assert_eq!(found.len(), 2);
        assert!(found[0] != found[1]);
        assert!(all.contains(&found[0]) && all.contains(&found[1]));
        if found != vec![s("a"), s("b")] {
            seen_other_than_first_two = true;
        }
        // the same seed draws the same
        assert_eq!(texts(d.calc_split_values(0, &d.all_rows(), 2, seed)), found);
    }
    assert!(seen_other_than_first_two);
}

#[test]
fn nothing_is_tried_without_column_or_rows() {
    let t = study();
    let d = Dataset::new(&t, &s("t"), &s("y"), 1).unwrap();
    assert!(d.calc_split_values(7, &d.all_rows(), 3, 0).is_empty());
    assert!(d.calc_split_values(0, &vec![], 3, 0).is_empty());
    assert!(d.calc_split_values(1, &vec![], 3, 0).is_empty());
}
