use uplift_tree::{Column, ColumnKind, Dataset, FitError, Table, TableError};

fn text(values: &[&str]) -> Column {
    Column::Text(values.iter().map(|s| s.to_string()).collect())
}

fn study() -> Table {
    let mut t = Table::new(4);
    t.push_column("age".to_string(), Column::Numeric(vec![30, 41, 52, 63])).unwrap();
    t.push_column("treated".to_string(), Column::Numeric(vec![0, 1, 0, 1])).unwrap();
    t.push_column("city".to_string(), text(&["a", "b", "a", "c"])).unwrap();
    t.push_column("bought".to_string(), Column::Numeric(vec![1, 0, 0, 1])).unwrap();
    t
}

#[test]
fn new_table_has_height_and_no_columns() {
    let t = Table::new(5);
    assert_eq!(t.height(), 5);
    assert_eq!(t.width(), 0);
}

#[test]
fn pushed_columns_are_read_back() {
    let t = study();
    assert_eq!(t.height(), 4);
    assert_eq!(t.width(), 4);
    assert_eq!(t.name(0), "age");
    assert_eq!(t.name(2), "city");
    assert_eq!(t.kind(0), ColumnKind::Numeric);
    assert_eq!(t.kind(2), ColumnKind::Text);
    assert_eq!(t.number(0, 2), Some(52));
    assert_eq!(t.number(2, 2), None);
    assert_eq!(t.text(2, 3), Some(&"c".to_string()));
    assert_eq!(t.text(0, 3), None);
}

#[test]
fn find_gives_the_column_of_a_name() {
    let t = study();
    assert_eq!(t.find(&"age".to_string()), Some(0));
    assert_eq!(t.find(&"bought".to_string()), Some(3));
    assert_eq!(t.find(&"weight".to_string()), None);
}

#[test]
fn column_of_wrong_height_is_refused() {
    let mut t = study();
    let r = t.push_column("short".to_string(), Column::Numeric(vec![1, 2, 3]));
    assert_eq!(r, Err(TableError::LengthMismatch));
    assert_eq!(t.width(), 4);
    let r = t.push_column("long".to_string(), text(&["a", "b", "c", "d", "e"]));
    assert_eq!(r, Err(TableError::LengthMismatch));
    assert_eq!(t.width(), 4);
}

#[test]
fn column_of_taken_name_is_refused() {
    let mut t = study();
    let r = t.push_column("city".to_string(), Column::Numeric(vec![1, 2, 3, 4]));
    assert_eq!(r, Err(TableError::DuplicateName));
    assert_eq!(t.width(), 4);
    assert_eq!(t.kind(2), ColumnKind::Text);
}

#[test]
fn column_without_name_is_refused() {
    let mut t = study();
    let r = t.push_column(String::new(), Column::Numeric(vec![1, 2, 3, 4]));
    assert_eq!(r, Err(TableError::EmptyName));
    assert_eq!(t.width(), 4);
}

#[test]
fn name_is_checked_before_length_and_length_before_taken_name() {
    let mut t = study();
    let r = t.push_column(String::new(), Column::Numeric(vec![1]));
    assert_eq!(r, Err(TableError::EmptyName));
    let r = t.push_column("city".to_string(), Column::Numeric(vec![1]));
    assert_eq!(r, Err(TableError::LengthMismatch));
}

#[test]
fn column_of_other_type_has_any_height() {
    let mut t = study();
    assert_eq!(t.push_column("when".to_string(), Column::Other), Ok(()));
    assert_eq!(t.kind(4), ColumnKind::Other);
    assert_eq!(t.number(4, 0), None);
    assert_eq!(t.text(4, 0), None);
}

#[test]
fn dataset_tells_the_columns_apart() {
    let t = study();
    let d = Dataset::new(&t, &"treated".to_string(), &"bought".to_string(), 2).unwrap();
    assert_eq!(d.features(), &vec![0, 2]);
    assert_eq!(d.treatment(), 1);
    assert_eq!(d.outcome(), 3);
    assert_eq!(d.table().height(), 4);
    assert_eq!(d.all_rows(), vec![0, 1, 2, 3]);
}

#[test]
fn dataset_with_too_few_features_is_refused() {
    let t = study();
    let r = Dataset::new(&t, &"treated".to_string(), &"bought".to_string(), 3);
    assert_eq!(r.err(), Some(FitError::TooFewFeatures));
}

#[test]
fn dataset_with_feature_of_other_type_is_refused() {
    let mut t = study();
    t.push_column("when".to_string(), Column::Other).unwrap();
    let r = Dataset::new(&t, &"treated".to_string(), &"bought".to_string(), 1);
    assert_eq!(r.err(), Some(FitError::UnsupportedType));
}

#[test]
fn dataset_without_treatment_or_outcome_column_is_refused() {
    let t = study();
    let r = Dataset::new(&t, &"dose".to_string(), &"bought".to_string(), 1);
    assert_eq!(r.err(), Some(FitError::ColumnNotFound));
    let r = Dataset::new(&t, &"treated".to_string(), &"paid".to_string(), 1);
    assert_eq!(r.err(), Some(FitError::ColumnNotFound));
}

#[test]
fn dataset_with_text_treatment_or_outcome_is_refused() {
    let t = study();
    let r = Dataset::new(&t, &"city".to_string(), &"bought".to_string(), 1);
    assert_eq!(r.err(), Some(FitError::NotNumeric));
    let r = Dataset::new(&t, &"treated".to_string(), &"city".to_string(), 1);
    assert_eq!(r.err(), Some(FitError::NotNumeric));
}

#[test]
fn errors_come_in_their_order() {
    let mut t = study();
    t.push_column("when".to_string(), Column::Other).unwrap();
    // too few features goes before an unsupported feature
    let r = Dataset::new(&t, &"treated".to_string(), &"bought".to_string(), 4);
    assert_eq!(r.err(), Some(FitError::TooFewFeatures));
    // an unsupported feature goes before a missing column
    let r = Dataset::new(&t, &"dose".to_string(), &"bought".to_string(), 1);
    assert_eq!(r.err(), Some(FitError::UnsupportedType));
    // a missing column goes before a column that is not numeric
    let t = study();
    let r = Dataset::new(&t, &"dose".to_string(), &"city".to_string(), 1);
    assert_eq!(r.err(), Some(FitError::ColumnNotFound));
}

#[test]
fn treatment_and_outcome_may_be_one_column() {
    let t = study();
    let d = Dataset::new(&t, &"treated".to_string(), &"treated".to_string(), 1).unwrap();
    assert_eq!(d.features(), &vec![0, 2, 3]);
    assert_eq!(d.treatment(), 1);
    assert_eq!(d.outcome(), 1);
}
