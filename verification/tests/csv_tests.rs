use sketchbook::csv_data::{columns_from_records, csv_columns};

fn strings(v: &[&str]) -> Vec<String> {
    v.iter().map(|s| s.to_string()).collect()
}

#[test]
fn records_to_columns() {
    let records = vec![strings(&["1", "2"]), strings(&["3"]), strings(&["5", "6"])];
    let cols = columns_from_records(&records);
    assert_eq!(cols, vec![strings(&["1", "5"]), strings(&["2", "6"])]);
    let none: Vec<Vec<String>> = vec![];
    assert!(columns_from_records(&none).is_empty());
}

#[test]
fn csv_text_to_columns_skips_the_header() {
    let cols = csv_columns(b"x,y\n1,2\n3, 4\n").unwrap();
    assert_eq!(cols, vec![strings(&["1", "3"]), strings(&["2", " 4"])]);
}

#[test]
fn csv_with_only_a_header_has_no_columns() {
    let cols = csv_columns(b"x,y\n").unwrap();
    assert!(cols.is_empty());
}

#[test]
fn csv_with_a_short_record_is_refused() {
    assert!(csv_columns(b"x,y\n1,2\n3\n").is_none());
}

#[test]
fn csv_that_is_not_utf8_is_refused() {
    assert!(csv_columns(b"x,y\n1,\xff\n").is_none());
}
