use deepnest::part_table::find_columns;
use deepnest::part_table::header_column;
use deepnest::part_table::contains_text;
use deepnest::part_table::Column;
use deepnest::part_table::ColumnIndices;
use deepnest::part_table::table_file_kind;
use deepnest::part_table::TableFile;

fn s(v: &[&str]) -> Vec<String> {
    v.iter().map(|x| x.to_string()).collect()
}

#[test]
fn columns_from_mixed_headers() {
    let c = find_columns(&s(&["Part Width", "LÄNGE", "Anzahl", "Bezeichnung", "other"]));
    assert_eq!(
        c,
        ColumnIndices { width: Some(0), length: Some(1), thickness: None, qty: Some(2), label: Some(3) }
    );
    assert!(c.has_required());
}

#[test]
fn later_header_wins_and_missing_required() {
    let c = find_columns(&s(&["Name", "Label", "Thickness", "Qty"]));
    assert_eq!(c.label, Some(1));
    assert_eq!(c.thickness, Some(2));
    assert_eq!(c.qty, Some(3));
    assert!(!c.has_required());
}

#[test]
fn first_rule_decides_a_header() {
    let lc: Vec<char> = "width name".chars().collect();
    assert_eq!(header_column(&lc), Some(Column::Width));
    let q: Vec<char> = "quantity".chars().collect();
    assert_eq!(header_column(&q), Some(Column::Qty));
    let none: Vec<char> = "".chars().collect();
    assert_eq!(header_column(&none), None);
}

#[test]
fn contains_text_finds_parts() {
    let h: Vec<char> = "länge (mm)".chars().collect();
    assert!(contains_text(&h, "länge"));
    assert!(contains_text(&h, "(mm)"));
    assert!(!contains_text(&h, "mmm"));
    assert!(contains_text(&h, ""));
}

#[test]
fn table_file_kinds_by_extension() {
    assert_eq!(table_file_kind(Some("xlsx")), TableFile::Workbook);
    assert_eq!(table_file_kind(Some("xlsm")), TableFile::Workbook);
    assert_eq!(table_file_kind(Some("xlsb")), TableFile::Workbook);
    assert_eq!(table_file_kind(Some("xls")), TableFile::Workbook);
    assert_eq!(table_file_kind(Some("ods")), TableFile::OpenDocument);
    assert_eq!(table_file_kind(Some("csv")), TableFile::Csv);
    assert_eq!(table_file_kind(Some("CSV")), TableFile::Unsupported);
    assert_eq!(table_file_kind(Some("txt")), TableFile::Unsupported);
    assert_eq!(table_file_kind(None), TableFile::Unsupported);
}
