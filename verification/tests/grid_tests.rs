use spreadsheet_store::grid::GridError;
use spreadsheet_store::grid::Spreadsheet;

#[test]
fn column_labels_follow_spreadsheet_convention() {
    assert_eq!(Spreadsheet::column_index_to_label(0), "A");
    assert_eq!(Spreadsheet::column_index_to_label(1), "B");
    assert_eq!(Spreadsheet::column_index_to_label(25), "Z");
    assert_eq!(Spreadsheet::column_index_to_label(26), "AA");
    assert_eq!(Spreadsheet::column_index_to_label(27), "AB");
    assert_eq!(Spreadsheet::column_index_to_label(51), "AZ");
    assert_eq!(Spreadsheet::column_index_to_label(52), "BA");
    assert_eq!(Spreadsheet::column_index_to_label(701), "ZZ");
    assert_eq!(Spreadsheet::column_index_to_label(702), "AAA");
}

#[test]
fn empty_grid_serializes_to_separators_only() {
    let sheet = Spreadsheet::new(2, 3);
    assert_eq!(sheet.export_csv(), ",,\n,,");
    let one = Spreadsheet::new(1, 1);
    assert_eq!(one.export_csv(), "");
}

#[test]
fn assignment_sets_the_named_cell() {
    let mut sheet = Spreadsheet::new(3, 3);
    assert!(sheet.handle_assignment("A1=hello").is_ok());
    assert!(sheet.handle_assignment("C3=world").is_ok());
    assert_eq!(sheet.cell_text(0, 0), "hello");
    assert_eq!(sheet.cell_text(2, 2), "world");
    assert_eq!(sheet.export_csv(), "hello,,\n,,\n,,world");
}

#[test]
fn assignment_without_equals_is_malformed() {
    let mut sheet = Spreadsheet::new(2, 2);
    assert_eq!(sheet.handle_assignment("A1"), Err(GridError::Malformed));
    assert_eq!(sheet.export_csv(), ",\n,");
}

#[test]
fn assignment_with_bad_reference_is_malformed() {
    let mut sheet = Spreadsheet::new(2, 2);
    assert_eq!(sheet.handle_assignment("1A=x"), Err(GridError::Malformed));
    assert_eq!(sheet.handle_assignment("=x"), Err(GridError::Malformed));
    assert_eq!(sheet.handle_assignment("A0=x"), Err(GridError::Malformed));
    assert_eq!(sheet.handle_assignment("A=x"), Err(GridError::Malformed));
    assert_eq!(sheet.handle_assignment("A1B=x"), Err(GridError::Malformed));
}

#[test]
fn assignment_outside_the_grid_is_out_of_range() {
    let mut sheet = Spreadsheet::new(2, 2);
    assert_eq!(sheet.handle_assignment("C1=x"), Err(GridError::OutOfRange));
    assert_eq!(sheet.handle_assignment("A3=x"), Err(GridError::OutOfRange));
    assert_eq!(
        sheet.handle_assignment("A99999999999999999999999999=x"),
        Err(GridError::OutOfRange)
    );
}

#[test]
fn assignment_with_separator_in_value_is_unsafe() {
    let mut sheet = Spreadsheet::new(2, 2);
    assert_eq!(sheet.handle_assignment("A1=a,b"), Err(GridError::UnsafeValue));
    assert_eq!(sheet.handle_assignment("A1=a\nb"), Err(GridError::UnsafeValue));
    assert_eq!(sheet.export_csv(), ",\n,");
}

#[test]
fn value_may_contain_equals_sign() {
    let mut sheet = Spreadsheet::new(1, 1);
    assert!(sheet.handle_assignment("A1=x=y").is_ok());
    assert_eq!(sheet.cell_text(0, 0), "x=y");
}

#[test]
fn export_then_parse_reproduces_the_grid() {
    let mut sheet = Spreadsheet::new(2, 3);
    assert!(sheet.handle_assignment("A1=one").is_ok());
    assert!(sheet.handle_assignment("B2=two").is_ok());
    assert!(sheet.handle_assignment("C1=three").is_ok());
    let text = sheet.export_csv();
    let parsed = Spreadsheet::parse_csv(&text);
    assert_eq!(parsed.rows(), 2);
    assert_eq!(parsed.cols(), 3);
    for row in 0..2 {
        for col in 0..3 {
            assert_eq!(parsed.cell_text(row, col), sheet.cell_text(row, col));
        }
    }
}

#[test]
fn parse_pads_ragged_rows_to_the_widest() {
    let parsed = Spreadsheet::parse_csv("a,b,c\nd\ne,f");
    assert_eq!(parsed.rows(), 3);
    assert_eq!(parsed.cols(), 3);
    assert_eq!(parsed.cell_text(0, 2), "c");
    assert_eq!(parsed.cell_text(1, 0), "d");
    assert_eq!(parsed.cell_text(1, 1), "");
    assert_eq!(parsed.cell_text(2, 1), "f");
    assert_eq!(parsed.cell_text(2, 2), "");
}

#[test]
fn batch_edits_apply_in_order_and_skip_rejected_ones() {
    let mut sheet = Spreadsheet::new(2, 2);
    let edits = vec![
        (0usize, 0usize, String::from("first")),
        (0usize, 0usize, String::from("second")),
        (5usize, 5usize, String::from("skipped")),
        (1usize, 1usize, String::from("a,b")),
    ];
    sheet.apply_cell_edits(&edits);
    assert_eq!(sheet.cell_text(0, 0), "second");
    assert_eq!(sheet.cell_text(1, 1), "");
}

#[test]
fn zero_dimension_grids_serialize_empty_and_reload_as_one_cell() {
    let sheet = Spreadsheet::new(0, 0);
    assert_eq!(sheet.export_csv(), "");
    let parsed = Spreadsheet::parse_csv("");
    assert_eq!(parsed.rows(), 1);
    assert_eq!(parsed.cols(), 1);
    assert_eq!(parsed.cell_text(0, 0), "");
}
