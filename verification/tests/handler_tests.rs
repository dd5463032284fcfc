use spreadsheet_store::handlers;
use spreadsheet_store::models::CellUpdate;
use spreadsheet_store::models::CellUpdates;
use spreadsheet_store::models::NewSpreadsheet;
use spreadsheet_store::models::UpdateSpreadsheet;
use spreadsheet_store::storage::Storage;

fn created(store: &mut Storage, name: &str, rows: usize, cols: usize) -> String {
    let req = NewSpreadsheet { name: String::from(name), rows, cols };
    let resp = handlers::create_spreadsheet(req, store).expect("create succeeds");
    assert_eq!(resp.status, "success");
    resp.data.expect("create returns the record").id
}

#[test]
fn get_handler_wraps_hits_and_names_misses() {
    let mut store = Storage::new();
    let id = created(&mut store, "ledger", 2, 2);
    let ok = handlers::get_spreadsheet(&id, &store).expect("record is live");
    assert_eq!(ok.status, "success");
    assert_eq!(ok.data.unwrap().name, "ledger");
    assert!(ok.message.is_none());

    let err = handlers::get_spreadsheet("missing-id", &store).unwrap_err();
    assert_eq!(err.status_code, 404);
    assert_eq!(err.body.status, "error");
    assert_eq!(
        err.body.message.as_deref(),
        Some("Spreadsheet with ID missing-id not found")
    );
}

#[test]
fn get_by_name_handler_names_the_missing_name() {
    let store = Storage::new();
    let err = handlers::get_spreadsheet_by_name("ghost", &store).unwrap_err();
    assert_eq!(err.status_code, 404);
    assert_eq!(
        err.body.message.as_deref(),
        Some("Spreadsheet with name 'ghost' not found")
    );
}

#[test]
fn create_handler_reports_name_conflicts() {
    let mut store = Storage::new();
    created(&mut store, "unique", 1, 1);
    let req = NewSpreadsheet { name: String::from("unique"), rows: 1, cols: 1 };
    let err = handlers::create_spreadsheet(req, &mut store).unwrap_err();
    assert_eq!(err.status_code, 409);
    assert_eq!(
        err.body.message.as_deref(),
        Some("Spreadsheet name 'unique' is already in use")
    );
}

#[test]
fn update_handler_renames_and_reports_conflicts() {
    let mut store = Storage::new();
    let id = created(&mut store, "old", 1, 1);
    created(&mut store, "other", 1, 1);

    let ok = handlers::update_spreadsheet(
        &id,
        UpdateSpreadsheet { name: Some(String::from("new")), content: None },
        &mut store,
    )
    .expect("rename succeeds");
    assert_eq!(ok.data.unwrap().name, "new");
    assert!(handlers::get_spreadsheet_by_name("old", &store).is_err());
    assert!(handlers::get_spreadsheet_by_name("new", &store).is_ok());

    let err = handlers::update_spreadsheet(
        &id,
        UpdateSpreadsheet { name: Some(String::from("other")), content: None },
        &mut store,
    )
    .unwrap_err();
    assert_eq!(err.status_code, 409);
}

#[test]
fn delete_handler_confirms_with_the_identifier() {
    let mut store = Storage::new();
    let id = created(&mut store, "gone", 1, 1);
    let ok = handlers::delete_spreadsheet(&id, &mut store).expect("delete succeeds");
    assert_eq!(ok.status, "success");
    assert_eq!(
        ok.message.as_deref(),
        Some(format!("Spreadsheet with ID {} deleted", id).as_str())
    );
    let err = handlers::delete_spreadsheet(&id, &mut store).unwrap_err();
    assert_eq!(err.status_code, 404);
}

#[test]
fn update_cells_handler_applies_the_batch() {
    let mut store = Storage::new();
    let id = created(&mut store, "cells", 2, 2);
    let updates = CellUpdates {
        cells: vec![
            CellUpdate { row: 0, col: 1, value: String::from("x") },
            CellUpdate { row: 9, col: 9, value: String::from("bad") },
        ],
    };
    let ok = handlers::update_cells(&id, updates, &mut store).expect("patch succeeds");
    assert_eq!(ok.data.unwrap().content, ",x\n,");
}

#[test]
fn export_then_import_round_trips_content() {
    let mut store = Storage::new();
    let id = created(&mut store, "round", 2, 2);
    let updates = CellUpdates {
        cells: vec![
            CellUpdate { row: 0, col: 0, value: String::from("a") },
            CellUpdate { row: 1, col: 1, value: String::from("b") },
        ],
    };
    handlers::update_cells(&id, updates, &mut store).expect("patch succeeds");
    let exported = handlers::export_spreadsheet(&id, &store).expect("export succeeds");
    assert_eq!(exported, "a,\n,b");

    let other = created(&mut store, "copy", 1, 1);
    let imported =
        handlers::import_spreadsheet(&other, exported.clone(), &mut store).expect("import");
    assert_eq!(imported.data.unwrap().content, exported);
    let re_exported = handlers::export_spreadsheet(&other, &store).expect("export again");
    assert_eq!(re_exported, exported);
}

#[test]
fn list_handler_wraps_the_listing() {
    let mut store = Storage::new();
    created(&mut store, "one", 1, 1);
    created(&mut store, "two", 1, 1);
    let resp = handlers::list_spreadsheets(&store);
    assert_eq!(resp.status, "success");
    let items = resp.data.unwrap();
    assert_eq!(items.len(), 2);
    assert!(items.iter().any(|m| m.name == "one"));
    assert!(items.iter().any(|m| m.name == "two"));
}
