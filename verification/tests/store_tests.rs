use spreadsheet_store::models::StoreError;
use spreadsheet_store::storage::Storage;

#[test]
fn create_then_get_returns_the_record() {
    let mut store = Storage::new();
    let rec = store
        .create_spreadsheet(String::from("budget"), 3, 3)
        .expect("fresh name is accepted");
    assert_eq!(rec.name, "budget");
    assert_eq!(rec.created_at, rec.updated_at);
    assert_eq!(rec.content, ",,\n,,\n,,");
    let fetched = store.get_spreadsheet(&rec.id).expect("record is live");
    assert_eq!(fetched.id, rec.id);
    assert_eq!(fetched.name, "budget");
    assert_eq!(fetched.content, rec.content);
    let by_name = store.get_by_name("budget").expect("name resolves");
    assert_eq!(by_name.id, rec.id);
}

#[test]
fn created_identifiers_have_uuid_length() {
    let mut store = Storage::new();
    let rec = store.create_spreadsheet(String::from("one"), 1, 1).unwrap();
    assert_eq!(rec.id.chars().count(), 36);
}

#[test]
fn lookups_of_missing_records_report_not_found_without_side_effects() {
    let mut store = Storage::new();
    store.create_spreadsheet(String::from("kept"), 1, 1).unwrap();
    assert!(store.get_spreadsheet("nonexistent-id").is_none());
    assert!(store.get_by_name("nonexistent-name").is_none());
    assert!(store.get_spreadsheet("nonexistent-id").is_none());
    assert!(store.get_by_name("nonexistent-name").is_none());
    assert_eq!(store.list_spreadsheets().len(), 1);
    assert!(store.get_by_name("kept").is_some());
}

#[test]
fn delete_removes_record_and_name_entry() {
    let mut store = Storage::new();
    let rec = store.create_spreadsheet(String::from("doomed"), 2, 2).unwrap();
    assert!(store.delete_spreadsheet(&rec.id));
    assert!(store.get_spreadsheet(&rec.id).is_none());
    assert!(store.get_by_name("doomed").is_none());
    assert!(!store.delete_spreadsheet(&rec.id));
    assert_eq!(store.list_spreadsheets().len(), 0);
}

#[test]
fn rename_moves_the_name_index_entry_atomically() {
    let mut store = Storage::new();
    let rec = store.create_spreadsheet(String::from("before"), 2, 2).unwrap();
    let updated = store
        .update_spreadsheet(&rec.id, Some(String::from("after")), None)
        .expect("rename succeeds");
    assert_eq!(updated.name, "after");
    assert!(store.get_by_name("before").is_none());
    let resolved = store.get_by_name("after").expect("new name resolves");
    assert_eq!(resolved.id, rec.id);
    assert_eq!(resolved.content, rec.content);
}

#[test]
fn update_of_missing_record_is_not_found() {
    let mut store = Storage::new();
    let r = store.update_spreadsheet("no-such-id", Some(String::from("x")), None);
    assert_eq!(r.unwrap_err(), StoreError::NotFound);
}

#[test]
fn create_with_taken_name_is_refused() {
    let mut store = Storage::new();
    store.create_spreadsheet(String::from("taken"), 1, 1).unwrap();
    assert!(store.create_spreadsheet(String::from("taken"), 1, 1).is_none());
    assert_eq!(store.list_spreadsheets().len(), 1);
}

#[test]
fn rename_to_taken_name_is_refused_but_keeping_own_name_is_allowed() {
    let mut store = Storage::new();
    let a = store.create_spreadsheet(String::from("alpha"), 1, 1).unwrap();
    store.create_spreadsheet(String::from("beta"), 1, 1).unwrap();
    let r = store.update_spreadsheet(&a.id, Some(String::from("beta")), None);
    assert_eq!(r.unwrap_err(), StoreError::NameTaken);
    assert!(store.get_by_name("alpha").is_some());
    let same = store.update_spreadsheet(&a.id, Some(String::from("alpha")), None);
    assert_eq!(same.unwrap().name, "alpha");
    assert_eq!(store.get_by_name("alpha").unwrap().id, a.id);
}

#[test]
fn content_update_replaces_verbatim_and_keeps_name() {
    let mut store = Storage::new();
    let rec = store.create_spreadsheet(String::from("sheet"), 2, 2).unwrap();
    let updated = store
        .update_spreadsheet(&rec.id, None, Some(String::from("1,2\n3,4")))
        .expect("content update succeeds");
    assert_eq!(updated.content, "1,2\n3,4");
    assert_eq!(updated.name, "sheet");
    assert_eq!(updated.created_at, rec.created_at);
    assert_eq!(store.get_by_name("sheet").unwrap().content, "1,2\n3,4");
}

#[test]
fn partial_patch_applies_good_edits_and_skips_bad_ones() {
    let mut store = Storage::new();
    let rec = store.create_spreadsheet(String::from("patched"), 3, 3).unwrap();
    let edits = vec![
        (0usize, 0usize, String::from("5")),
        (99usize, 99usize, String::from("bad")),
    ];
    let updated = store.update_cells(&rec.id, &edits).expect("patch succeeds");
    assert_eq!(updated.content, "5,,\n,,\n,,");
    let lines: Vec<&str> = updated.content.split('\n').collect();
    assert_eq!(lines.len(), 3);
    assert_eq!(lines[0], "5,,");
}

#[test]
fn patch_of_missing_record_is_not_found() {
    let mut store = Storage::new();
    let edits = vec![(0usize, 0usize, String::from("1"))];
    assert!(store.update_cells("no-such-id", &edits).is_none());
}

#[test]
fn patch_reads_the_records_own_shape() {
    let mut store = Storage::new();
    let rec = store.create_spreadsheet(String::from("wide"), 2, 4).unwrap();
    let edits = vec![
        (1usize, 3usize, String::from("corner")),
        (2usize, 0usize, String::from("below")),
    ];
    let updated = store.update_cells(&rec.id, &edits).expect("patch succeeds");
    assert_eq!(updated.content, ",,,\n,,,corner");
}

#[test]
fn many_creates_yield_distinct_ids_and_exactly_that_many_records() {
    let mut store = Storage::new();
    let n = 20;
    let mut ids: Vec<String> = Vec::new();
    for k in 0..n {
        let rec = store
            .create_spreadsheet(format!("sheet-{}", k), 2, 2)
            .expect("names are distinct");
        ids.push(rec.id);
    }
    for i in 0..ids.len() {
        for j in (i + 1)..ids.len() {
            assert_ne!(ids[i], ids[j]);
        }
    }
    let listing = store.list_spreadsheets();
    assert_eq!(listing.len(), n);
    for id in &ids {
        assert!(listing.iter().any(|m| &m.id == id));
        assert!(store.get_spreadsheet(id).is_some());
    }
}

#[test]
fn listing_reflects_creations_updates_and_deletions() {
    let mut store = Storage::new();
    let a = store.create_spreadsheet(String::from("a"), 1, 1).unwrap();
    let b = store.create_spreadsheet(String::from("b"), 1, 1).unwrap();
    store.update_spreadsheet(&a.id, Some(String::from("a2")), None).unwrap();
    store.delete_spreadsheet(&b.id);
    let listing = store.list_spreadsheets();
    assert_eq!(listing.len(), 1);
    assert_eq!(listing[0].id, a.id);
    assert_eq!(listing[0].name, "a2");
}

#[test]
fn timestamps_do_not_go_backwards_across_an_update() {
    let mut store = Storage::new();
    let rec = store.create_spreadsheet(String::from("timed"), 1, 1).unwrap();
    let updated = store
        .update_spreadsheet(&rec.id, None, Some(String::from("x")))
        .unwrap();
    assert!(updated.updated_at >= rec.created_at);
    assert_eq!(updated.created_at, rec.created_at);
}
