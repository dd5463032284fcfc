use vstd::prelude::*;

use crate::grid;
use crate::models::ApiResponse;
use crate::models::CellUpdates;
use crate::models::NewSpreadsheet;
use crate::models::SpreadsheetData;
use crate::models::SpreadsheetMetadata;
use crate::models::StoreError;
use crate::models::UpdateSpreadsheet;
use crate::storage::Storage;

verus! {

/// A refused request: the protocol status code and the error envelope.
#[derive(Debug)]
pub struct ErrorResponse {
    pub status_code: u16,
    pub body: ApiResponse<()>,
}

fn success_string() -> (s: String)
    ensures
        s@ == "success"@,
{
    <String as vstd::string::StringExecFns>::from_str("success")
}

fn error_string() -> (s: String)
    ensures
        s@ == "error"@,
{
    <String as vstd::string::StringExecFns>::from_str("error")
}

/// The message that names a missing identifier.
pub open spec fn missing_id_message(id: Seq<char>) -> Seq<char> {
    "Spreadsheet with ID "@ + id + " not found"@
}

/// The message that names a missing name.
pub open spec fn missing_name_message(name: Seq<char>) -> Seq<char> {
    "Spreadsheet with name '"@ + name + "' not found"@
}

/// The message that names a taken name.
pub open spec fn name_taken_message(name: Seq<char>) -> Seq<char> {
    "Spreadsheet name '"@ + name + "' is already in use"@
}

/// The message that confirms a deletion.
pub open spec fn deleted_message(id: Seq<char>) -> Seq<char> {
    "Spreadsheet with ID "@ + id + " deleted"@
}

fn not_found_id_response(id: &str) -> (e: ErrorResponse)
    ensures
        e.status_code == 404,
        e.body.status@ == "error"@,
        e.body.data is None,
        e.body.message matches Some(m) && m@ == missing_id_message(id@),
{
    let mut m = <String as vstd::string::StringExecFns>::from_str("Spreadsheet with ID ");
    m.append(id);
    m.append(" not found");
    ErrorResponse {
        status_code: 404,
        body: ApiResponse { status: error_string(), data: None, message: Some(m) },
    }
}

fn not_found_name_response(name: &str) -> (e: ErrorResponse)
    ensures
        e.status_code == 404,
        e.body.status@ == "error"@,
        e.body.data is None,
        e.body.message matches Some(m) && m@ == missing_name_message(name@),
{
    let mut m = <String as vstd::string::StringExecFns>::from_str("Spreadsheet with name '");
    m.append(name);
    m.append("' not found");
    ErrorResponse {
        status_code: 404,
        body: ApiResponse { status: error_string(), data: None, message: Some(m) },
    }
}

fn name_taken_response(name: &str) -> (e: ErrorResponse)
    ensures
        e.status_code == 409,
        e.body.status@ == "error"@,
        e.body.data is None,
        e.body.message matches Some(m) && m@ == name_taken_message(name@),
{
    let mut m = <String as vstd::string::StringExecFns>::from_str("Spreadsheet name '");
    m.append(name);
    m.append("' is already in use");
    ErrorResponse {
        status_code: 409,
        body: ApiResponse { status: error_string(), data: None, message: Some(m) },
    }
}

/// Lists all spreadsheets' metadata.
pub fn list_spreadsheets(storage: &Storage) -> (resp: ApiResponse<Vec<SpreadsheetMetadata>>)
    requires
        storage.inv(),
    ensures
        resp.status@ == "success"@,
        resp.message is None,
        resp.data is Some,
        crate::storage::metadata_listing(storage, resp.data->Some_0@),
{
    let items = storage.list_spreadsheets();
    let ghost iv = items@;
    let resp = ApiResponse { status: success_string(), data: Some(items), message: None };
    proof {
        assert(resp.data->Some_0@ == iv);
    }
    resp
}

/// Gets one spreadsheet by identifier, or a not-found error naming it.
pub fn get_spreadsheet(id: &str, storage: &Storage) -> (result: Result<
    ApiResponse<SpreadsheetData>,
    ErrorResponse,
>)
    ensures
        match result {
            Ok(resp) => storage.records().contains_key(id@) && resp.status@ == "success"@
                && resp.message is None && (resp.data matches Some(r) && r == storage.records()[id@]),
            Err(e) => !storage.records().contains_key(id@) && e.status_code == 404
                && e.body.status@ == "error"@ && e.body.data is None
                && (e.body.message matches Some(m) && m@ == missing_id_message(id@)),
        },
{
    match storage.get_spreadsheet(id) {
        Some(r) => Ok(ApiResponse { status: success_string(), data: Some(r), message: None }),
        None => Err(not_found_id_response(id)),
    }
}

/// Gets one spreadsheet by name, or a not-found error naming it.
pub fn get_spreadsheet_by_name(name: &str, storage: &Storage) -> (result: Result<
    ApiResponse<SpreadsheetData>,
    ErrorResponse,
>)
    requires
        storage.inv(),
    ensures
        match result {
            Ok(resp) => resp.status@ == "success"@ && resp.message is None
                && (resp.data matches Some(r) && storage.records().contains_key(r.id@) && r
                == storage.records()[r.id@] && r.name@ == name@),
            Err(e) => (forall|id: Seq<char>| #[trigger]
                storage.records().contains_key(id) ==> storage.records()[id].name@ != name@)
                && e.status_code == 404 && e.body.status@ == "error"@ && e.body.data is None
                && (e.body.message matches Some(m) && m@ == missing_name_message(name@)),
        },
{
    match storage.get_by_name(name) {
        Some(r) => Ok(ApiResponse { status: success_string(), data: Some(r), message: None }),
        None => Err(not_found_name_response(name)),
    }
}

/// Creates a spreadsheet from a request, or a conflict error when the name is
/// already borne by a live record.
pub fn create_spreadsheet(new_spreadsheet: NewSpreadsheet, storage: &mut Storage) -> (result:
    Result<ApiResponse<SpreadsheetData>, ErrorResponse>)
    requires
        old(storage).inv(),
    ensures
        final(storage).inv(),
        match result {
            Ok(resp) => resp.status@ == "success"@ && resp.message is None
                && (resp.data matches Some(r) && {
                &&& !old(storage).names().contains_key(new_spreadsheet.name@)
                &&& !old(storage).records().contains_key(r.id@)
                &&& r.name@ == new_spreadsheet.name@
                &&& r.content@ == grid::csv_of(
                    grid::empty_grid(new_spreadsheet.rows as int, new_spreadsheet.cols as int),
                )
                &&& r.created_at == r.updated_at
                &&& final(storage).records() == old(storage).records().insert(r.id@, r)
                &&& final(storage).names() == old(storage).names().insert(
                    new_spreadsheet.name@,
                    r.id@,
                )
            }),
            Err(e) => old(storage).names().contains_key(new_spreadsheet.name@) && final(storage).records() == old(storage).records() && final(storage).names() == old(storage).names()
                && e.status_code == 409 && e.body.status@ == "error"@ && e.body.data is None
                && (e.body.message matches Some(m) && m@ == name_taken_message(
                new_spreadsheet.name@,
            )),
        },
{
    let name_copy = new_spreadsheet.name.clone();
    match storage.create_spreadsheet(
        new_spreadsheet.name,
        new_spreadsheet.rows,
        new_spreadsheet.cols,
    ) {
        Some(r) => Ok(ApiResponse { status: success_string(), data: Some(r), message: None }),
        None => Err(name_taken_response(name_copy.as_str())),
    }
}

/// Renames a spreadsheet and/or replaces its content.
pub fn update_spreadsheet(
    id: &str,
    update: UpdateSpreadsheet,
    storage: &mut Storage,
) -> (result: Result<ApiResponse<SpreadsheetData>, ErrorResponse>)
    requires
        old(storage).inv(),
    ensures
        final(storage).inv(),
        match result {
            Ok(resp) => resp.status@ == "success"@ && resp.message is None
                && (resp.data matches Some(r) && {
                let prev = old(storage).records()[id@];
                &&& old(storage).records().contains_key(id@)
                &&& r.id@ == id@
                &&& r.name@ == (match update.name {
                    Some(n) => n@,
                    None => prev.name@,
                })
                &&& r.content@ == (match update.content {
                    Some(c) => c@,
                    None => prev.content@,
                })
                &&& r.created_at == prev.created_at
                &&& final(storage).records() == old(storage).records().insert(id@, r)
                &&& final(storage).names() == (match update.name {
                    Some(n) => old(storage).names().remove(prev.name@).insert(n@, id@),
                    None => old(storage).names(),
                })
            }),
            Err(e) => final(storage).records() == old(storage).records() && final(storage).names()
                == old(storage).names() && e.body.status@ == "error"@ && e.body.data is None && (
            (!old(storage).records().contains_key(id@) && e.status_code == 404
                && (e.body.message matches Some(m) && m@ == missing_id_message(id@))) || (old(storage).records().contains_key(id@) && (update.name matches Some(n) && old(storage).names().contains_key(n@) && old(storage).names()[n@] != id@ && e.status_code == 409
                && (e.body.message matches Some(m) && m@ == name_taken_message(n@))))),
        },
{
    let name_copy = match &update.name {
        Some(n) => Some(n.clone()),
        None => None,
    };
    match storage.update_spreadsheet(id, update.name, update.content) {
        Ok(r) => Ok(ApiResponse { status: success_string(), data: Some(r), message: None }),
        Err(StoreError::NotFound) => Err(not_found_id_response(id)),
        Err(StoreError::NameTaken) => {
            match name_copy {
                Some(n) => Err(name_taken_response(n.as_str())),
                None => {
                    proof {
                        assert(false);
                    }
                    Err(not_found_id_response(id))
                },
            }
        },
    }
}

/// Deletes a spreadsheet, confirming with a message that names it.
pub fn delete_spreadsheet(id: &str, storage: &mut Storage) -> (result: Result<
    ApiResponse<()>,
    ErrorResponse,
>)
    requires
        old(storage).inv(),
    ensures
        final(storage).inv(),
        match result {
            Ok(resp) => {
                let name = old(storage).records()[id@].name@;
                &&& old(storage).records().contains_key(id@)
                &&& final(storage).records() == old(storage).records().remove(id@)
                &&& final(storage).names() == old(storage).names().remove(name)
                &&& !final(storage).records().contains_key(id@)
                &&& !final(storage).names().contains_key(name)
                &&& resp.status@ == "success"@
                &&& resp.data is None
                &&& resp.message matches Some(m) && m@ == deleted_message(id@)
            },
            Err(e) => !old(storage).records().contains_key(id@) && final(storage).records() == old(storage).records() && final(storage).names() == old(storage).names() && e.status_code == 404
                && e.body.status@ == "error"@ && e.body.data is None
                && (e.body.message matches Some(m) && m@ == missing_id_message(id@)),
        },
{
    if storage.delete_spreadsheet(id) {
        let mut m = <String as vstd::string::StringExecFns>::from_str("Spreadsheet with ID ");
        m.append(id);
        m.append(" deleted");
        Ok(ApiResponse { status: success_string(), data: None, message: Some(m) })
    } else {
        Err(not_found_id_response(id))
    }
}

/// The edits a batch of cell updates denotes, in order.
pub open spec fn edits_of(cells: Seq<crate::models::CellUpdate>) -> Seq<(usize, usize, Seq<char>)> {
    cells.map_values(|c: crate::models::CellUpdate| (c.row, c.col, c.value@))
}

/// Applies a batch of cell edits to a spreadsheet, best-effort per edit.
pub fn update_cells(id: &str, updates: CellUpdates, storage: &mut Storage) -> (result: Result<
    ApiResponse<SpreadsheetData>,
    ErrorResponse,
>)
    requires
        old(storage).inv(),
    ensures
        final(storage).inv(),
        match result {
            Ok(resp) => resp.status@ == "success"@ && resp.message is None
                && (resp.data matches Some(r) && {
                let prev = old(storage).records()[id@];
                &&& old(storage).records().contains_key(id@)
                &&& r.id@ == id@
                &&& r.name@ == prev.name@
                &&& r.created_at == prev.created_at
                &&& r.content@ == grid::csv_of(
                    grid::apply_edits(
                        grid::loaded_grid(prev.content@),
                        edits_of(updates.cells@),
                    ),
                )
                &&& final(storage).records() == old(storage).records().insert(id@, r)
                &&& final(storage).names() == old(storage).names()
            }),
            Err(e) => !old(storage).records().contains_key(id@) && final(storage).records() == old(storage).records() && final(storage).names() == old(storage).names() && e.status_code == 404
                && e.body.status@ == "error"@ && e.body.data is None
                && (e.body.message matches Some(m) && m@ == missing_id_message(id@)),
        },
{
    let mut tuples: Vec<(usize, usize, String)> = Vec::new();
    let mut i: usize = 0;
    while i < updates.cells.len()
        invariant
            i <= updates.cells@.len(),
            tuples@.len() == i,
            forall|j: int|
                0 <= j < i ==> #[trigger] tuples@[j] == (
                    updates.cells@[j].row,
                    updates.cells@[j].col,
                    updates.cells@[j].value,
                ),
        decreases updates.cells@.len() - i,
    {
        let cell = &updates.cells[i];
        tuples.push((cell.row, cell.col, cell.value.clone()));
        i = i + 1;
    }
    proof {
        assert(tuples@.map_values(|u: (usize, usize, String)| (u.0, u.1, u.2@)) =~= edits_of(
            updates.cells@,
        ));
    }
    match storage.update_cells(id, tuples.as_slice()) {
        Some(r) => Ok(ApiResponse { status: success_string(), data: Some(r), message: None }),
        None => Err(not_found_id_response(id)),
    }
}

/// Exports a spreadsheet's serialized content.
pub fn export_spreadsheet(id: &str, storage: &Storage) -> (result: Result<String, ErrorResponse>)
    ensures
        match result {
            Ok(c) => storage.records().contains_key(id@) && c@ == storage.records()[id@].content@,
            Err(e) => !storage.records().contains_key(id@) && e.status_code == 404
                && e.body.status@ == "error"@ && e.body.data is None
                && (e.body.message matches Some(m) && m@ == missing_id_message(id@)),
        },
{
    match storage.get_spreadsheet(id) {
        Some(r) => Ok(r.content),
        None => Err(not_found_id_response(id)),
    }
}

/// Replaces a spreadsheet's content with imported text.
pub fn import_spreadsheet(id: &str, csv_data: String, storage: &mut Storage) -> (result: Result<
    ApiResponse<SpreadsheetData>,
    ErrorResponse,
>)
    requires
        old(storage).inv(),
    ensures
        final(storage).inv(),
        match result {
            Ok(resp) => resp.status@ == "success"@ && resp.message is None
                && (resp.data matches Some(r) && {
                let prev = old(storage).records()[id@];
                &&& old(storage).records().contains_key(id@)
                &&& r.id@ == id@
                &&& r.name@ == prev.name@
                &&& r.content@ == csv_data@
                &&& r.created_at == prev.created_at
                &&& final(storage).records() == old(storage).records().insert(id@, r)
                &&& final(storage).names() == old(storage).names()
            }),
            Err(e) => !old(storage).records().contains_key(id@) && final(storage).records() == old(storage).records() && final(storage).names() == old(storage).names() && e.status_code == 404
                && e.body.status@ == "error"@ && e.body.data is None
                && (e.body.message matches Some(m) && m@ == missing_id_message(id@)),
        },
{
    match storage.update_spreadsheet(id, None, Some(csv_data)) {
        Ok(r) => Ok(ApiResponse { status: success_string(), data: Some(r), message: None }),
        Err(StoreError::NotFound) => Err(not_found_id_response(id)),
        Err(StoreError::NameTaken) => {
            proof {
                assert(false);
            }
            Err(not_found_id_response(id))
        },
    }
}

} // verus!
