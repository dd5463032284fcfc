use vstd::prelude::*;

verus! {

/// A stored spreadsheet: identity, name, serialized grid content, timestamps.
#[derive(Debug)]
pub struct SpreadsheetData {
    pub id: String,
    pub name: String,
    pub content: String,
    pub created_at: u64,
    pub updated_at: u64,
}

impl Clone for SpreadsheetData {
    fn clone(&self) -> (r: Self)
        ensures
            r == *self,
    {
        SpreadsheetData {
            id: self.id.clone(),
            name: self.name.clone(),
            content: self.content.clone(),
            created_at: self.created_at,
            updated_at: self.updated_at,
        }
    }
}

/// The lightweight projection of a record that listings return.
#[derive(Debug)]
pub struct SpreadsheetMetadata {
    pub id: String,
    pub name: String,
    pub created_at: u64,
    pub updated_at: u64,
}

impl Clone for SpreadsheetMetadata {
    fn clone(&self) -> (r: Self)
        ensures
            r == *self,
    {
        SpreadsheetMetadata {
            id: self.id.clone(),
            name: self.name.clone(),
            created_at: self.created_at,
            updated_at: self.updated_at,
        }
    }
}

/// A creation request: name and grid dimensions.
#[derive(Debug)]
pub struct NewSpreadsheet {
    pub name: String,
    pub rows: usize,
    pub cols: usize,
}

/// An update request: either field may be left alone.
#[derive(Debug)]
pub struct UpdateSpreadsheet {
    pub name: Option<String>,
    pub content: Option<String>,
}

/// One cell edit.
#[derive(Debug)]
pub struct CellUpdate {
    pub row: usize,
    pub col: usize,
    pub value: String,
}

/// A batch of cell edits, applied in order.
#[derive(Debug)]
pub struct CellUpdates {
    pub cells: Vec<CellUpdate>,
}

/// The envelope every operation's outcome is reported in.
#[derive(Debug)]
pub struct ApiResponse<T> {
    pub status: String,
    pub data: Option<T>,
    pub message: Option<String>,
}

/// Why a store operation was refused.
#[derive(Debug, Clone, Copy, PartialEq, Eq, Structural)]
pub enum StoreError {
    /// No live record has the given identifier.
    NotFound,
    /// Another live record already holds the requested name.
    NameTaken,
}

} // verus!
