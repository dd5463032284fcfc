use vstd::prelude::*;
use vstd::hash_map::StringHashMap;

use crate::grid;
use crate::grid::Spreadsheet;
use crate::models::SpreadsheetData;
use crate::models::SpreadsheetMetadata;
use crate::models::StoreError;

verus! {

/// Relies on uuid's `Uuid::new_v4` and its hyphenated `Display` form: a
/// freshly generated random identifier rendered as 36 characters. Nothing
/// else is assumed of the value; the store itself checks freshness.
#[verifier::external_body]
fn random_id_string() -> (r: String)
    ensures
        r@.len() == 36,
{
    uuid::Uuid::new_v4().to_string()
}

/// Relies on std's `SystemTime::now` and `duration_since`: seconds since the
/// Unix epoch, or zero when the clock reads earlier than the epoch. Nothing
/// is assumed of the value.
#[verifier::external_body]
fn current_unix_secs() -> u64 {
    match std::time::SystemTime::now().duration_since(std::time::UNIX_EPOCH) {
        Ok(d) => d.as_secs(),
        Err(_) => 0,
    }
}

/// Relies on std's `str` equality: true exactly when the two texts hold the
/// same characters.
#[verifier::external_body]
fn str_eq(a: &str, b: &str) -> (r: bool)
    ensures
        r == (a@ == b@),
{
    a == b
}

/// The record store: a primary table from identifier to record, a name index
/// from name to identifier, and the list of live identifiers for listings.
/// The two maps are never exposed; every operation keeps them coherent.
pub struct Storage {
    table: StringHashMap<SpreadsheetData>,
    name_index: StringHashMap<String>,
    ids: Vec<String>,
}

impl Storage {
    /// The primary table: identifier to record.
    pub closed spec fn records(&self) -> Map<Seq<char>, SpreadsheetData> {
        self.table@
    }

    /// The name index: name to identifier.
    pub closed spec fn names(&self) -> Map<Seq<char>, Seq<char>> {
        Map::new(
            |n: Seq<char>| self.name_index@.contains_key(n),
            |n: Seq<char>| self.name_index@[n]@,
        )
    }

    /// The store's invariant: records carry their own key, the name index
    /// holds exactly the live names and resolves each to the record that
    /// bears it, and the identifier list enumerates the table's keys once.
    pub closed spec fn inv(&self) -> bool {
        &&& forall|id: Seq<char>| #[trigger]
            self.table@.contains_key(id) ==> self.table@[id].id@ == id
        &&& forall|id: Seq<char>| #[trigger]
            self.table@.contains_key(id) ==> self.name_index@.contains_key(self.table@[id].name@)
                && self.name_index@[self.table@[id].name@]@ == id
        &&& forall|n: Seq<char>| #[trigger]
            self.name_index@.contains_key(n) ==> self.table@.contains_key(self.name_index@[n]@)
                && self.table@[self.name_index@[n]@].name@ == n
        &&& forall|i: int|
            0 <= i < self.ids@.len() ==> self.table@.contains_key(#[trigger] self.ids@[i]@)
        &&& forall|id: Seq<char>| #[trigger]
            self.table@.contains_key(id) ==> exists|i: int|
                0 <= i < self.ids@.len() && self.ids@[i]@ == id
        &&& forall|i: int, j: int|
            0 <= i < j < self.ids@.len() ==> #[trigger] self.ids@[i]@ != #[trigger] self.ids@[j]@
    }

    /// How many records are live.
    pub closed spec fn count(&self) -> nat {
        self.ids@.len()
    }

    /// An empty store.
    pub fn new() -> (s: Storage)
        ensures
            s.inv(),
            s.count() == 0,
            s.records() == Map::<Seq<char>, SpreadsheetData>::empty(),
            s.names() == Map::<Seq<char>, Seq<char>>::empty(),
    {
        let s = Storage {
            table: StringHashMap::new(),
            name_index: StringHashMap::new(),
            ids: Vec::new(),
        };
        proof {
            assert(s.names() =~= Map::<Seq<char>, Seq<char>>::empty());
        }
        s
    }

    /// Point lookup by identifier; a copy of the record, or nothing.
    pub fn get_spreadsheet(&self, id: &str) -> (result: Option<SpreadsheetData>)
        ensures
            match result {
                Some(r) => self.records().contains_key(id@) && r == self.records()[id@],
                None => !self.records().contains_key(id@),
            },
    {
        match self.table.get(id) {
            Some(r) => Some(r.clone()),
            None => None,
        }
    }

    /// Two-hop lookup: the name index resolves the name to an identifier,
    /// the primary table resolves the identifier to the record.
    pub fn get_by_name(&self, name: &str) -> (result: Option<SpreadsheetData>)
        requires
            self.inv(),
        ensures
            match result {
                Some(r) => self.records().contains_key(r.id@) && r == self.records()[r.id@]
                    && r.name@ == name@,
                None => forall|id: Seq<char>| #[trigger]
                    self.records().contains_key(id) ==> self.records()[id].name@ != name@,
            },
    {
        match self.name_index.get(name) {
            Some(id) => match self.table.get(id.as_str()) {
                Some(r) => Some(r.clone()),
                None => {
                    proof {
                        assert(false);
                    }
                    None
                },
            },
            None => None,
        }
    }
}

} // verus!
verus! {

/// An identifier that differs from every listed one: as long as the list,
/// and different from the j-th entry in its j-th character.
fn manufactured_id(ids: &Vec<String>) -> (r: String)
    ensures
        forall|j: int| 0 <= j < ids@.len() ==> r@ != #[trigger] ids@[j]@,
{
    let n = ids.len();
    let mut buf: Vec<char> = Vec::new();
    let mut i: usize = 0;
    while i < n
        invariant
            i <= n,
            n == ids@.len(),
            buf@.len() == i,
            forall|j: int|
                0 <= j < i && j < ids@[j]@.len() ==> #[trigger] buf@[j] != ids@[j]@[j],
        decreases n - i,
    {
        let entry = ids[i].as_str();
        let l = entry.unicode_len();
        let c: char = if i < l {
            if entry.get_char(i) == 'x' {
                'y'
            } else {
                'x'
            }
        } else {
            'x'
        };
        buf.push(c);
        i = i + 1;
    }
    let r = crate::grid::chars_to_string(&buf);
    proof {
        assert forall|j: int| 0 <= j < ids@.len() implies r@ != #[trigger] ids@[j]@ by {
            if ids@[j]@.len() == n as int {
                assert(r@[j] != ids@[j]@[j]);
            }
        }
    }
    r
}

/// What a listing returns: one metadata entry per live record, each drawn
/// from the record it names, with no identifier repeated.
pub open spec fn metadata_listing(s: &Storage, items: Seq<SpreadsheetMetadata>) -> bool {
    &&& forall|i: int|
        0 <= i < items.len() ==> s.records().contains_key(#[trigger] items[i].id@)
            && items[i].name@ == s.records()[items[i].id@].name@
            && items[i].created_at == s.records()[items[i].id@].created_at
            && items[i].updated_at == s.records()[items[i].id@].updated_at
    &&& forall|id: Seq<char>| #[trigger]
        s.records().contains_key(id) ==> exists|i: int| 0 <= i < items.len() && items[i].id@ == id
    &&& forall|i: int, j: int|
        0 <= i < j < items.len() ==> #[trigger] items[i].id@ != #[trigger] items[j].id@
}

/// Index of the identifier in the list, when present.
fn find_index(ids: &Vec<String>, id: &str) -> (r: Option<usize>)
    ensures
        match r {
            Some(i) => i < ids@.len() && ids@[i as int]@ == id@,
            None => forall|j: int| 0 <= j < ids@.len() ==> #[trigger] ids@[j]@ != id@,
        },
{
    let mut i: usize = 0;
    while i < ids.len()
        invariant
            i <= ids@.len(),
            forall|j: int| 0 <= j < i ==> #[trigger] ids@[j]@ != id@,
        decreases ids@.len() - i,
    {
        if str_eq(ids[i].as_str(), id) {
            return Some(i);
        }
        i = i + 1;
    }
    None
}

impl Storage {
    /// Metadata of every live record, one entry per record, in no promised
    /// order. A reader never sees a record mid-mutation: entries are copies.
    pub fn list_spreadsheets(&self) -> (result: Vec<SpreadsheetMetadata>)
        requires
            self.inv(),
        ensures
            metadata_listing(self, result@),
            result@.len() == self.count(),
    {
        let mut out: Vec<SpreadsheetMetadata> = Vec::new();
        let mut i: usize = 0;
        while i < self.ids.len()
            invariant
                self.inv(),
                i <= self.ids@.len(),
                out@.len() == i,
                forall|j: int| 0 <= j < i ==> #[trigger] out@[j].id@ == self.ids@[j]@,
                forall|j: int|
                    0 <= j < i ==> self.records().contains_key(#[trigger] out@[j].id@)
                        && out@[j].name@ == self.records()[out@[j].id@].name@
                        && out@[j].created_at == self.records()[out@[j].id@].created_at
                        && out@[j].updated_at == self.records()[out@[j].id@].updated_at,
            decreases self.ids@.len() - i,
        {
            match self.table.get(self.ids[i].as_str()) {
                Some(r) => {
                    out.push(
                        SpreadsheetMetadata {
                            id: r.id.clone(),
                            name: r.name.clone(),
                            created_at: r.created_at,
                            updated_at: r.updated_at,
                        },
                    );
                },
                None => {
                    proof {
                        assert(false);
                    }
                },
            }
            i = i + 1;
        }
        proof {
            assert forall|id2: Seq<char>| #[trigger] self.records().contains_key(id2)
                implies exists|k: int| 0 <= k < out@.len() && out@[k].id@ == id2 by {
                let k = choose|k: int| 0 <= k < self.ids@.len() && self.ids@[k]@ == id2;
                assert(out@[k].id@ == id2);
            }
            assert(metadata_listing(self, out@));
        }
        out
    }

    /// Creates a record under a fresh identifier with an empty grid of the
    /// given dimensions as content, and enters it into both structures as
    /// one step. A name already borne by a live record is refused, so names
    /// stay unique among live records.
    pub fn create_spreadsheet(&mut self, name: String, rows: usize, cols: usize) -> (result:
        Option<SpreadsheetData>)
        requires
            old(self).inv(),
        ensures
            final(self).inv(),
            match result {
                Some(r) => {
                    &&& final(self).count() == old(self).count() + 1
                    &&& !old(self).names().contains_key(name@)
                    &&& !old(self).records().contains_key(r.id@)
                    &&& r.name@ == name@
                    &&& r.content@ == grid::csv_of(grid::empty_grid(rows as int, cols as int))
                    &&& r.created_at == r.updated_at
                    &&& final(self).records() == old(self).records().insert(r.id@, r)
                    &&& final(self).names() == old(self).names().insert(name@, r.id@)
                },
                None => old(self).names().contains_key(name@) && final(self).count() == old(
                    self,
                ).count() && final(self).records() == old(self).records() && final(self).names()
                    == old(self).names(),
            },
    {
        if self.name_index.contains_key(name.as_str()) {
            return None;
        }
        let mut id = random_id_string();
        if self.table.contains_key(id.as_str()) {
            id = manufactured_id(&self.ids);
            proof {
                assert(!self.table@.contains_key(id@)) by {
                    if self.table@.contains_key(id@) {
                        let j = choose|j: int|
                            0 <= j < self.ids@.len() && self.ids@[j]@ == id@;
                    }
                }
            }
        }
        let now = current_unix_secs();
        let sheet = Spreadsheet::new(rows, cols);
        let content = sheet.export_csv();
        let record = SpreadsheetData {
            id: id.clone(),
            name: name.clone(),
            content,
            created_at: now,
            updated_at: now,
        };
        self.table.insert(id.clone(), record.clone());
        self.name_index.insert(name, id.clone());
        self.ids.push(id);
        proof {
            assert(final(self).names() =~= old(self).names().insert(
                record.name@,
                record.id@,
            ));
            assert forall|id2: Seq<char>| #[trigger]
                self.table@.contains_key(id2) implies exists|i: int|
                0 <= i < self.ids@.len() && self.ids@[i]@ == id2 by {
                if id2 == record.id@ {
                    assert(self.ids@[self.ids@.len() - 1]@ == id2);
                } else {
                    let i = choose|i: int|
                        0 <= i < old(self).ids@.len() && old(self).ids@[i]@ == id2;
                    assert(self.ids@[i]@ == id2);
                }
            }
        }
        Some(record)
    }

    /// Replaces a record's name and/or content; the record, both indices and
    /// the timestamp change as one step. Renaming to a name borne by another
    /// live record is refused.
    pub fn update_spreadsheet(
        &mut self,
        id: &str,
        name: Option<String>,
        content: Option<String>,
    ) -> (result: Result<SpreadsheetData, StoreError>)
        requires
            old(self).inv(),
        ensures
            final(self).inv(),
            match result {
                Ok(r) => {
                    let prev = old(self).records()[id@];
                    &&& old(self).records().contains_key(id@)
                    &&& r.id@ == id@
                    &&& r.name@ == (match name {
                        Some(n) => n@,
                        None => prev.name@,
                    })
                    &&& r.content@ == (match content {
                        Some(c) => c@,
                        None => prev.content@,
                    })
                    &&& r.created_at == prev.created_at
                    &&& final(self).records() == old(self).records().insert(id@, r)
                    &&& final(self).names() == (match name {
                        Some(n) => old(self).names().remove(prev.name@).insert(n@, id@),
                        None => old(self).names(),
                    })
                    &&& (name matches Some(n) && n@ != prev.name@ ==> !final(self).names().contains_key(prev.name@))
                    &&& (name matches Some(n) ==> final(self).names().contains_key(n@) && final(self).names()[n@] == id@ && final(self).records()[id@].name@ == n@)
                },
                Err(StoreError::NotFound) => !old(self).records().contains_key(id@) && final(self).records() == old(self).records() && final(self).names() == old(self).names(),
                Err(StoreError::NameTaken) => old(self).records().contains_key(id@) && (
                name matches Some(n) && old(self).names().contains_key(n@) && old(self).names()[n@]
                    != id@) && final(self).records() == old(self).records() && final(self).names()
                    == old(self).names(),
            },
    {
        let prev = match self.table.get(id) {
            Some(r) => r.clone(),
            None => {
                return Err(StoreError::NotFound);
            },
        };
        match &name {
            Some(n) => {
                match self.name_index.get(n.as_str()) {
                    Some(existing) => {
                        if !str_eq(existing.as_str(), id) {
                            return Err(StoreError::NameTaken);
                        }
                    },
                    None => {},
                }
            },
            None => {},
        }
        let new_name = match &name {
            Some(n) => n.clone(),
            None => prev.name.clone(),
        };
        let new_content = match &content {
            Some(c) => c.clone(),
            None => prev.content.clone(),
        };
        let now = current_unix_secs();
        let r = SpreadsheetData {
            id: prev.id.clone(),
            name: new_name.clone(),
            content: new_content,
            created_at: prev.created_at,
            updated_at: now,
        };
        self.table.insert(prev.id.clone(), r.clone());
        if name.is_some() {
            self.name_index.remove(prev.name.as_str());
            self.name_index.insert(new_name, r.id.clone());
        }
        proof {
            if name is Some {
                assert(final(self).names() =~= old(self).names().remove(
                    old(self).records()[id@].name@,
                ).insert(r.name@, id@));
            } else {
                assert(final(self).names() =~= old(self).names());
            }
            assert forall|id2: Seq<char>| #[trigger]
                self.table@.contains_key(id2) implies exists|i: int|
                0 <= i < self.ids@.len() && self.ids@[i]@ == id2 by {
                let i = choose|i: int| 0 <= i < old(self).ids@.len() && old(self).ids@[i]@ == id2;
                assert(self.ids@[i]@ == id2);
            }
        }
        Ok(r)
    }

    /// Removes the record and its name-index entry in one step; true when a
    /// record was there to remove.
    pub fn delete_spreadsheet(&mut self, id: &str) -> (deleted: bool)
        requires
            old(self).inv(),
        ensures
            final(self).inv(),
            deleted == old(self).records().contains_key(id@),
            deleted ==> final(self).count() + 1 == old(self).count(),
            !deleted ==> final(self).count() == old(self).count(),
            deleted ==> {
                let name = old(self).records()[id@].name@;
                &&& final(self).records() == old(self).records().remove(id@)
                &&& final(self).names() == old(self).names().remove(name)
                &&& !final(self).records().contains_key(id@)
                &&& !final(self).names().contains_key(name)
            },
            !deleted ==> final(self).records() == old(self).records() && final(self).names()
                == old(self).names(),
    {
        let prev_name = match self.table.get(id) {
            Some(r) => r.name.clone(),
            None => {
                return false;
            },
        };
        self.table.remove(id);
        self.name_index.remove(prev_name.as_str());
        match find_index(&self.ids, id) {
            Some(i) => {
                self.ids.remove(i);
            },
            None => {
                proof {
                    let k = choose|k: int|
                        0 <= k < old(self).ids@.len() && old(self).ids@[k]@ == id@;
                    assert(false);
                }
            },
        }
        proof {
            assert(final(self).names() =~= old(self).names().remove(
                old(self).records()[id@].name@,
            ));
            assert forall|id2: Seq<char>| #[trigger]
                self.table@.contains_key(id2) implies exists|i: int|
                0 <= i < self.ids@.len() && self.ids@[i]@ == id2 by {
                let k = choose|k: int| 0 <= k < old(self).ids@.len() && old(self).ids@[k]@ == id2;
                let i = choose|i: int| 0 <= i < old(self).ids@.len() && old(self).ids@[i]@ == id@;
                if k < i {
                    assert(self.ids@[k]@ == id2);
                } else {
                    assert(self.ids@[k - 1]@ == id2);
                }
            }
        }
        true
    }

    /// Applies a batch of cell edits to a record's content, best-effort: the
    /// stored text is read as a grid of its own persisted shape, each edit
    /// is applied through one grid-engine assignment, a rejected edit is
    /// skipped, and the resulting grid is serialized back.
    pub fn update_cells(&mut self, id: &str, updates: &[(usize, usize, String)]) -> (result:
        Option<SpreadsheetData>)
        requires
            old(self).inv(),
        ensures
            final(self).inv(),
            match result {
                Some(r) => {
                    let prev = old(self).records()[id@];
                    &&& old(self).records().contains_key(id@)
                    &&& r.id@ == id@
                    &&& r.name@ == prev.name@
                    &&& r.created_at == prev.created_at
                    &&& r.content@ == grid::csv_of(
                        grid::apply_edits(
                            grid::loaded_grid(prev.content@),
                            updates@.map_values(|u: (usize, usize, String)| (u.0, u.1, u.2@)),
                        ),
                    )
                    &&& final(self).records() == old(self).records().insert(id@, r)
                    &&& final(self).names() == old(self).names()
                },
                None => !old(self).records().contains_key(id@) && final(self).records() == old(self).records() && final(self).names() == old(self).names(),
            },
    {
        let prev = match self.table.get(id) {
            Some(r) => r.clone(),
            None => {
                return None;
            },
        };
        let mut sheet = Spreadsheet::parse_csv(prev.content.as_str());
        sheet.apply_cell_edits(updates);
        let content = sheet.export_csv();
        let now = current_unix_secs();
        let r = SpreadsheetData {
            id: prev.id.clone(),
            name: prev.name.clone(),
            content,
            created_at: prev.created_at,
            updated_at: now,
        };
        self.table.insert(prev.id.clone(), r.clone());
        proof {
            assert(final(self).names() =~= old(self).names());
            assert forall|id2: Seq<char>| #[trigger]
                self.table@.contains_key(id2) implies exists|i: int|
                0 <= i < self.ids@.len() && self.ids@[i]@ == id2 by {
                let i = choose|i: int| 0 <= i < old(self).ids@.len() && old(self).ids@[i]@ == id2;
                assert(self.ids@[i]@ == id2);
            }
        }
        Some(r)
    }
}

/// Index coherence: at any point where the invariant holds, the name index
/// holds exactly one entry per live record, keyed by the record's name and
/// resolving to the record's identifier.
pub proof fn lemma_index_coherent(s: &Storage)
    requires
        s.inv(),
    ensures
        forall|n: Seq<char>|
            #[trigger] s.names().contains_key(n) <==> exists|id: Seq<char>|
                #[trigger] s.records().contains_key(id) && s.records()[id].name@ == n,
        forall|n: Seq<char>| #[trigger]
            s.names().contains_key(n) ==> s.records().contains_key(s.names()[n])
                && s.records()[s.names()[n]].name@ == n,
        forall|id: Seq<char>| #[trigger]
            s.records().contains_key(id) ==> s.names().contains_key(s.records()[id].name@)
                && s.names()[s.records()[id].name@] == id,
{
    assert forall|n: Seq<char>| #[trigger] s.names().contains_key(n) implies exists|
        id: Seq<char>,
    |
        #[trigger] s.records().contains_key(id) && s.records()[id].name@ == n by {
        assert(s.records().contains_key(s.names()[n]) && s.records()[s.names()[n]].name@ == n);
    }
}

} // verus!
