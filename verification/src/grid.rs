use vstd::prelude::*;

verus! {

// ---------------------------------------------------------------------------
// Character classes and separators
// ---------------------------------------------------------------------------

/// A cell text is safe for the comma/newline grid serialization when it
/// contains neither separator.
pub open spec fn csv_safe_char(c: char) -> bool {
    c != ',' && c != '\n'
}

pub open spec fn csv_safe(s: Seq<char>) -> bool {
    forall|i: int| 0 <= i < s.len() ==> csv_safe_char(#[trigger] s[i])
}

pub open spec fn sep_free(s: Seq<char>, sep: char) -> bool {
    forall|i: int| 0 <= i < s.len() ==> #[trigger] s[i] != sep
}

// ---------------------------------------------------------------------------
// Joining and splitting on a separator character
// ---------------------------------------------------------------------------

/// The text formed by the given parts with `sep` between adjacent parts.
pub open spec fn join(parts: Seq<Seq<char>>, sep: char) -> Seq<char>
    decreases parts.len(),
{
    if parts.len() == 0 {
        Seq::empty()
    } else if parts.len() == 1 {
        parts[0]
    } else {
        parts[0] + seq![sep] + join(parts.skip(1), sep)
    }
}

/// Index of the first occurrence of `sep` in `s`, or `s.len()` if absent.
pub open spec fn find_sep(s: Seq<char>, sep: char) -> int
    decreases s.len(),
{
    if s.len() == 0 {
        0
    } else if s[0] == sep {
        0
    } else {
        1 + find_sep(s.skip(1), sep)
    }
}

pub proof fn lemma_find_sep(s: Seq<char>, sep: char)
    ensures
        0 <= find_sep(s, sep) <= s.len(),
        forall|j: int| 0 <= j < find_sep(s, sep) ==> #[trigger] s[j] != sep,
        find_sep(s, sep) < s.len() ==> s[find_sep(s, sep)] == sep,
    decreases s.len(),
{
    if s.len() == 0 {
    } else if s[0] == sep {
    } else {
        lemma_find_sep(s.skip(1), sep);
        assert forall|j: int| 0 <= j < find_sep(s, sep) implies #[trigger] s[j] != sep by {
            if j > 0 {
                assert(s.skip(1)[j - 1] != sep);
            }
        }
        if find_sep(s, sep) < s.len() {
            assert(s.skip(1)[find_sep(s.skip(1), sep)] == sep);
        }
    }
}

/// `find_sep` is pinned down by its characteristic properties.
pub proof fn lemma_find_sep_unique(s: Seq<char>, sep: char, k: int)
    requires
        0 <= k <= s.len(),
        forall|j: int| 0 <= j < k ==> #[trigger] s[j] != sep,
        k < s.len() ==> s[k] == sep,
    ensures
        find_sep(s, sep) == k,
{
    lemma_find_sep(s, sep);
    let f = find_sep(s, sep);
    if f < k {
        assert(s[f] != sep);
    }
    if k < f {
        assert(s[k] != sep);
    }
}

pub proof fn lemma_find_sep_free(s: Seq<char>, sep: char)
    requires
        sep_free(s, sep),
    ensures
        find_sep(s, sep) == s.len(),
{
    lemma_find_sep_unique(s, sep, s.len() as int);
}

/// The first separator in `a + [sep] + b` sits right after `a` when `a` is
/// free of the separator.
pub proof fn lemma_find_sep_concat(a: Seq<char>, b: Seq<char>, sep: char)
    requires
        sep_free(a, sep),
    ensures
        find_sep(a + seq![sep] + b, sep) == a.len(),
{
    let s = a + seq![sep] + b;
    assert(s[a.len() as int] == sep);
    lemma_find_sep_unique(s, sep, a.len() as int);
}

/// The parts produced by splitting: at least one, each free of the separator.
pub open spec fn split(s: Seq<char>, sep: char) -> Seq<Seq<char>>
    decreases s.len(),
    via split_dec
{
    let i = find_sep(s, sep);
    if i == s.len() {
        seq![s]
    } else {
        seq![s.take(i)] + split(s.skip(i + 1), sep)
    }
}

#[via_fn]
proof fn split_dec(s: Seq<char>, sep: char) {
    lemma_find_sep(s, sep);
}

pub proof fn lemma_split_parts(s: Seq<char>, sep: char)
    ensures
        split(s, sep).len() >= 1,
        forall|k: int| 0 <= k < split(s, sep).len() ==> sep_free(#[trigger] split(s, sep)[k], sep),
    decreases s.len(),
{
    lemma_find_sep(s, sep);
    let i = find_sep(s, sep);
    if i == s.len() {
        assert(sep_free(s, sep));
    } else {
        lemma_split_parts(s.skip(i + 1), sep);
        assert(sep_free(s.take(i), sep));
        assert forall|k: int| 0 <= k < split(s, sep).len() implies sep_free(
            #[trigger] split(s, sep)[k],
            sep,
        ) by {
            if k > 0 {
                assert(split(s, sep)[k] == split(s.skip(i + 1), sep)[k - 1]);
            }
        }
    }
}

/// Splitting undoes joining, for a nonempty list of separator-free parts.
pub proof fn lemma_split_join(parts: Seq<Seq<char>>, sep: char)
    requires
        parts.len() >= 1,
        forall|k: int| 0 <= k < parts.len() ==> sep_free(#[trigger] parts[k], sep),
    ensures
        split(join(parts, sep), sep) == parts,
    decreases parts.len(),
{
    if parts.len() == 1 {
        lemma_find_sep_free(parts[0], sep);
        assert(split(join(parts, sep), sep) =~= parts);
    } else {
        let rest = join(parts.skip(1), sep);
        let s = parts[0] + seq![sep] + rest;
        lemma_find_sep_concat(parts[0], rest, sep);
        let i = parts[0].len() as int;
        assert(s.take(i) =~= parts[0]);
        assert(s.skip(i + 1) =~= rest);
        assert forall|k: int| 0 <= k < parts.skip(1).len() implies sep_free(
            #[trigger] parts.skip(1)[k],
            sep,
        ) by {
            assert(parts.skip(1)[k] == parts[k + 1]);
        }
        lemma_split_join(parts.skip(1), sep);
        assert(split(s, sep) =~= parts);
    }
}

/// Joining parts that avoid a character `c` (distinct from the separator)
/// yields a text that avoids `c`.
pub proof fn lemma_join_free(parts: Seq<Seq<char>>, sep: char, c: char)
    requires
        c != sep,
        forall|k: int| 0 <= k < parts.len() ==> sep_free(#[trigger] parts[k], c),
    ensures
        sep_free(join(parts, sep), c),
    decreases parts.len(),
{
    if parts.len() == 0 {
    } else if parts.len() == 1 {
        assert(sep_free(parts[0], c));
    } else {
        assert forall|k: int| 0 <= k < parts.skip(1).len() implies sep_free(
            #[trigger] parts.skip(1)[k],
            c,
        ) by {
            assert(parts.skip(1)[k] == parts[k + 1]);
        }
        lemma_join_free(parts.skip(1), sep, c);
        let s = parts[0] + seq![sep] + join(parts.skip(1), sep);
        assert(sep_free(parts[0], c));
        assert forall|i: int| 0 <= i < s.len() implies #[trigger] s[i] != c by {
            if i < parts[0].len() {
                assert(s[i] == parts[0][i]);
            } else if i > parts[0].len() {
                assert(s[i] == join(parts.skip(1), sep)[i - parts[0].len() - 1]);
            }
        }
    }
}

/// Appending one more part to a join.
pub proof fn lemma_join_push(parts: Seq<Seq<char>>, p: Seq<char>, sep: char)
    ensures
        join(parts.push(p), sep) == if parts.len() == 0 {
            p
        } else {
            join(parts, sep) + seq![sep] + p
        },
    decreases parts.len(),
{
    if parts.len() == 0 {
        assert(parts.push(p)[0] == p);
        assert(join(parts.push(p), sep) == p);
    } else if parts.len() == 1 {
        assert(parts.push(p).skip(1) =~= seq![p]);
        assert(parts.push(p)[0] == parts[0]);
        assert(join(seq![p], sep) == seq![p][0]);
        assert(join(parts.push(p), sep) == parts[0] + seq![sep] + p);
        assert(join(parts, sep) == parts[0]);
    } else {
        assert(parts.push(p).skip(1) =~= parts.skip(1).push(p));
        lemma_join_push(parts.skip(1), p, sep);
        assert(join(parts, sep) == parts[0] + seq![sep] + join(parts.skip(1), sep));
        assert(join(parts.push(p), sep) == parts[0] + seq![sep] + join(parts.skip(1).push(p), sep));
        assert(join(parts.push(p), sep) =~= join(parts, sep) + seq![sep] + p);
    }
}

} // verus!
verus! {

// ---------------------------------------------------------------------------
// Grids as sequences of rows of cell texts
// ---------------------------------------------------------------------------

/// A grid of `rows` rows, each of `cols` cells, every cell free of the two
/// separators of the serialization.
pub open spec fn grid_wf(g: Seq<Seq<Seq<char>>>, rows: int, cols: int) -> bool {
    &&& g.len() == rows
    &&& forall|i: int| 0 <= i < g.len() ==> #[trigger] g[i].len() == cols
    &&& forall|i: int, j: int|
        0 <= i < g.len() && 0 <= j < g[i].len() ==> csv_safe(#[trigger] g[i][j])
}

pub open spec fn empty_grid(rows: int, cols: int) -> Seq<Seq<Seq<char>>> {
    Seq::new(rows as nat, |i: int| Seq::new(cols as nat, |j: int| Seq::<char>::empty()))
}

/// The serialized form: rows joined by newlines, cells within a row by commas.
pub open spec fn csv_of(g: Seq<Seq<Seq<char>>>) -> Seq<char> {
    join(g.map_values(|row: Seq<Seq<char>>| join(row, ',')), '\n')
}

/// The raw (possibly ragged) grid a text denotes.
pub open spec fn grid_of_csv(s: Seq<char>) -> Seq<Seq<Seq<char>>> {
    split(s, '\n').map_values(|line: Seq<char>| split(line, ','))
}

/// The widest row of a raw grid.
pub open spec fn max_cols(g: Seq<Seq<Seq<char>>>) -> int
    decreases g.len(),
{
    if g.len() == 0 {
        0
    } else if max_cols(g.drop_last()) >= g.last().len() {
        max_cols(g.drop_last())
    } else {
        g.last().len() as int
    }
}

/// Each row extended with empty cells up to width `cols`.
pub open spec fn pad_grid(g: Seq<Seq<Seq<char>>>, cols: int) -> Seq<Seq<Seq<char>>> {
    g.map_values(
        |row: Seq<Seq<char>>|
            if row.len() >= cols {
                row
            } else {
                row + Seq::new((cols - row.len()) as nat, |j: int| Seq::<char>::empty())
            },
    )
}

/// The rectangular grid the engine reads out of a serialized text: the raw
/// grid, each row padded to the widest row's width.
pub open spec fn loaded_grid(s: Seq<char>) -> Seq<Seq<Seq<char>>> {
    pad_grid(grid_of_csv(s), max_cols(grid_of_csv(s)))
}

/// Serializing a well-formed grid and reading the text back yields the same
/// grid, cell for cell.
pub proof fn lemma_csv_round_trip(g: Seq<Seq<Seq<char>>>, rows: int, cols: int)
    requires
        grid_wf(g, rows, cols),
        rows >= 1,
        cols >= 1,
    ensures
        grid_of_csv(csv_of(g)) == g,
        max_cols(g) == cols,
        loaded_grid(csv_of(g)) == g,
{
    let lines = g.map_values(|row: Seq<Seq<char>>| join(row, ','));
    assert forall|i: int| 0 <= i < lines.len() implies sep_free(#[trigger] lines[i], '\n') by {
        assert forall|k: int| 0 <= k < g[i].len() implies sep_free(#[trigger] g[i][k], '\n') by {
            assert(csv_safe(g[i][k]));
        }
        lemma_join_free(g[i], ',', '\n');
    }
    lemma_split_join(lines, '\n');
    assert forall|i: int| 0 <= i < g.len() implies #[trigger] grid_of_csv(csv_of(g))[i] == g[i] by {
        assert forall|k: int| 0 <= k < g[i].len() implies sep_free(#[trigger] g[i][k], ',') by {
            assert(csv_safe(g[i][k]));
        }
        lemma_split_join(g[i], ',');
        assert(grid_of_csv(csv_of(g))[i] == split(lines[i], ','));
    }
    assert(grid_of_csv(csv_of(g)) =~= g);
    lemma_max_cols_uniform(g, cols);
    assert(pad_grid(g, cols) =~= g);
}

pub proof fn lemma_max_cols_uniform(g: Seq<Seq<Seq<char>>>, cols: int)
    requires
        g.len() >= 1,
        forall|i: int| 0 <= i < g.len() ==> #[trigger] g[i].len() == cols,
    ensures
        max_cols(g) == cols,
    decreases g.len(),
{
    if g.len() == 1 {
        assert(max_cols(g.drop_last()) == 0);
    } else {
        lemma_max_cols_uniform(g.drop_last(), cols);
    }
}

/// `max_cols` bounds every row and is reached by one of them.
pub proof fn lemma_max_cols_bound(g: Seq<Seq<Seq<char>>>)
    ensures
        forall|i: int| 0 <= i < g.len() ==> #[trigger] g[i].len() <= max_cols(g),
        g.len() >= 1 ==> exists|i: int| 0 <= i < g.len() && #[trigger] g[i].len() == max_cols(g),
    decreases g.len(),
{
    if g.len() > 0 {
        lemma_max_cols_bound(g.drop_last());
        assert forall|i: int| 0 <= i < g.len() implies #[trigger] g[i].len() <= max_cols(g) by {
            if i < g.len() - 1 {
                assert(g.drop_last()[i] == g[i]);
            }
        }
        if g.len() >= 1 {
            if max_cols(g.drop_last()) >= g.last().len() && g.len() > 1 {
                let w = choose|i: int|
                    0 <= i < g.drop_last().len() && #[trigger] g.drop_last()[i].len() == max_cols(
                        g.drop_last(),
                    );
                assert(g[w].len() == max_cols(g));
            } else {
                assert(g[g.len() - 1].len() == max_cols(g));
            }
        }
    }
}

} // verus!
verus! {

// ---------------------------------------------------------------------------
// The grid engine proper
// ---------------------------------------------------------------------------

/// An in-memory grid of cell texts, the working form of a spreadsheet's
/// serialized content.
pub struct Spreadsheet {
    rows: usize,
    cols: usize,
    cells: Vec<Vec<String>>,
}

impl View for Spreadsheet {
    type V = Seq<Seq<Seq<char>>>;

    closed spec fn view(&self) -> Seq<Seq<Seq<char>>> {
        self.cells.deep_view()
    }
}

impl Spreadsheet {
    pub closed spec fn spec_rows(&self) -> int {
        self.rows as int
    }

    pub closed spec fn spec_cols(&self) -> int {
        self.cols as int
    }

    pub open spec fn wf(&self) -> bool {
        grid_wf(self@, self.spec_rows(), self.spec_cols())
    }

    pub fn rows(&self) -> (r: usize)
        ensures
            r == self.spec_rows(),
    {
        self.rows
    }

    pub fn cols(&self) -> (r: usize)
        ensures
            r == self.spec_cols(),
    {
        self.cols
    }

    /// An empty grid of the given dimensions.
    pub fn new(rows: usize, cols: usize) -> (s: Self)
        ensures
            s.wf(),
            s.spec_rows() == rows,
            s.spec_cols() == cols,
            s@ == empty_grid(rows as int, cols as int),
    {
        let mut cells: Vec<Vec<String>> = Vec::new();
        let mut i: usize = 0;
        while i < rows
            invariant
                i <= rows,
                cells@.len() == i,
                forall|a: int|
                    0 <= a < i ==> #[trigger] cells@[a].deep_view() == Seq::new(
                        cols as nat,
                        |k: int| Seq::<char>::empty(),
                    ),
            decreases rows - i,
        {
            let mut row: Vec<String> = Vec::new();
            let mut j: usize = 0;
            proof {
                assert(row.deep_view() =~= Seq::new(0nat, |k: int| Seq::<char>::empty()));
            }
            while j < cols
                invariant
                    j <= cols,
                    row@.len() == j,
                    forall|k: int| 0 <= k < j ==> #[trigger] row@[k]@ == Seq::<char>::empty(),
                decreases cols - j,
            {
                row.push(String::new());
                j = j + 1;
            }
            proof {
                assert(row.deep_view() =~~= Seq::new(cols as nat, |k: int| Seq::<char>::empty()));
            }
            cells.push(row);
            i = i + 1;
        }
        proof {
            assert(cells.deep_view() =~~= empty_grid(rows as int, cols as int));
        }
        Spreadsheet { rows, cols, cells }
    }

    /// The text of one cell.
    pub fn cell_text(&self, row: usize, col: usize) -> (r: &String)
        requires
            row < self@.len(),
            col < self@[row as int].len(),
        ensures
            r@ == self@[row as int][col as int],
    {
        &self.cells[row][col]
    }

    /// Serializes the grid: rows joined by newlines, cells by commas.
    pub fn export_csv(&self) -> (r: String)
        requires
            self.wf(),
        ensures
            r@ == csv_of(self@),
    {
        let ghost lines = self@.map_values(|row: Seq<Seq<char>>| join(row, ','));
        let mut out = String::new();
        let mut i: usize = 0;
        while i < self.rows
            invariant
                self.wf(),
                i <= self.rows,
                lines == self@.map_values(|row: Seq<Seq<char>>| join(row, ',')),
                out@ == join(lines.take(i as int), '\n'),
            decreases self.rows - i,
        {
            if i > 0 {
                out.append("\n");
                proof {
                    reveal_strlit("\n");
                    assert("\n"@ =~= seq!['\n']);
                }
            }
            append_cells(&mut out, &self.cells[i]);
            proof {
                assert(self.cells[i as int].deep_view() == self@[i as int]);
                assert(lines.take(i + 1) =~= lines.take(i as int).push(lines[i as int]));
                lemma_join_push(lines.take(i as int), lines[i as int], '\n');
            }
            i = i + 1;
        }
        proof {
            assert(lines.take(self.rows as int) =~= lines);
        }
        out
    }
}

/// Appends a row's cells to `out`, comma-separated.
fn append_cells(out: &mut String, row: &Vec<String>)
    ensures
        final(out)@ == old(out)@ + join(row.deep_view(), ','),
{
    let ghost parts = row.deep_view();
    let mut j: usize = 0;
    while j < row.len()
        invariant
            j <= row.len(),
            parts == row.deep_view(),
            parts.len() == row.len(),
            out@ == old(out)@ + join(parts.take(j as int), ','),
        decreases row.len() - j,
    {
        if j > 0 {
            out.append(",");
            proof {
                reveal_strlit(",");
                assert(","@ =~= seq![',']);
            }
        }
        out.append(row[j].as_str());
        proof {
            assert(parts[j as int] == row[j as int]@);
            assert(parts.take(j + 1) =~= parts.take(j as int).push(parts[j as int]));
            lemma_join_push(parts.take(j as int), parts[j as int], ',');
        }
        j = j + 1;
    }
    proof {
        assert(parts.take(row.len() as int) =~= parts);
    }
}

} // verus!
verus! {

/// Parts of a split carry no character that the whole text lacked.
pub proof fn lemma_split_parts_other(s: Seq<char>, sep: char, c: char)
    requires
        sep_free(s, c),
    ensures
        forall|k: int| 0 <= k < split(s, sep).len() ==> sep_free(#[trigger] split(s, sep)[k], c),
    decreases s.len(),
{
    lemma_find_sep(s, sep);
    let i = find_sep(s, sep);
    if i == s.len() {
    } else {
        assert(sep_free(s.skip(i + 1), c));
        lemma_split_parts_other(s.skip(i + 1), sep, c);
        assert(sep_free(s.take(i), c));
        assert forall|k: int| 0 <= k < split(s, sep).len() implies sep_free(
            #[trigger] split(s, sep)[k],
            c,
        ) by {
            if k > 0 {
                assert(split(s, sep)[k] == split(s.skip(i + 1), sep)[k - 1]);
            }
        }
    }
}

/// Splits a text on a separator character, one owned part per segment.
fn split_string(s: &str, sep: char) -> (parts: Vec<String>)
    ensures
        parts.deep_view() == split(s@, sep),
{
    let len = s.unicode_len();
    let mut parts: Vec<String> = Vec::new();
    let mut start: usize = 0;
    let mut i: usize = 0;
    proof {
        assert(parts.deep_view() =~= Seq::<Seq<char>>::empty());
        assert(s@.skip(0int) =~= s@);
        assert(parts.deep_view() + split(s@, sep) =~= split(s@, sep));
    }
    while i < len
        invariant
            len == s@.len(),
            start <= i <= len,
            forall|j: int| start <= j < i ==> #[trigger] s@[j] != sep,
            split(s@, sep) == parts.deep_view() + split(s@.skip(start as int), sep),
        decreases len - i,
    {
        let c = s.get_char(i);
        if c == sep {
            let part = s.substring_char(start, i);
            let ghost prev = parts.deep_view();
            parts.push(<String as vstd::string::StringExecFns>::from_str(part));
            proof {
                let t = s@.skip(start as int);
                assert forall|j: int| 0 <= j < i - start implies #[trigger] t[j] != sep by {
                    assert(t[j] == s@[start + j]);
                }
                assert(t[i - start] == sep);
                lemma_find_sep_unique(t, sep, i - start);
                assert(t.take(i - start) =~= s@.subrange(start as int, i as int));
                assert(t.skip(i - start + 1) =~= s@.skip(i + 1));
                assert(parts.deep_view() =~= prev.push(part@));
                assert(prev + split(t, sep) =~= parts.deep_view() + split(s@.skip(i + 1), sep));
            }
            start = i + 1;
        }
        i = i + 1;
    }
    let last = s.substring_char(start, len);
    let ghost prev = parts.deep_view();
    parts.push(<String as vstd::string::StringExecFns>::from_str(last));
    proof {
        let t = s@.skip(start as int);
        assert forall|j: int| 0 <= j < t.len() implies #[trigger] t[j] != sep by {
            assert(t[j] == s@[start + j]);
        }
        lemma_find_sep_free(t, sep);
        assert(last@ =~= t);
        assert(parts.deep_view() =~= prev.push(last@));
        assert(prev + split(t, sep) =~= parts.deep_view());
    }
    parts
}

impl Spreadsheet {
    /// Reads a grid out of serialized text: rows are newline-separated,
    /// cells comma-separated, and every row is padded with empty cells to
    /// the width of the widest row. Any text has such a reading, so this
    /// parse does not fail.
    pub fn parse_csv(text: &str) -> (s: Self)
        ensures
            s.wf(),
            s@ == loaded_grid(text@),
            s.spec_rows() == grid_of_csv(text@).len(),
            s.spec_cols() == max_cols(grid_of_csv(text@)),
    {
        let ghost raw = grid_of_csv(text@);
        let lines = split_string(text, '\n');
        let mut cells: Vec<Vec<String>> = Vec::new();
        let mut maxc: usize = 0;
        let mut i: usize = 0;
        proof {
            assert(raw.take(0int) =~= Seq::<Seq<Seq<char>>>::empty());
        }
        while i < lines.len()
            invariant
                lines.deep_view() == split(text@, '\n'),
                raw == grid_of_csv(text@),
                i <= lines@.len(),
                cells@.len() == i,
                raw.len() == lines@.len(),
                forall|a: int|
                    0 <= a < i ==> #[trigger] cells@[a].deep_view() == raw[a],
                maxc as int == max_cols(raw.take(i as int)),
            decreases lines@.len() - i,
        {
            let row = split_string(lines[i].as_str(), ',');
            let rl = row.len();
            proof {
                assert(lines.deep_view()[i as int] == lines@[i as int]@);
                assert(raw[i as int] == split(lines@[i as int]@, ','));
                assert(raw.take(i + 1).drop_last() =~= raw.take(i as int));
                assert(raw.take(i + 1).last() == raw[i as int]);
            }
            if rl > maxc {
                maxc = rl;
            }
            cells.push(row);
            i = i + 1;
        }
        proof {
            assert(raw.take(i as int) =~= raw);
        }
        // Pad every row to the widest row's width.
        let rows_n = lines.len();
        let ghost padded_spec = pad_grid(raw, maxc as int);
        let mut padded: Vec<Vec<String>> = Vec::new();
        let mut k: usize = 0;
        while k < rows_n
            invariant
                padded_spec == pad_grid(raw, maxc as int),
                raw.len() == rows_n,
                k <= rows_n,
                cells@.len() == rows_n - k,
                padded@.len() == k,
                forall|a: int|
                    0 <= a < rows_n - k ==> #[trigger] cells@[a].deep_view() == raw[a + k],
                forall|a: int|
                    0 <= a < k ==> #[trigger] padded@[a].deep_view() == padded_spec[a],
            decreases rows_n - k,
        {
            let ghost prev = cells@;
            let mut row = cells.remove(0);
            let ghost orig = row.deep_view();
            proof {
                assert(orig == raw[k as int]);
                assert forall|a: int| 0 <= a < rows_n - (k + 1)
                    implies #[trigger] cells@[a].deep_view() == raw[a + (k + 1)] by {
                    assert(cells@[a] == prev[a + 1]);
                    assert(prev[a + 1].deep_view() == raw[(a + 1) + k]);
                }
            }
            while row.len() < maxc
                invariant
                    orig.len() <= row@.len() <= maxc || row@.len() == orig.len(),
                    forall|j: int| 0 <= j < orig.len() ==> #[trigger] row@[j].deep_view() == orig[j],
                    forall|j: int|
                        orig.len() <= j < row@.len() ==> #[trigger] row@[j]@ == Seq::<char>::empty(),
                decreases maxc - row@.len(),
            {
                row.push(String::new());
            }
            proof {
                assert(padded_spec[k as int] == if orig.len() >= maxc as int {
                    orig
                } else {
                    orig + Seq::new((maxc as int - orig.len()) as nat, |j: int| Seq::<char>::empty())
                });
                assert(row.deep_view() =~~= padded_spec[k as int]);
            }
            padded.push(row);
            k = k + 1;
        }
        proof {
            assert(padded.deep_view() =~~= padded_spec);
            lemma_grid_of_csv_wf(text@);
        }
        Spreadsheet { rows: rows_n, cols: maxc, cells: padded }
    }
}

/// The padded reading of any text is a well-formed grid.
pub proof fn lemma_grid_of_csv_wf(s: Seq<char>)
    ensures
        grid_wf(loaded_grid(s), grid_of_csv(s).len() as int, max_cols(grid_of_csv(s))),
        grid_of_csv(s).len() >= 1,
{
    let raw = grid_of_csv(s);
    let cols = max_cols(raw);
    let g = pad_grid(raw, cols);
    lemma_split_parts(s, '\n');
    lemma_max_cols_bound(raw);
    assert forall|i: int| 0 <= i < g.len() implies #[trigger] g[i].len() == cols by {
        assert(raw[i] == split(split(s, '\n')[i], ','));
        lemma_split_parts(split(s, '\n')[i], ',');
    }
    assert forall|i: int, j: int| 0 <= i < g.len() && 0 <= j < g[i].len() implies csv_safe(
        #[trigger] g[i][j],
    ) by {
        let line = split(s, '\n')[i];
        assert(sep_free(line, '\n'));
        lemma_split_parts(line, ',');
        lemma_split_parts_other(line, ',', '\n');
        assert(raw[i] == split(line, ','));
        if j < raw[i].len() {
            assert(g[i][j] == raw[i][j]);
            assert(sep_free(raw[i][j], ','));
            assert(sep_free(raw[i][j], '\n'));
        } else {
            assert(g[i][j] == Seq::<char>::empty());
        }
    }
}

} // verus!
verus! {

// ---------------------------------------------------------------------------
// Cell references: column labels and row numbers
// ---------------------------------------------------------------------------

pub open spec fn is_upper(c: char) -> bool {
    65 <= c as u32 && c as u32 <= 90
}

pub open spec fn is_digit(c: char) -> bool {
    48 <= c as u32 && c as u32 <= 57
}

pub open spec fn letter_of(d: int) -> char
    recommends
        0 <= d < 26,
{
    ((65 + d) as u8) as char
}

pub open spec fn digit_of(d: int) -> char
    recommends
        0 <= d < 10,
{
    ((48 + d) as u8) as char
}

/// The bijective base-26 value of a column label: "A" is 1, "Z" 26, "AA" 27.
pub open spec fn letters_val(s: Seq<char>) -> int
    decreases s.len(),
{
    if s.len() == 0 {
        0
    } else {
        letters_val(s.drop_last()) * 26 + (s.last() as u32 - 64)
    }
}

/// The decimal value of a digit string.
pub open spec fn digits_val(s: Seq<char>) -> int
    decreases s.len(),
{
    if s.len() == 0 {
        0
    } else {
        digits_val(s.drop_last()) * 10 + (s.last() as u32 - 48)
    }
}

pub open spec fn all_digits(s: Seq<char>) -> bool {
    forall|i: int| 0 <= i < s.len() ==> is_digit(#[trigger] s[i])
}

/// Number of leading uppercase letters.
pub open spec fn upper_len(s: Seq<char>) -> int
    decreases s.len(),
{
    if s.len() == 0 || !is_upper(s[0]) {
        0
    } else {
        1 + upper_len(s.skip(1))
    }
}

/// The label of column index `n` (zero-based): "A", "B", ..., "Z", "AA", ...
pub open spec fn col_label(n: int) -> Seq<char>
    decreases n,
    via col_label_dec
{
    if n < 26 {
        seq![letter_of(n)]
    } else {
        col_label(n / 26 - 1) + seq![letter_of(n % 26)]
    }
}

#[via_fn]
proof fn col_label_dec(n: int) {
    if n >= 26 {
        vstd::arithmetic::div_mod::lemma_div_is_strictly_smaller(n, 26);
        vstd::arithmetic::div_mod::lemma_div_pos_is_pos(n, 26);
        vstd::arithmetic::div_mod::lemma_div_is_ordered(26, n, 26);
        vstd::arithmetic::div_mod::lemma_div_by_self(26);
    }
}

/// The decimal rendering of `n`.
pub open spec fn dec_digits(n: int) -> Seq<char>
    decreases n,
    via dec_digits_dec
{
    if n < 10 {
        seq![digit_of(n)]
    } else {
        dec_digits(n / 10) + seq![digit_of(n % 10)]
    }
}

#[via_fn]
proof fn dec_digits_dec(n: int) {
    if n >= 10 {
        vstd::arithmetic::div_mod::lemma_div_is_strictly_smaller(n, 10);
        vstd::arithmetic::div_mod::lemma_div_pos_is_pos(n, 10);
    }
}

pub proof fn lemma_upper_len(s: Seq<char>)
    ensures
        0 <= upper_len(s) <= s.len(),
        forall|j: int| 0 <= j < upper_len(s) ==> is_upper(#[trigger] s[j]),
        upper_len(s) < s.len() ==> !is_upper(s[upper_len(s)]),
    decreases s.len(),
{
    if s.len() == 0 || !is_upper(s[0]) {
    } else {
        lemma_upper_len(s.skip(1));
        assert forall|j: int| 0 <= j < upper_len(s) implies is_upper(#[trigger] s[j]) by {
            if j > 0 {
                assert(is_upper(s.skip(1)[j - 1]));
            }
        }
        if upper_len(s) < s.len() {
            assert(!is_upper(s.skip(1)[upper_len(s.skip(1))]));
        }
    }
}

pub proof fn lemma_upper_len_unique(s: Seq<char>, k: int)
    requires
        0 <= k <= s.len(),
        forall|j: int| 0 <= j < k ==> is_upper(#[trigger] s[j]),
        k < s.len() ==> !is_upper(s[k]),
    ensures
        upper_len(s) == k,
{
    lemma_upper_len(s);
    let u = upper_len(s);
    if u < k {
        assert(is_upper(s[u]));
    }
    if k < u {
        assert(is_upper(s[k]));
    }
}

/// Unrolling one character of `letters_val` over a prefix.
pub proof fn lemma_letters_val_step(s: Seq<char>, i: int)
    requires
        0 <= i < s.len(),
    ensures
        letters_val(s.take(i + 1)) == letters_val(s.take(i)) * 26 + (s[i] as u32 - 64),
{
    assert(s.take(i + 1).drop_last() =~= s.take(i));
    assert(s.take(i + 1).last() == s[i]);
}

pub proof fn lemma_digits_val_step(s: Seq<char>, i: int)
    requires
        0 <= i < s.len(),
    ensures
        digits_val(s.take(i + 1)) == digits_val(s.take(i)) * 10 + (s[i] as u32 - 48),
{
    assert(s.take(i + 1).drop_last() =~= s.take(i));
    assert(s.take(i + 1).last() == s[i]);
}

/// The label of a column parses back to the column: its letters are uppercase
/// and their bijective base-26 value is the index plus one.
pub proof fn lemma_col_label(n: int)
    requires
        n >= 0,
    ensures
        col_label(n).len() >= 1,
        forall|i: int| 0 <= i < col_label(n).len() ==> is_upper(#[trigger] col_label(n)[i]),
        letters_val(col_label(n)) == n + 1,
    decreases n,
{
    if n < 26 {
        let lab = col_label(n);
        assert(lab.drop_last() =~= Seq::<char>::empty());
        assert(lab.last() == letter_of(n));
        assert(letter_of(n) as u32 == 65 + n);
        assert(letters_val(Seq::<char>::empty()) == 0);
        assert(letters_val(lab) == letters_val(lab.drop_last()) * 26 + (lab.last() as u32 - 64));
    } else {
        let m = n / 26 - 1;
        vstd::arithmetic::div_mod::lemma_div_pos_is_pos(n, 26);
        vstd::arithmetic::div_mod::lemma_div_is_ordered(26, n, 26);
        vstd::arithmetic::div_mod::lemma_div_by_self(26);
        vstd::arithmetic::div_mod::lemma_div_is_strictly_smaller(n, 26);
        lemma_col_label(m);
        vstd::arithmetic::div_mod::lemma_mod_bound(n, 26);
        vstd::arithmetic::div_mod::lemma_fundamental_div_mod(n, 26);
        let r = n % 26;
        let lab = col_label(n);
        assert(lab == col_label(m) + seq![letter_of(r)]);
        assert(lab.drop_last() =~= col_label(m));
        assert(lab.last() == letter_of(r));
        assert(letter_of(r) as u32 == 65 + r) by {
            assert(0 <= r < 26);
        }
        assert(letters_val(lab) == (m + 1) * 26 + (r + 1));
        assert(26 * (n / 26) + r == n);
        assert forall|i: int| 0 <= i < lab.len() implies is_upper(#[trigger] lab[i]) by {
            if i < col_label(m).len() {
                assert(lab[i] == col_label(m)[i]);
            } else {
                assert(lab[i] == letter_of(r));
                assert(letter_of(r) as u32 == 65 + r);
            }
        }
    }
}

/// The decimal rendering of `n` is all digits and evaluates back to `n`.
pub proof fn lemma_dec_digits(n: int)
    requires
        n >= 0,
    ensures
        dec_digits(n).len() >= 1,
        all_digits(dec_digits(n)),
        digits_val(dec_digits(n)) == n,
    decreases n,
{
    if n < 10 {
        let ds = dec_digits(n);
        assert(ds.drop_last() =~= Seq::<char>::empty());
        assert(ds.last() == digit_of(n));
        assert(digit_of(n) as u32 == 48 + n);
        assert(digits_val(Seq::<char>::empty()) == 0);
        assert(digits_val(ds) == digits_val(ds.drop_last()) * 10 + (ds.last() as u32 - 48));
    } else {
        vstd::arithmetic::div_mod::lemma_div_pos_is_pos(n, 10);
        vstd::arithmetic::div_mod::lemma_div_is_strictly_smaller(n, 10);
        lemma_dec_digits(n / 10);
        vstd::arithmetic::div_mod::lemma_mod_bound(n, 10);
        vstd::arithmetic::div_mod::lemma_fundamental_div_mod(n, 10);
        let r = n % 10;
        let ds = dec_digits(n);
        assert(ds.drop_last() =~= dec_digits(n / 10));
        assert(ds.last() == digit_of(r));
        assert(digit_of(r) as u32 == 48 + r);
        assert forall|i: int| 0 <= i < ds.len() implies is_digit(#[trigger] ds[i]) by {
            if i < dec_digits(n / 10).len() {
                assert(ds[i] == dec_digits(n / 10)[i]);
            } else {
                assert(ds[i] == digit_of(r));
            }
        }
    }
}

// ---------------------------------------------------------------------------
// Parsing a cell reference
// ---------------------------------------------------------------------------

/// The (row, column) pair a reference token denotes, both zero-based, or
/// nothing when the token is not a column label followed by a positive
/// decimal row number.
pub open spec fn spec_parse_ref(r: Seq<char>) -> Option<(int, int)> {
    let k = upper_len(r);
    if 1 <= k && k < r.len() && all_digits(r.skip(k)) && digits_val(r.skip(k)) >= 1 {
        Some((digits_val(r.skip(k)) - 1, letters_val(r.take(k)) - 1))
    } else {
        None
    }
}

} // verus!
verus! {

// ---------------------------------------------------------------------------
// Cell edits
// ---------------------------------------------------------------------------

/// Why the engine rejected one assignment.
#[derive(Debug, Clone, Copy, PartialEq, Eq, Structural)]
pub enum GridError {
    /// No `=` in the assignment, or the part before it is not a cell reference.
    Malformed,
    /// The reference names a row or column outside the grid.
    OutOfRange,
    /// The value holds a comma or a newline, which the serialization reserves.
    UnsafeValue,
}

pub open spec fn set_cell(
    g: Seq<Seq<Seq<char>>>,
    row: int,
    col: int,
    v: Seq<char>,
) -> Seq<Seq<Seq<char>>> {
    g.update(row, g[row].update(col, v))
}

pub open spec fn edit_ok(g: Seq<Seq<Seq<char>>>, row: int, col: int, v: Seq<char>) -> bool {
    &&& 0 <= row < g.len()
    &&& 0 <= col < g[row].len()
    &&& csv_safe(v)
}

/// One best-effort edit: applied when in range with a safe value, otherwise
/// the grid is left alone.
pub open spec fn apply_edit(
    g: Seq<Seq<Seq<char>>>,
    e: (usize, usize, Seq<char>),
) -> Seq<Seq<Seq<char>>> {
    if edit_ok(g, e.0 as int, e.1 as int, e.2) {
        set_cell(g, e.0 as int, e.1 as int, e.2)
    } else {
        g
    }
}

/// A batch of edits applied in order, each one best-effort.
pub open spec fn apply_edits(
    g: Seq<Seq<Seq<char>>>,
    edits: Seq<(usize, usize, Seq<char>)>,
) -> Seq<Seq<Seq<char>>>
    decreases edits.len(),
{
    if edits.len() == 0 {
        g
    } else {
        apply_edits(apply_edit(g, edits[0]), edits.skip(1))
    }
}

pub proof fn lemma_apply_edits_push(
    g: Seq<Seq<Seq<char>>>,
    es: Seq<(usize, usize, Seq<char>)>,
    e: (usize, usize, Seq<char>),
)
    ensures
        apply_edits(g, es.push(e)) == apply_edit(apply_edits(g, es), e),
    decreases es.len(),
{
    if es.len() == 0 {
        assert(es.push(e)[0] == e);
        assert(es.push(e).skip(1) =~= Seq::<(usize, usize, Seq<char>)>::empty());
        assert(apply_edits(apply_edit(g, e), Seq::<(usize, usize, Seq<char>)>::empty())
            == apply_edit(g, e));
        assert(apply_edits(g, Seq::<(usize, usize, Seq<char>)>::empty()) == g);
    } else {
        assert(es.push(e)[0] == es[0]);
        assert(es.push(e).skip(1) =~= es.skip(1).push(e));
        lemma_apply_edits_push(apply_edit(g, es[0]), es.skip(1), e);
    }
}

pub proof fn lemma_apply_edit_wf(
    g: Seq<Seq<Seq<char>>>,
    rows: int,
    cols: int,
    e: (usize, usize, Seq<char>),
)
    requires
        grid_wf(g, rows, cols),
    ensures
        grid_wf(apply_edit(g, e), rows, cols),
{
    if edit_ok(g, e.0 as int, e.1 as int, e.2) {
        let g2 = set_cell(g, e.0 as int, e.1 as int, e.2);
        assert forall|i: int| 0 <= i < g2.len() implies #[trigger] g2[i].len() == cols by {
            if i != e.0 as int {
                assert(g2[i] == g[i]);
            }
        }
        assert forall|i: int, j: int|
            0 <= i < g2.len() && 0 <= j < g2[i].len() implies csv_safe(#[trigger] g2[i][j]) by {
            if i != e.0 as int {
                assert(g2[i] == g[i]);
            } else if j != e.1 as int {
                assert(g2[i][j] == g[i][j]);
            }
        }
    }
}

// ---------------------------------------------------------------------------
// Executable helpers for labels, digits, and scanning
// ---------------------------------------------------------------------------

/// Relies on std's `FromIterator` for `String`: collecting characters yields
/// the string of exactly those characters, in order.
#[verifier::external_body]
pub(crate) fn chars_to_string(v: &Vec<char>) -> (r: String)
    ensures
        r@ == v@,
{
    v.iter().collect()
}

fn letter_char(d: usize) -> (c: char)
    requires
        d < 26,
    ensures
        c == letter_of(d as int),
{
    (65 + d as u8) as char
}

fn digit_char(d: usize) -> (c: char)
    requires
        d < 10,
    ensures
        c == digit_of(d as int),
{
    (48 + d as u8) as char
}

fn label_chars(col: usize, out: &mut Vec<char>)
    ensures
        final(out)@ == old(out)@ + col_label(col as int),
    decreases col,
{
    if col < 26 {
        out.push(letter_char(col));
        proof {
            assert(out@ =~= old(out)@ + col_label(col as int));
        }
    } else {
        proof {
            vstd::arithmetic::div_mod::lemma_div_pos_is_pos(col as int, 26);
            vstd::arithmetic::div_mod::lemma_div_is_ordered(26, col as int, 26);
            vstd::arithmetic::div_mod::lemma_div_by_self(26);
            vstd::arithmetic::div_mod::lemma_div_is_strictly_smaller(col as int, 26);
            vstd::arithmetic::div_mod::lemma_mod_bound(col as int, 26);
        }
        label_chars(col / 26 - 1, out);
        out.push(letter_char(col % 26));
        proof {
            assert(out@ =~= old(out)@ + col_label(col as int));
        }
    }
}

fn digit_chars(n: usize, out: &mut Vec<char>)
    ensures
        final(out)@ == old(out)@ + dec_digits(n as int),
    decreases n,
{
    if n < 10 {
        out.push(digit_char(n));
        proof {
            assert(out@ =~= old(out)@ + dec_digits(n as int));
        }
    } else {
        proof {
            vstd::arithmetic::div_mod::lemma_div_pos_is_pos(n as int, 10);
            vstd::arithmetic::div_mod::lemma_div_is_strictly_smaller(n as int, 10);
            vstd::arithmetic::div_mod::lemma_mod_bound(n as int, 10);
        }
        digit_chars(n / 10, out);
        out.push(digit_char(n % 10));
        proof {
            assert(out@ =~= old(out)@ + dec_digits(n as int));
        }
    }
}

impl Spreadsheet {
    /// The label of a column index: "A" for 0, "Z" for 25, "AA" for 26.
    pub fn column_index_to_label(col: usize) -> (r: String)
        ensures
            r@ == col_label(col as int),
    {
        let mut buf: Vec<char> = Vec::new();
        label_chars(col, &mut buf);
        proof {
            assert(buf@ =~= col_label(col as int));
        }
        chars_to_string(&buf)
    }
}

/// Index of the first occurrence of `sep`, or the length if absent.
fn find_char(s: &str, sep: char) -> (r: usize)
    ensures
        r as int == find_sep(s@, sep),
{
    let len = s.unicode_len();
    let mut i: usize = 0;
    while i < len
        invariant
            len == s@.len(),
            i <= len,
            forall|j: int| 0 <= j < i ==> #[trigger] s@[j] != sep,
        decreases len - i,
    {
        if s.get_char(i) == sep {
            proof {
                lemma_find_sep_unique(s@, sep, i as int);
            }
            return i;
        }
        i = i + 1;
    }
    proof {
        lemma_find_sep_unique(s@, sep, len as int);
    }
    len
}

fn is_upper_at(s: &str, i: usize) -> (b: bool)
    requires
        i < s@.len(),
    ensures
        b == is_upper(s@[i as int]),
{
    let cu = s.get_char(i) as u32;
    65 <= cu && cu <= 90
}

fn is_digit_at(s: &str, i: usize) -> (b: bool)
    requires
        i < s@.len(),
    ensures
        b == is_digit(s@[i as int]),
{
    let cu = s.get_char(i) as u32;
    48 <= cu && cu <= 57
}

fn check_csv_safe(v: &str) -> (r: bool)
    ensures
        r == csv_safe(v@),
{
    let len = v.unicode_len();
    let mut i: usize = 0;
    while i < len
        invariant
            len == v@.len(),
            i <= len,
            forall|j: int| 0 <= j < i ==> csv_safe_char(#[trigger] v@[j]),
        decreases len - i,
    {
        let c = v.get_char(i);
        if c == ',' || c == '\n' {
            proof {
                assert(!csv_safe_char(v@[i as int]));
            }
            return false;
        }
        i = i + 1;
    }
    true
}

/// How a reference token relates to a grid of the given dimensions.
enum RefOutcome {
    InRange(usize, usize),
    OutOfRange,
    Invalid,
}

} // verus!
verus! {

/// Classifies a reference token against a grid of `rows` x `cols`.
fn parse_ref_in(r: &str, rows: usize, cols: usize) -> (out: RefOutcome)
    ensures
        match out {
            RefOutcome::InRange(row, col) => spec_parse_ref(r@) == Some((row as int, col as int))
                && row < rows && col < cols,
            RefOutcome::OutOfRange => spec_parse_ref(r@) matches Some((rr, cc)) && (rr >= rows as int
                || cc >= cols as int),
            RefOutcome::Invalid => spec_parse_ref(r@) is None,
        },
{
    let len = r.unicode_len();
    let mut k: usize = 0;
    while k < len && is_upper_at(r, k)
        invariant
            len == r@.len(),
            k <= len,
            forall|j: int| 0 <= j < k ==> is_upper(#[trigger] r@[j]),
        decreases len - k,
    {
        k = k + 1;
    }
    proof {
        lemma_upper_len_unique(r@, k as int);
    }
    if k == 0 || k == len {
        return RefOutcome::Invalid;
    }
    let mut j: usize = k;
    while j < len && is_digit_at(r, j)
        invariant
            len == r@.len(),
            k <= j <= len,
            forall|t: int| k <= t < j ==> is_digit(#[trigger] r@[t]),
        decreases len - j,
    {
        j = j + 1;
    }
    if j < len {
        proof {
            assert(r@.skip(k as int)[j - k] == r@[j as int]);
            assert(!all_digits(r@.skip(k as int)));
        }
        return RefOutcome::Invalid;
    }
    let ghost dseq = r@.skip(k as int);
    proof {
        assert forall|t: int| 0 <= t < dseq.len() implies is_digit(#[trigger] dseq[t]) by {
            assert(dseq[t] == r@[t + k]);
        }
        assert(dseq.take(0int) =~= Seq::<char>::empty());
        assert(digits_val(Seq::<char>::empty()) == 0);
    }
    let sat: u128 = (usize::MAX as u128) + 1;
    let mut dacc: u128 = 0;
    let mut i: usize = k;
    while i < len
        invariant
            len == r@.len(),
            k <= i <= len,
            k < len,
            sat == (usize::MAX as u128) + 1,
            dseq == r@.skip(k as int),
            dseq.len() == len - k,
            forall|t: int| 0 <= t < dseq.len() ==> is_digit(#[trigger] dseq[t]),
            0 <= digits_val(dseq.take(i - k)),
            dacc <= sat,
            digits_val(dseq.take(i - k)) <= usize::MAX as int ==> dacc as int == digits_val(
                dseq.take(i - k),
            ),
            digits_val(dseq.take(i - k)) > usize::MAX as int ==> dacc == sat,
        decreases len - i,
    {
        let c = r.get_char(i);
        proof {
            assert(dseq[i - k] == r@[i as int]);
            assert(is_digit(dseq[i - k]));
            lemma_digits_val_step(dseq, i - k);
        }
        let d: u128 = (c as u32 - 48) as u128;
        let na: u128 = dacc * 10 + d;
        if na > usize::MAX as u128 {
            dacc = sat;
        } else {
            dacc = na;
        }
        i = i + 1;
    }
    proof {
        assert(dseq.take(len - k) =~= dseq);
    }
    if dacc == 0 {
        return RefOutcome::Invalid;
    }
    let ghost lseq = r@.take(k as int);
    proof {
        assert forall|t: int| 0 <= t < lseq.len() implies is_upper(#[trigger] lseq[t]) by {
            assert(lseq[t] == r@[t]);
        }
        assert(lseq.take(0int) =~= Seq::<char>::empty());
        assert(letters_val(Seq::<char>::empty()) == 0);
    }
    let mut lacc: u128 = 0;
    let mut w: usize = 0;
    while w < k
        invariant
            len == r@.len(),
            w <= k <= len,
            1 <= k,
            sat == (usize::MAX as u128) + 1,
            lseq == r@.take(k as int),
            lseq.len() == k,
            forall|t: int| 0 <= t < lseq.len() ==> is_upper(#[trigger] lseq[t]),
            0 <= letters_val(lseq.take(w as int)),
            w >= 1 ==> letters_val(lseq.take(w as int)) >= 1,
            lacc <= sat,
            w >= 1 ==> lacc >= 1,
            letters_val(lseq.take(w as int)) <= usize::MAX as int ==> lacc as int == letters_val(
                lseq.take(w as int),
            ),
            letters_val(lseq.take(w as int)) > usize::MAX as int ==> lacc == sat,
        decreases k - w,
    {
        let c = r.get_char(w);
        proof {
            assert(lseq[w as int] == r@[w as int]);
            assert(is_upper(lseq[w as int]));
            lemma_letters_val_step(lseq, w as int);
        }
        let d: u128 = (c as u32 - 64) as u128;
        let na: u128 = lacc * 26 + d;
        if na > usize::MAX as u128 {
            lacc = sat;
        } else {
            lacc = na;
        }
        w = w + 1;
    }
    proof {
        assert(lseq.take(k as int) =~= lseq);
    }
    let ghost dv = digits_val(dseq);
    let ghost lv = letters_val(lseq);
    proof {
        assert(dv >= 1);
        assert(lv >= 1);
        assert(spec_parse_ref(r@) == Some((dv - 1, lv - 1)));
    }
    if dacc > rows as u128 || lacc > cols as u128 {
        proof {
            if dacc > rows as u128 {
                assert(dv > rows as int);
            }
            if lacc > cols as u128 {
                assert(lv > cols as int);
            }
        }
        return RefOutcome::OutOfRange;
    }
    let row = (dacc - 1) as usize;
    let col = (lacc - 1) as usize;
    proof {
        assert(dacc as int == dv);
        assert(lacc as int == lv);
    }
    RefOutcome::InRange(row, col)
}

impl Spreadsheet {
    /// Applies one assignment "<ref>=<value>", like "B3=12": the cell named
    /// by the reference is set to the value. Rejected, leaving the grid
    /// unchanged: text without `=` or with an unparsable reference, a
    /// reference outside the grid, and a value holding a comma or newline.
    pub fn handle_assignment(&mut self, assignment: &str) -> (result: Result<(), GridError>)
        requires
            old(self).wf(),
        ensures
            final(self).wf(),
            final(self).spec_rows() == old(self).spec_rows(),
            final(self).spec_cols() == old(self).spec_cols(),
            match result {
                Ok(()) => ({
                    let s = assignment@;
                    let e = find_sep(s, '=');
                    &&& e < s.len()
                    &&& spec_parse_ref(s.take(e)) matches Some((row, col)) && 0 <= row < old(self)@.len() && 0 <= col < old(self).spec_cols() && csv_safe(s.skip(e + 1)) && final(self)@ == set_cell(old(self)@, row, col, s.skip(e + 1))
                }),
                Err(GridError::Malformed) => final(self)@ == old(self)@ && ({
                    let s = assignment@;
                    let e = find_sep(s, '=');
                    e == s.len() || spec_parse_ref(s.take(e)) is None
                }),
                Err(GridError::OutOfRange) => final(self)@ == old(self)@ && ({
                    let s = assignment@;
                    let e = find_sep(s, '=');
                    &&& e < s.len()
                    &&& spec_parse_ref(s.take(e)) matches Some((row, col)) && (row >= old(self)@.len() || col >= old(self).spec_cols())
                }),
                Err(GridError::UnsafeValue) => final(self)@ == old(self)@ && ({
                    let s = assignment@;
                    let e = find_sep(s, '=');
                    &&& e < s.len()
                    &&& spec_parse_ref(s.take(e)) matches Some((row, col)) && 0 <= row < old(self)@.len() && 0 <= col < old(self).spec_cols() && !csv_safe(s.skip(e + 1))
                }),
            },
    {
        let len = assignment.unicode_len();
        let eq = find_char(assignment, '=');
        proof {
            lemma_find_sep(assignment@, '=');
        }
        if eq == len {
            return Err(GridError::Malformed);
        }
        let ref_str = assignment.substring_char(0, eq);
        let val_str = assignment.substring_char(eq + 1, len);
        proof {
            assert(ref_str@ =~= assignment@.take(eq as int));
            assert(val_str@ =~= assignment@.skip(eq as int + 1));
        }
        match parse_ref_in(ref_str, self.rows, self.cols) {
            RefOutcome::Invalid => Err(GridError::Malformed),
            RefOutcome::OutOfRange => Err(GridError::OutOfRange),
            RefOutcome::InRange(row, col) => {
                if !check_csv_safe(val_str) {
                    return Err(GridError::UnsafeValue);
                }
                let new_cell = <String as vstd::string::StringExecFns>::from_str(val_str);
                proof {
                    assert(self.cells.deep_view().len() == self@.len());
                    assert(self@[row as int].len() == self.spec_cols());
                    assert(self.cells@[row as int].deep_view() == self@[row as int]);
                }
                let ghost gv = self@;
                self.cells[row][col] = new_cell;
                proof {
                    let e = (row, col, val_str@);
                    assert(self.cells.deep_view() =~~= set_cell(gv, row as int, col as int, val_str@));
                    lemma_apply_edit_wf(gv, old(self).spec_rows(), old(self).spec_cols(), e);
                    assert(apply_edit(gv, e) == set_cell(gv, row as int, col as int, val_str@));
                }
                Ok(())
            },
        }
    }
}

} // verus!
verus! {

/// The assignment text for one edit: label, one-based row, '=', value.
fn make_assignment(row: usize, col: usize, value: &str) -> (a: String)
    requires
        row < usize::MAX,
    ensures
        a@ == col_label(col as int) + dec_digits(row as int + 1) + seq!['='] + value@,
{
    let mut buf: Vec<char> = Vec::new();
    label_chars(col, &mut buf);
    digit_chars(row + 1, &mut buf);
    buf.push('=');
    let mut s = chars_to_string(&buf);
    s.append(value);
    proof {
        assert(s@ =~= col_label(col as int) + dec_digits(row as int + 1) + seq!['='] + value@);
    }
    s
}

/// The assignment built for an edit parses back to exactly that edit.
proof fn lemma_assignment_of_edit(row: usize, col: usize, v: Seq<char>)
    requires
        row < usize::MAX,
    ensures
        ({
            let lab = col_label(col as int);
            let dig = dec_digits(row as int + 1);
            let s = lab + dig + seq!['='] + v;
            &&& find_sep(s, '=') == lab.len() + dig.len()
            &&& find_sep(s, '=') < s.len()
            &&& s.take(find_sep(s, '=')) == lab + dig
            &&& s.skip(find_sep(s, '=') + 1) == v
            &&& spec_parse_ref(lab + dig) == Some((row as int, col as int))
        }),
{
    lemma_col_label(col as int);
    lemma_dec_digits(row as int + 1);
    let lab = col_label(col as int);
    let dig = dec_digits(row as int + 1);
    let r = lab + dig;
    let s = lab + dig + seq!['='] + v;
    assert forall|i: int| 0 <= i < r.len() implies #[trigger] r[i] != '=' by {
        if i < lab.len() {
            assert(r[i] == lab[i]);
            assert(is_upper(r[i]));
        } else {
            assert(r[i] == dig[i - lab.len()]);
            assert(is_digit(r[i]));
        }
        assert('=' as u32 == 61);
    }
    assert(s =~= r + seq!['='] + v);
    lemma_find_sep_concat(r, v, '=');
    assert(s.take(r.len() as int) =~= r);
    assert(s.skip(r.len() as int + 1) =~= v);
    assert forall|j: int| 0 <= j < lab.len() implies is_upper(#[trigger] r[j]) by {
        assert(r[j] == lab[j]);
    }
    assert(!is_upper(r[lab.len() as int])) by {
        assert(r[lab.len() as int] == dig[0]);
        assert(is_digit(dig[0]));
    }
    lemma_upper_len_unique(r, lab.len() as int);
    assert(r.skip(lab.len() as int) =~= dig);
    assert(r.take(lab.len() as int) =~= lab);
}

impl Spreadsheet {
    /// Applies a batch of (row, column, value) edits in order, each through
    /// one assignment; an edit the engine rejects is skipped and the rest
    /// still apply.
    pub fn apply_cell_edits(&mut self, updates: &[(usize, usize, String)])
        requires
            old(self).wf(),
        ensures
            final(self).wf(),
            final(self).spec_rows() == old(self).spec_rows(),
            final(self).spec_cols() == old(self).spec_cols(),
            final(self)@ == apply_edits(
                old(self)@,
                updates@.map_values(|u: (usize, usize, String)| (u.0, u.1, u.2@)),
            ),
    {
        let ghost edits = updates@.map_values(|u: (usize, usize, String)| (u.0, u.1, u.2@));
        let mut i: usize = 0;
        proof {
            assert(edits.take(0int) =~= Seq::<(usize, usize, Seq<char>)>::empty());
            assert(apply_edits(old(self)@, Seq::<(usize, usize, Seq<char>)>::empty()) == old(self)@);
        }
        while i < updates.len()
            invariant
                self.wf(),
                self.spec_rows() == old(self).spec_rows(),
                self.spec_cols() == old(self).spec_cols(),
                i <= updates@.len(),
                edits == updates@.map_values(|u: (usize, usize, String)| (u.0, u.1, u.2@)),
                edits.len() == updates@.len(),
                self@ == apply_edits(old(self)@, edits.take(i as int)),
            decreases updates@.len() - i,
        {
            let ghost g0 = self@;
            let ghost e = edits[i as int];
            proof {
                assert(e == (updates@[i as int].0, updates@[i as int].1, updates@[i as int].2@));
            }
            let row = updates[i].0;
            let col = updates[i].1;
            if row < usize::MAX {
                let a = make_assignment(row, col, updates[i].2.as_str());
                proof {
                    lemma_assignment_of_edit(row, col, updates@[i as int].2@);
                }
                let _ = self.handle_assignment(a.as_str());
                proof {
                    assert(self@ == apply_edit(g0, e));
                }
            } else {
                proof {
                    assert(g0.len() == self.spec_rows());
                    assert(!edit_ok(g0, e.0 as int, e.1 as int, e.2));
                    assert(apply_edit(g0, e) == g0);
                }
            }
            proof {
                lemma_apply_edits_push(old(self)@, edits.take(i as int), e);
                assert(edits.take(i + 1) =~= edits.take(i as int).push(e));
            }
            i = i + 1;
        }
        proof {
            assert(edits.take(updates@.len() as int) =~= edits);
        }
    }
}

} // verus!
