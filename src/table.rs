use vstd::prelude::*;
use crate::numeric::{all_digits, is_digit, is_int_text, is_num_text, parse_num, unsigned_part};
use crate::text::{chars_of, lemma_split_nonempty, split_chars, split_seq, text_of, views};

verus! {

/// The type inferred for a column.
#[derive(PartialEq, Eq, Structural, Clone, Copy, Debug)]
pub enum DataType {
    Boolean,
    Integer,
    /// Decimal numerals (see `is_num_text` for the forms read).
    Float,
    Date,
    Datetime,
    Time,
    Text,
}

/// A cell: `None` where the field is empty.
pub type Cell = Option<String>;

/// A parsed table: column names, their inferred types, and rows of cells.
pub struct Table {
    pub columns: Vec<String>,
    pub dtypes: Vec<DataType>,
    pub rows: Vec<Vec<Cell>>,
}

/// The mathematical content of a table.
pub struct TableView {
    pub columns: Seq<Seq<char>>,
    pub dtypes: Seq<DataType>,
    pub rows: Seq<Seq<Option<Seq<char>>>>,
}

pub open spec fn cell_view(c: Cell) -> Option<Seq<char>> {
    match c {
        Some(s) => Some(s@),
        None => None,
    }
}

pub open spec fn row_view(r: Vec<Cell>) -> Seq<Option<Seq<char>>> {
    r@.map_values(|c: Cell| cell_view(c))
}

pub open spec fn names_view(v: Seq<String>) -> Seq<Seq<char>> {
    v.map_values(|s: String| s@)
}

pub open spec fn rows_view(v: Seq<Vec<Cell>>) -> Seq<Seq<Option<Seq<char>>>> {
    v.map_values(|r: Vec<Cell>| row_view(r))
}

pub fn clone_cell(c: &Cell) -> (r: Cell)
    ensures
        cell_view(r) == cell_view(*c),
{
    match c {
        Some(s) => Some(s.clone()),
        None => None,
    }
}

pub fn clone_row(row: &Vec<Cell>) -> (r: Vec<Cell>)
    ensures
        row_view(r) == row_view(*row),
{
    let mut r: Vec<Cell> = Vec::new();
    let mut i: usize = 0;
    while i < row.len()
        invariant
            i <= row@.len(),
            row_view(r) =~= row_view(*row).subrange(0, i as int),
        decreases row@.len() - i,
    {
        let c = clone_cell(&row[i]);
        let ghost prev = r@;
        r.push(c);
        assert(row_view(r) =~= prev.map_values(|c: Cell| cell_view(c)).push(cell_view(c)));
        assert(row_view(*row).subrange(0, i + 1) =~= row_view(*row).subrange(0, i as int).push(row_view(*row)[i as int]));
        i = i + 1;
    }
    assert(row_view(*row).subrange(0, i as int) =~= row_view(*row));
    r
}

pub fn clone_names(v: &Vec<String>) -> (r: Vec<String>)
    ensures
        names_view(r@) == names_view(v@),
{
    let mut r: Vec<String> = Vec::new();
    let mut i: usize = 0;
    while i < v.len()
        invariant
            i <= v@.len(),
            names_view(r@) =~= names_view(v@).subrange(0, i as int),
        decreases v@.len() - i,
    {
        let c = v[i].clone();
        let ghost prev = r@;
        r.push(c);
        assert(names_view(r@) =~= names_view(prev).push(c@));
        assert(names_view(v@).subrange(0, i + 1) =~= names_view(v@).subrange(0, i as int).push(names_view(v@)[i as int]));
        i = i + 1;
    }
    assert(names_view(v@).subrange(0, i as int) =~= names_view(v@));
    r
}

impl View for Table {
    type V = TableView;

    open spec fn view(&self) -> TableView {
        TableView {
            columns: names_view(self.columns@),
            dtypes: self.dtypes@,
            rows: rows_view(self.rows@),
        }
    }
}

impl TableView {
    /// One type per column, and every row as wide as the header.
    pub open spec fn wf(self) -> bool {
        &&& self.dtypes.len() == self.columns.len()
        &&& forall|i: int| 0 <= i < self.rows.len() ==> #[trigger] self.rows[i].len() == self.columns.len()
    }

    /// The cells of column `j`, top to bottom.
    pub open spec fn column(self, j: int) -> Seq<Option<Seq<char>>> {
        Seq::new(self.rows.len(), |i: int| self.rows[i][j])
    }
}

impl Table {
    pub open spec fn wf(&self) -> bool {
        self@.wf()
    }
}

pub open spec fn is_bool_text(s: Seq<char>) -> bool {
    s == seq!['t', 'r', 'u', 'e'] || s == seq!['f', 'a', 'l', 's', 'e']
}

pub open spec fn digit_at(s: Seq<char>, i: int) -> bool {
    is_digit(s[i])
}

/// `YYYY-MM-DD`.
pub open spec fn is_date_text(s: Seq<char>) -> bool {
    &&& s.len() == 10
    &&& digit_at(s, 0) && digit_at(s, 1) && digit_at(s, 2) && digit_at(s, 3)
    &&& s[4] == '-' && digit_at(s, 5) && digit_at(s, 6)
    &&& s[7] == '-' && digit_at(s, 8) && digit_at(s, 9)
}

/// `HH:MM:SS`.
pub open spec fn is_time_text(s: Seq<char>) -> bool {
    &&& s.len() == 8
    &&& digit_at(s, 0) && digit_at(s, 1) && s[2] == ':'
    &&& digit_at(s, 3) && digit_at(s, 4) && s[5] == ':'
    &&& digit_at(s, 6) && digit_at(s, 7)
}

/// A date, `T` or a space, and a time.
pub open spec fn is_datetime_text(s: Seq<char>) -> bool {
    &&& s.len() == 19
    &&& is_date_text(s.subrange(0, 10))
    &&& (s[10] == 'T' || s[10] == ' ')
    &&& is_time_text(s.subrange(11, 19))
}

/// Whether a non-empty field can be read as a value of type `t`.
pub open spec fn fits(s: Seq<char>, t: DataType) -> bool {
    match t {
        DataType::Boolean => is_bool_text(s),
        DataType::Integer => is_int_text(s),
        DataType::Float => is_num_text(s),
        DataType::Date => is_date_text(s),
        DataType::Datetime => is_datetime_text(s),
        DataType::Time => is_time_text(s),
        DataType::Text => true,
    }
}

pub open spec fn all_fit(cells: Seq<Option<Seq<char>>>, t: DataType) -> bool {
    forall|i: int| 0 <= i < cells.len() && (#[trigger] cells[i]) is Some ==> fits(cells[i]->0, t)
}

pub open spec fn any_value(cells: Seq<Option<Seq<char>>>) -> bool {
    exists|i: int| 0 <= i < cells.len() && (#[trigger] cells[i]) is Some
}

/// The type of a column, from a sample of its cells: the first of boolean,
/// integer, float, date, datetime and time that every value fits; text
/// otherwise, and for a sample with no value.
pub open spec fn infer_type(cells: Seq<Option<Seq<char>>>) -> DataType {
    if !any_value(cells) {
        DataType::Text
    } else if all_fit(cells, DataType::Boolean) {
        DataType::Boolean
    } else if all_fit(cells, DataType::Integer) {
        DataType::Integer
    } else if all_fit(cells, DataType::Float) {
        DataType::Float
    } else if all_fit(cells, DataType::Date) {
        DataType::Date
    } else if all_fit(cells, DataType::Datetime) {
        DataType::Datetime
    } else if all_fit(cells, DataType::Time) {
        DataType::Time
    } else {
        DataType::Text
    }
}

/// How many leading data rows the type inference reads.
pub const SAMPLE_ROWS: usize = 100;

/// A line without its final carriage return.
pub open spec fn strip_cr(l: Seq<char>) -> Seq<char> {
    if l.len() > 0 && l.last() == '\r' { l.drop_last() } else { l }
}

/// The lines of a text, without line ends; a final line end starts no line.
pub open spec fn text_lines(s: Seq<char>) -> Seq<Seq<char>> {
    let ls = split_seq(s, '\n');
    let kept = if ls.last().len() == 0 { ls.drop_last() } else { ls };
    kept.map_values(|l: Seq<char>| strip_cr(l))
}

pub open spec fn field_cell(f: Seq<char>) -> Option<Seq<char>> {
    if f.len() == 0 { None } else { Some(f) }
}

/// The fields of a line.
pub open spec fn record(l: Seq<char>) -> Seq<Seq<char>> {
    split_seq(l, ',')
}

pub open spec fn csv_header(s: Seq<char>) -> Seq<Seq<char>> {
    record(text_lines(s)[0])
}

pub open spec fn csv_rows(s: Seq<char>) -> Seq<Seq<Option<Seq<char>>>> {
    let ls = text_lines(s);
    Seq::new((ls.len() - 1) as nat, |i: int| record(ls[i + 1]).map_values(|f: Seq<char>| field_cell(f)))
}

pub open spec fn sample_column(rows: Seq<Seq<Option<Seq<char>>>>, j: int) -> Seq<Option<Seq<char>>> {
    let n = if rows.len() < SAMPLE_ROWS { rows.len() } else { SAMPLE_ROWS as nat };
    Seq::new(n, |i: int| rows[i][j])
}

pub open spec fn csv_types(s: Seq<char>) -> Seq<DataType> {
    Seq::new(csv_header(s).len(), |j: int| infer_type(sample_column(csv_rows(s), j)))
}

/// The text has a header line, every other line has as many fields as the
/// header, and every value fits the type inferred for its column.
pub open spec fn csv_ok(s: Seq<char>) -> bool {
    &&& text_lines(s).len() >= 1
    &&& forall|i: int| 1 <= i < text_lines(s).len() ==> #[trigger] record(text_lines(s)[i]).len() == csv_header(s).len()
    &&& forall|i: int, j: int|
        0 <= i < csv_rows(s).len() && 0 <= j < csv_header(s).len() && (#[trigger] csv_rows(s)[i][j]) is Some
            ==> fits(csv_rows(s)[i][j]->0, csv_types(s)[j])
}

/// The table that a well-formed text describes.
pub open spec fn csv_table(s: Seq<char>) -> TableView {
    TableView { columns: csv_header(s), dtypes: csv_types(s), rows: csv_rows(s) }
}

/// Malformed tabular text.
#[derive(PartialEq, Eq, Structural, Clone, Copy, Debug)]
pub enum ParseError {
    /// No header line.
    Empty,
    /// A line whose field count differs from the header's.
    Ragged,
    /// A value that does not fit the type inferred for its column.
    Mistyped,
}

fn is_digit_exec(c: char) -> (r: bool)
    ensures
        r == is_digit(c),
{
    '0' <= c && c <= '9'
}

fn date_at(s: &Vec<char>, o: usize) -> (r: bool)
    requires
        o <= 11,
        o + 10 <= s@.len(),
    ensures
        r == is_date_text(s@.subrange(o as int, o + 10)),
{
    let ghost t = s@.subrange(o as int, o + 10);
    assert(forall|i: int| 0 <= i < 10 ==> t[i] == s@[o + i]);
    is_digit_exec(s[o]) && is_digit_exec(s[o + 1]) && is_digit_exec(s[o + 2]) && is_digit_exec(s[o + 3])
        && s[o + 4] == '-' && is_digit_exec(s[o + 5]) && is_digit_exec(s[o + 6]) && s[o + 7] == '-'
        && is_digit_exec(s[o + 8]) && is_digit_exec(s[o + 9])
}

fn time_at(s: &Vec<char>, o: usize) -> (r: bool)
    requires
        o <= 11,
        o + 8 <= s@.len(),
    ensures
        r == is_time_text(s@.subrange(o as int, o + 8)),
{
    let ghost t = s@.subrange(o as int, o + 8);
    assert(forall|i: int| 0 <= i < 8 ==> t[i] == s@[o + i]);
    is_digit_exec(s[o]) && is_digit_exec(s[o + 1]) && s[o + 2] == ':' && is_digit_exec(s[o + 3])
        && is_digit_exec(s[o + 4]) && s[o + 5] == ':' && is_digit_exec(s[o + 6]) && is_digit_exec(s[o + 7])
}

/// Whether a non-empty field fits type `t`.
pub(crate) fn fits_exec(s: &Vec<char>, t: DataType) -> (r: bool)
    ensures
        r == fits(s@, t),
{
    match t {
        DataType::Boolean => {
            let r = (s.len() == 4 && s[0] == 't' && s[1] == 'r' && s[2] == 'u' && s[3] == 'e')
                || (s.len() == 5 && s[0] == 'f' && s[1] == 'a' && s[2] == 'l' && s[3] == 's' && s[4] == 'e');
            assert(r ==> is_bool_text(s@)) by {
                if s@.len() == 4 && r { assert(s@ =~= seq!['t', 'r', 'u', 'e']); }
                if s@.len() == 5 && r { assert(s@ =~= seq!['f', 'a', 'l', 's', 'e']); }
            }
            r
        },
        DataType::Integer => {
            let neg = s.len() > 0 && s[0] == '-';
            let start: usize = if neg { 1 } else { 0 };
            let n = s.len();
            assert(unsigned_part(s@) =~= s@.subrange(start as int, n as int));
            if n - start < 1 || n - start > 18 {
                return false;
            }
            let mut i: usize = start;
            while i < n
                invariant
                    start <= i <= n == s@.len(),
                    t == DataType::Integer,
                    unsigned_part(s@) == s@.subrange(start as int, n as int),
                    forall|j: int| start <= j < i ==> is_digit(s@[j]),
                decreases n - i,
            {
                if !is_digit_exec(s[i]) {
                    assert(unsigned_part(s@)[i - start] == s@[i as int]);
                    assert(!is_digit(unsigned_part(s@)[i - start]));
                    assert(!all_digits(unsigned_part(s@)));
                    return false;
                }
                i = i + 1;
            }
            assert(all_digits(unsigned_part(s@))) by {
                assert forall|j: int| 0 <= j < unsigned_part(s@).len() implies is_digit(#[trigger] unsigned_part(s@)[j]) by {
                    assert(unsigned_part(s@)[j] == s@[start + j]);
                }
            }
            true
        },
        DataType::Float => parse_num(s.as_slice()).is_some(),
        DataType::Date => s.len() == 10 && {
            let r = date_at(s, 0);
            assert(s@.subrange(0, 10) =~= s@);
            r
        },
        DataType::Time => s.len() == 8 && {
            let r = time_at(s, 0);
            assert(s@.subrange(0, 8) =~= s@);
            r
        },
        DataType::Datetime => s.len() == 19 && date_at(s, 0) && (s[10] == 'T' || s[10] == ' ') && time_at(s, 11),
        DataType::Text => true,
    }
}


fn lines_of(cs: &Vec<char>) -> (r: Vec<Vec<char>>)
    ensures
        views(r@) == text_lines(cs@),
{
    let mut all = split_chars(cs, 0, cs.len(), '\n');
    assert(cs@.subrange(0, cs@.len() as int) =~= cs@);
    proof {
        lemma_split_nonempty(cs@, '\n');
    }
    let ghost ls = split_seq(cs@, '\n');
    let last_empty = all[all.len() - 1].len() == 0;
    if last_empty {
        all.pop();
    }
    let ghost kept = if ls.last().len() == 0 { ls.drop_last() } else { ls };
    assert(views(all@) =~= kept);
    let mut r: Vec<Vec<char>> = Vec::new();
    let mut i: usize = 0;
    while i < all.len()
        invariant
            i <= all@.len(),
            views(all@) == kept,
            views(r@) == kept.subrange(0, i as int).map_values(|l: Seq<char>| strip_cr(l)),
        decreases all@.len() - i,
    {
        let line = &all[i];
        let mut l: Vec<char> = line.clone();
        assert(views(all@)[i as int] == all@[i as int]@);
        assert(l@ == kept[i as int]);
        if l.len() > 0 && l[l.len() - 1] == '\r' {
            l.pop();
        }
        assert(l@ == strip_cr(kept[i as int]));
        let ghost prev = r@;
        r.push(l);
        proof {
            let f = |l: Seq<char>| strip_cr(l);
            assert(views(r@) =~= views(prev).push(l@));
            assert(kept.subrange(0, i + 1).map_values(f) =~= kept.subrange(0, i as int).map_values(f).push(f(kept[i as int])));
        }
        i = i + 1;
    }
    assert(kept.subrange(0, i as int) =~= kept);
    r
}

pub open spec fn raw_cells(raw: Seq<Vec<Vec<char>>>, j: int, n: int) -> Seq<Option<Seq<char>>> {
    Seq::new(n as nat, |i: int| field_cell(raw[i]@[j]@))
}

fn all_fit_exec(raw: &Vec<Vec<Vec<char>>>, j: usize, n: usize, t: DataType) -> (r: bool)
    requires
        n <= raw@.len(),
        forall|i: int| 0 <= i < n ==> j < (#[trigger] raw@[i])@.len(),
    ensures
        r == all_fit(raw_cells(raw@, j as int, n as int), t),
{
    let ghost cells = raw_cells(raw@, j as int, n as int);
    let mut i: usize = 0;
    while i < n
        invariant
            i <= n <= raw@.len(),
            forall|k: int| 0 <= k < n ==> j < (#[trigger] raw@[k])@.len(),
            cells == raw_cells(raw@, j as int, n as int),
            forall|k: int| 0 <= k < i && (#[trigger] cells[k]) is Some ==> fits(cells[k]->0, t),
        decreases n - i,
    {
        let f = &raw[i][j];
        if f.len() > 0 && !fits_exec(f, t) {
            assert(cells[i as int] is Some);
            return false;
        }
        i = i + 1;
    }
    true
}

fn any_value_exec(raw: &Vec<Vec<Vec<char>>>, j: usize, n: usize) -> (r: bool)
    requires
        n <= raw@.len(),
        forall|i: int| 0 <= i < n ==> j < (#[trigger] raw@[i])@.len(),
    ensures
        r == any_value(raw_cells(raw@, j as int, n as int)),
{
    let ghost cells = raw_cells(raw@, j as int, n as int);
    let mut i: usize = 0;
    while i < n
        invariant
            i <= n <= raw@.len(),
            forall|k: int| 0 <= k < n ==> j < (#[trigger] raw@[k])@.len(),
            cells == raw_cells(raw@, j as int, n as int),
            forall|k: int| 0 <= k < i ==> (#[trigger] cells[k]) is None,
        decreases n - i,
    {
        if raw[i][j].len() > 0 {
            assert(cells[i as int] is Some);
            return true;
        }
        i = i + 1;
    }
    false
}

fn infer_exec(raw: &Vec<Vec<Vec<char>>>, j: usize, n: usize) -> (r: DataType)
    requires
        n <= raw@.len(),
        forall|i: int| 0 <= i < n ==> j < (#[trigger] raw@[i])@.len(),
    ensures
        r == infer_type(raw_cells(raw@, j as int, n as int)),
{
    if !any_value_exec(raw, j, n) {
        DataType::Text
    } else if all_fit_exec(raw, j, n, DataType::Boolean) {
        DataType::Boolean
    } else if all_fit_exec(raw, j, n, DataType::Integer) {
        DataType::Integer
    } else if all_fit_exec(raw, j, n, DataType::Float) {
        DataType::Float
    } else if all_fit_exec(raw, j, n, DataType::Date) {
        DataType::Date
    } else if all_fit_exec(raw, j, n, DataType::Datetime) {
        DataType::Datetime
    } else if all_fit_exec(raw, j, n, DataType::Time) {
        DataType::Time
    } else {
        DataType::Text
    }
}

fn to_cell(f: &Vec<char>) -> (r: Cell)
    ensures
        cell_view(r) == field_cell(f@),
{
    if f.len() == 0 {
        None
    } else {
        Some(text_of(f.as_slice()))
    }
}

/// Reads comma-separated text with a header line: one column per header
/// field, one row per further line, empty fields as missing values, and each
/// column's type inferred from its first rows.
pub fn parse_csv(text: &str) -> (r: Result<Table, ParseError>)
    ensures
        match r {
            Ok(t) => csv_ok(text@) && t@ == csv_table(text@) && t.wf(),
            Err(_) => !csv_ok(text@),
        },
{
    let cs = chars_of(text);
    let lines = lines_of(&cs);
    let ghost ls = text_lines(text@);
    if lines.len() == 0 {
        return Err(ParseError::Empty);
    }
    let header = split_chars(&lines[0], 0, lines[0].len(), ',');
    assert(lines@[0]@.subrange(0, lines@[0]@.len() as int) =~= lines@[0]@);
    assert(views(header@) == csv_header(text@));
    let ncols = header.len();
    let mut columns: Vec<String> = Vec::new();
    let mut k: usize = 0;
    while k < ncols
        invariant
            k <= ncols == header@.len(),
            names_view(columns@) == views(header@).subrange(0, k as int),
        decreases ncols - k,
    {
        let name = text_of(header[k].as_slice());
        assert(views(header@)[k as int] == header@[k as int]@);
        let ghost prev = columns@;
        columns.push(name);
        assert(names_view(columns@) =~= names_view(prev).push(name@));
        assert(views(header@).subrange(0, k + 1) =~= views(header@).subrange(0, k as int).push(views(header@)[k as int]));
        k = k + 1;
    }
    assert(views(header@).subrange(0, k as int) =~= views(header@));
    let mut raw: Vec<Vec<Vec<char>>> = Vec::new();
    let mut i: usize = 1;
    while i < lines.len()
        invariant
            1 <= i <= lines@.len(),
            views(lines@) == ls,
            ls == text_lines(text@),
            ncols == csv_header(text@).len(),
            raw@.len() == i - 1,
            forall|q: int| 1 <= q < i ==> #[trigger] record(ls[q]).len() == ncols,
            forall|q: int| 0 <= q < raw@.len() ==> views((#[trigger] raw@[q])@) == record(ls[q + 1]),
        decreases lines@.len() - i,
    {
        let fields = split_chars(&lines[i], 0, lines[i].len(), ',');
        assert(lines@[i as int]@.subrange(0, lines@[i as int]@.len() as int) =~= lines@[i as int]@);
        assert(views(lines@)[i as int] == lines@[i as int]@);
        if fields.len() != ncols {
            assert(record(ls[i as int]).len() != csv_header(text@).len());
            return Err(ParseError::Ragged);
        }
        raw.push(fields);
        i = i + 1;
    }
    let ghost rows_spec = csv_rows(text@);
    assert forall|q: int| 0 <= q < raw@.len() implies (#[trigger] raw@[q])@.len() == ncols
        && rows_spec[q].len() == ncols by {
        assert(views(raw@[q]@).len() == raw@[q]@.len());
        assert(record(ls[q + 1]).len() == ncols);
    }
    assert forall|q: int, j: int| 0 <= q < raw@.len() && 0 <= j < ncols implies
        field_cell(raw@[q]@[j]@) == #[trigger] rows_spec[q][j] by {
        assert(views(raw@[q]@)[j] == raw@[q]@[j]@);
        assert(views(raw@[q]@) == record(ls[q + 1]));
    }
    let nrows = raw.len();
    let n = if nrows < SAMPLE_ROWS { nrows } else { SAMPLE_ROWS };
    let mut dtypes: Vec<DataType> = Vec::new();
    let mut j: usize = 0;
    while j < ncols
        invariant
            j <= ncols,
            n <= raw@.len() == nrows,
            n == if nrows < SAMPLE_ROWS { nrows } else { SAMPLE_ROWS },
            rows_spec == csv_rows(text@),
            rows_spec.len() == nrows,
            ncols == csv_header(text@).len(),
            forall|q: int| 0 <= q < raw@.len() ==> (#[trigger] raw@[q])@.len() == ncols && rows_spec[q].len() == ncols,
            forall|q: int, jj: int| 0 <= q < raw@.len() && 0 <= jj < ncols ==>
                field_cell(raw@[q]@[jj]@) == #[trigger] rows_spec[q][jj],
            dtypes@ =~= csv_types(text@).subrange(0, j as int),
        decreases ncols - j,
    {
        let t = infer_exec(&raw, j, n);
        assert(raw_cells(raw@, j as int, n as int) =~= sample_column(rows_spec, j as int));
        dtypes.push(t);
        j = j + 1;
    }
    assert(dtypes@ =~= csv_types(text@));
    let mut rows: Vec<Vec<Cell>> = Vec::new();
    let mut q: usize = 0;
    while q < nrows
        invariant
            q <= nrows == raw@.len(),
            rows_spec == csv_rows(text@),
            rows_spec.len() == nrows,
            ncols == csv_header(text@).len(),
            dtypes@ == csv_types(text@),
            dtypes@.len() == ncols,
            forall|p: int| 0 <= p < raw@.len() ==> (#[trigger] raw@[p])@.len() == ncols && rows_spec[p].len() == ncols,
            forall|p: int, jj: int| 0 <= p < raw@.len() && 0 <= jj < ncols ==>
                field_cell(raw@[p]@[jj]@) == #[trigger] rows_spec[p][jj],
            rows@.len() == q,
            forall|p: int| 0 <= p < q ==> row_view(#[trigger] rows@[p]) == rows_spec[p],
            forall|p: int, jj: int| 0 <= p < q && 0 <= jj < ncols && (#[trigger] rows_spec[p][jj]) is Some
                ==> fits(rows_spec[p][jj]->0, dtypes@[jj]),
        decreases nrows - q,
    {
        let mut row: Vec<Cell> = Vec::new();
        let mut jj: usize = 0;
        while jj < ncols
            invariant
                q < nrows == raw@.len(),
                jj <= ncols,
                dtypes@.len() == ncols,
                raw@[q as int]@.len() == ncols,
                forall|jx: int| 0 <= jx < ncols ==>
                    field_cell(raw@[q as int]@[jx]@) == #[trigger] rows_spec[q as int][jx],
                rows_spec[q as int].len() == ncols,
                rows_spec == csv_rows(text@),
                rows_spec.len() == nrows,
                ncols == csv_header(text@).len(),
                dtypes@ == csv_types(text@),
                row_view(row) == rows_spec[q as int].subrange(0, jj as int),
                forall|jx: int| 0 <= jx < jj && (#[trigger] rows_spec[q as int][jx]) is Some
                    ==> fits(rows_spec[q as int][jx]->0, dtypes@[jx]),
            decreases ncols - jj,
        {
            let f = &raw[q][jj];
            assert(field_cell(raw@[q as int]@[jj as int]@) == rows_spec[q as int][jj as int]);
            let dt = dtypes[jj];
            if f.len() > 0 && !fits_exec(f, dt) {
                assert(rows_spec[q as int][jj as int] is Some);
                assert(rows_spec[q as int][jj as int]->0 == f@);
                assert(dt == csv_types(text@)[jj as int]);
                assert(!fits(csv_rows(text@)[q as int][jj as int]->0, csv_types(text@)[jj as int]));
                return Err(ParseError::Mistyped);
            }
            let c = to_cell(f);
            let ghost prev = row@;
            row.push(c);
            assert(row_view(row) =~= prev.map_values(|c: Cell| cell_view(c)).push(cell_view(c)));
            assert(rows_spec[q as int].subrange(0, jj + 1) =~= rows_spec[q as int].subrange(0, jj as int).push(rows_spec[q as int][jj as int]));
            jj = jj + 1;
        }
        assert(row_view(row) =~= rows_spec[q as int]);
        rows.push(row);
        q = q + 1;
    }
    let t = Table { columns, dtypes, rows };
    assert(t@.rows =~= rows_spec);
    assert(t@.columns =~= csv_header(text@));
    proof {
        assert forall|p: int| 1 <= p < ls.len() implies #[trigger] record(ls[p]).len() == csv_header(text@).len() by {
            assert(record(ls[p]) == views(raw@[p - 1]@));
        }
    }
    Ok(t)
}

} // verus!
