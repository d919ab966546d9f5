use vstd::prelude::*;
use crate::exec::{cell_eq, column_total, distinct_cells, lemma_occurrences, non_null, occurrences, sum_of, sums_fit, trunc_div};
use crate::quantile::{ascending, quarter, quarter_exec, sorted_numbers, two_decimals, two_decimals_text};
use crate::numeric::{is_num_text, num_of, num_value, parse_num};
use crate::table::{cell_view, clone_cell, names_view, row_view, Cell, DataType, Table, TableView};
use crate::text::{chars_of, count_text, fixed_text, fixed_to_text, join2, nat_text};

verus! {

/// How a column's type is reported.
pub open spec fn type_label(t: DataType) -> Seq<char> {
    match t {
        DataType::Boolean => "boolean"@,
        DataType::Integer => "integer"@,
        DataType::Float => "float"@,
        DataType::Date => "date"@,
        DataType::Datetime => "datetime"@,
        DataType::Time => "time"@,
        DataType::Text => "string"@,
    }
}

/// The name under which a column type is reported.
pub fn type_text(t: DataType) -> (r: String)
    ensures
        r@ == type_label(t),
{
    match t {
        DataType::Boolean => String::from_str("boolean"),
        DataType::Integer => String::from_str("integer"),
        DataType::Float => String::from_str("float"),
        DataType::Date => String::from_str("date"),
        DataType::Datetime => String::from_str("datetime"),
        DataType::Time => String::from_str("time"),
        DataType::Text => String::from_str("string"),
    }
}

/// Numbers: integers and floats.
pub open spec fn is_numeric(t: DataType) -> bool {
    t == DataType::Integer || t == DataType::Float
}

/// Dates and date-times.
pub open spec fn is_temporal(t: DataType) -> bool {
    t == DataType::Date || t == DataType::Datetime
}

/// The names of the columns whose type satisfies `p`, in column order.
pub open spec fn columns_where(cols: Seq<Seq<char>>, types: Seq<DataType>, p: spec_fn(DataType) -> bool) -> Seq<Seq<char>>
    decreases cols.len(),
{
    if cols.len() == 0 {
        seq![]
    } else {
        let prev = columns_where(cols.drop_last(), types.drop_last(), p);
        if p(types.last()) { prev.push(cols.last()) } else { prev }
    }
}

/// Counts and the columns grouped by type.
pub struct DataSummary {
    pub row_count: usize,
    pub column_count: usize,
    pub numeric_columns: Vec<String>,
    pub categorical_columns: Vec<String>,
    pub date_columns: Vec<String>,
    pub summary_text: String,
}

/// `Dataset has R rows and C columns (N numeric, K categorical, D date).`
pub open spec fn summary_sentence(r: nat, c: nat, n: nat, k: nat, d: nat) -> Seq<char> {
    "Dataset has "@ + nat_text(r) + " rows and "@ + nat_text(c) + " columns ("@ + nat_text(n)
        + " numeric, "@ + nat_text(k) + " categorical, "@ + nat_text(d) + " date)."@
}

pub open spec fn numeric_fn() -> spec_fn(DataType) -> bool {
    |t: DataType| is_numeric(t)
}

pub open spec fn temporal_fn() -> spec_fn(DataType) -> bool {
    |t: DataType| is_temporal(t)
}

pub open spec fn categorical_fn() -> spec_fn(DataType) -> bool {
    |t: DataType| !is_numeric(t) && !is_temporal(t)
}

fn columns_matching(t: &Table, kind: u8) -> (r: Vec<String>)
    requires
        t.wf(),
        kind < 3,
    ensures
        names_view(r@) == columns_where(
            t@.columns,
            t@.dtypes,
            if kind == 0 { numeric_fn() } else if kind == 1 { categorical_fn() } else { temporal_fn() },
        ),
{
    let ghost p = if kind == 0 { numeric_fn() } else if kind == 1 { categorical_fn() } else { temporal_fn() };
    let mut r: Vec<String> = Vec::new();
    let mut j: usize = 0;
    while j < t.columns.len()
        invariant
            t.wf(),
            j <= t@.columns.len(),
            kind < 3,
            p == if kind == 0 { numeric_fn() } else if kind == 1 { categorical_fn() } else { temporal_fn() },
            names_view(r@) == columns_where(t@.columns.subrange(0, j as int), t@.dtypes.subrange(0, j as int), p),
        decreases t@.columns.len() - j,
    {
        let ghost cs = t@.columns.subrange(0, j + 1);
        let ghost ts = t@.dtypes.subrange(0, j + 1);
        assert(cs.drop_last() =~= t@.columns.subrange(0, j as int));
        assert(ts.drop_last() =~= t@.dtypes.subrange(0, j as int));
        let d = t.dtypes[j];
        let numeric = d == DataType::Integer || d == DataType::Float;
        let temporal = d == DataType::Date || d == DataType::Datetime;
        let take = if kind == 0 { numeric } else if kind == 1 { !numeric && !temporal } else { temporal };
        assert(take == p(ts.last()));
        if take {
            let ghost prev = r@;
            let name = t.columns[j].clone();
            r.push(name);
            assert(names_view(r@) =~= names_view(prev).push(cs.last()));
        }
        j = j + 1;
    }
    assert(t@.columns.subrange(0, j as int) =~= t@.columns);
    assert(t@.dtypes.subrange(0, j as int) =~= t@.dtypes);
    r
}

/// The dataset summary: counts, the columns grouped by type, and a sentence.
pub fn summarize(t: &Table) -> (r: DataSummary)
    requires
        t.wf(),
    ensures
        r.row_count == t@.rows.len(),
        r.column_count == t@.columns.len(),
        names_view(r.numeric_columns@) == columns_where(t@.columns, t@.dtypes, numeric_fn()),
        names_view(r.categorical_columns@) == columns_where(t@.columns, t@.dtypes, categorical_fn()),
        names_view(r.date_columns@) == columns_where(t@.columns, t@.dtypes, temporal_fn()),
        r.summary_text@ == summary_sentence(
            t@.rows.len(),
            t@.columns.len(),
            r.numeric_columns@.len(),
            r.categorical_columns@.len(),
            r.date_columns@.len(),
        ),
{
    let numeric_columns = columns_matching(t, 0);
    let categorical_columns = columns_matching(t, 1);
    let date_columns = columns_matching(t, 2);
    let mut s = String::from_str("Dataset has ");
    s.append(count_text(t.rows.len()).as_str());
    s.append(" rows and ");
    s.append(count_text(t.columns.len()).as_str());
    s.append(" columns (");
    s.append(count_text(numeric_columns.len()).as_str());
    s.append(" numeric, ");
    s.append(count_text(categorical_columns.len()).as_str());
    s.append(" categorical, ");
    s.append(count_text(date_columns.len()).as_str());
    s.append(" date).");
    assert(s@ =~= summary_sentence(
        t@.rows.len(),
        t@.columns.len(),
        numeric_columns@.len(),
        categorical_columns@.len(),
        date_columns@.len(),
    ));
    DataSummary {
        row_count: t.rows.len(),
        column_count: t.columns.len(),
        numeric_columns,
        categorical_columns,
        date_columns,
        summary_text: s,
    }
}


/// How many cells are missing.
pub open spec fn nulls(col: Seq<Option<Seq<char>>>) -> nat
    decreases col.len(),
{
    if col.len() == 0 {
        0
    } else {
        nulls(col.drop_last()) + if col.last() is None { 1nat } else { 0nat }
    }
}

/// In every column, the missing and the present values together are all
/// the rows.
pub proof fn lemma_counts_partition(t: TableView, j: int)
    requires
        t.wf(),
        0 <= j < t.columns.len(),
    ensures
        nulls(t.column(j)) + non_null(t.column(j)) == t.rows.len(),
{
    lemma_null_split(t.column(j));
}

proof fn lemma_null_split(col: Seq<Option<Seq<char>>>)
    ensures
        nulls(col) + non_null(col) == col.len(),
    decreases col.len(),
{
    if col.len() > 0 {
        lemma_null_split(col.drop_last());
    }
}

/// The cells of column `j`.
pub fn column_cells(t: &Table, j: usize) -> (r: Vec<Cell>)
    requires
        t.wf(),
        j < t@.columns.len(),
    ensures
        row_view(r) == t@.column(j as int),
{
    let mut r: Vec<Cell> = Vec::new();
    let mut i: usize = 0;
    while i < t.rows.len()
        invariant
            t.wf(),
            j < t@.columns.len(),
            i <= t.rows@.len(),
            row_view(r) == t@.column(j as int).subrange(0, i as int),
        decreases t.rows@.len() - i,
    {
        let row = &t.rows[i];
        assert(row_view(*row) == t@.rows[i as int]);
        assert(row@.len() == row_view(*row).len());
        let c = clone_cell(&row[j]);
        let ghost prev = r@;
        r.push(c);
        assert(row_view(r) =~= prev.map_values(|c: Cell| cell_view(c)).push(cell_view(c)));
        assert(t@.column(j as int).subrange(0, i + 1) =~= t@.column(j as int).subrange(0, i as int).push(cell_view(c)));
        i = i + 1;
    }
    assert(t@.column(j as int).subrange(0, i as int) =~= t@.column(j as int));
    r
}

/// The distinct cells, in order of first appearance, with how often each occurs.
pub fn groups_of(cells: &Vec<Cell>) -> (r: (Vec<Cell>, Vec<usize>))
    ensures
        row_view(r.0) == distinct_cells(row_view(*cells)),
        r.1@.len() == r.0@.len(),
        forall|k: int| 0 <= k < r.1@.len() ==> #[trigger] r.1@[k] as nat == occurrences(row_view(*cells), cell_view(r.0@[k])),
{
    let ghost col = row_view(*cells);
    let mut keys: Vec<Cell> = Vec::new();
    let mut counts: Vec<usize> = Vec::new();
    let mut i: usize = 0;
    while i < cells.len()
        invariant
            col == row_view(*cells),
            i <= cells@.len(),
            row_view(keys) == distinct_cells(col.subrange(0, i as int)),
            counts@.len() == keys@.len(),
            forall|k: int| 0 <= k < counts@.len() ==> #[trigger] counts@[k] as nat == occurrences(col.subrange(0, i as int), cell_view(keys@[k])),
        decreases cells@.len() - i,
    {
        let ghost pre = col.subrange(0, i as int);
        let ghost nxt = col.subrange(0, i + 1);
        assert(nxt.drop_last() =~= pre);
        let x = &cells[i];
        assert(cell_view(*x) == nxt.last());
        let mut k: usize = 0;
        while k < keys.len() && !cell_eq(&keys[k], x)
            invariant
                k <= keys@.len(),
                forall|q: int| 0 <= q < k ==> cell_view(#[trigger] keys@[q]) != cell_view(*x),
            decreases keys@.len() - k,
        {
            k = k + 1;
        }
        proof {
            lemma_occurrences(pre, cell_view(*x));
            assert forall|q: int| 0 <= q < counts@.len() implies occurrences(pre, cell_view(#[trigger] keys@[q])) <= i by {
                lemma_occurrences(pre, cell_view(keys@[q]));
            }
        }
        if k < keys.len() {
            assert(distinct_cells(pre)[k as int] == cell_view(*x));
            assert(distinct_cells(nxt) == distinct_cells(pre));
            let v = counts[k];
            counts.set(k, v + 1);
            proof {
                assert forall|q: int| 0 <= q < counts@.len() implies #[trigger] counts@[q] as nat == occurrences(nxt, cell_view(keys@[q])) by {
                    if q != k {
                        assert(distinct_cells(pre)[q] != distinct_cells(pre)[k as int]);
                    }
                }
            }
        } else {
            assert(!distinct_cells(pre).contains(cell_view(*x))) by {
                if distinct_cells(pre).contains(cell_view(*x)) {
                    let q = choose|q: int| 0 <= q < distinct_cells(pre).len() && distinct_cells(pre)[q] == cell_view(*x);
                    assert(cell_view(keys@[q]) == distinct_cells(pre)[q]);
                }
            }
            let nk = clone_cell(x);
            let ghost prevk = keys@;
            keys.push(nk);
            counts.push(1);
            assert(row_view(keys) =~= prevk.map_values(|c: Cell| cell_view(c)).push(cell_view(nk)));
            proof {
                assert forall|q: int| 0 <= q < counts@.len() implies #[trigger] counts@[q] as nat == occurrences(nxt, cell_view(keys@[q])) by {
                    if q < prevk.len() {
                        assert(keys@[q] == prevk[q]);
                        assert(cell_view(keys@[q]) == distinct_cells(pre)[q]);
                    }
                }
            }
        }
        i = i + 1;
    }
    assert(col.subrange(0, i as int) =~= col);
    (keys, counts)
}

/// How many cells of a column are missing.
pub fn null_count(cells: &Vec<Cell>) -> (r: usize)
    ensures
        r == nulls(row_view(*cells)),
{
    let ghost col = row_view(*cells);
    let mut n: usize = 0;
    let mut i: usize = 0;
    while i < cells.len()
        invariant
            col == row_view(*cells),
            i <= cells@.len(),
            n <= i,
            n == nulls(col.subrange(0, i as int)),
        decreases cells@.len() - i,
    {
        assert(col.subrange(0, i + 1).drop_last() =~= col.subrange(0, i as int));
        if cells[i].is_none() {
            n = n + 1;
        }
        i = i + 1;
    }
    assert(col.subrange(0, i as int) =~= col);
    n
}

/// The numeric values of a column, in order.
pub open spec fn values_of(col: Seq<Option<Seq<char>>>) -> Seq<int>
    decreases col.len(),
{
    crate::exec::col_values(col)
}

pub open spec fn min_of(v: Seq<int>) -> int
    decreases v.len(),
{
    if v.len() <= 1 {
        v[0]
    } else {
        let m = min_of(v.drop_last());
        if v.last() < m { v.last() } else { m }
    }
}

pub open spec fn max_of(v: Seq<int>) -> int
    decreases v.len(),
{
    if v.len() <= 1 {
        v[0]
    } else {
        let m = max_of(v.drop_last());
        if v.last() > m { v.last() } else { m }
    }
}

/// The least and the greatest of the numbers of a column, if it has any.
pub fn min_max(cells: &Vec<Cell>) -> (r: Option<(i128, i128)>)
    ensures
        match r {
            Some((lo, hi)) => values_of(row_view(*cells)).len() > 0 && lo == min_of(values_of(row_view(*cells)))
                && hi == max_of(values_of(row_view(*cells))),
            None => values_of(row_view(*cells)).len() == 0,
        },
{
    let ghost col = row_view(*cells);
    let mut best: Option<(i128, i128)> = None;
    let mut i: usize = 0;
    while i < cells.len()
        invariant
            col == row_view(*cells),
            i <= cells@.len(),
            match best {
                Some((lo, hi)) => values_of(col.subrange(0, i as int)).len() > 0
                    && lo == min_of(values_of(col.subrange(0, i as int)))
                    && hi == max_of(values_of(col.subrange(0, i as int))),
                None => values_of(col.subrange(0, i as int)).len() == 0,
            },
        decreases cells@.len() - i,
    {
        let ghost pre = col.subrange(0, i as int);
        let ghost nxt = col.subrange(0, i + 1);
        assert(nxt.drop_last() =~= pre);
        assert(cell_view(cells@[i as int]) == nxt.last());
        let v = match &cells[i] {
            Some(s) => parse_num(chars_of(s.as_str()).as_slice()),
            None => None,
        };
        match v {
            Some(x) => {
                let ghost vs = values_of(nxt);
                assert(vs.drop_last() == values_of(pre));
                best = match best {
                    None => Some((x, x)),
                    Some((lo, hi)) => Some((if x < lo { x } else { lo }, if x > hi { x } else { hi })),
                };
            },
            None => {},
        }
        i = i + 1;
    }
    assert(col.subrange(0, i as int) =~= col);
    best
}


pub open spec fn pairs_view(v: Seq<(String, usize)>) -> Seq<(Seq<char>, nat)> {
    v.map_values(|p: (String, usize)| (p.0@, p.1 as nat))
}

/// Counts never grow along the sequence.
pub open spec fn by_count_desc(s: Seq<(Seq<char>, nat)>) -> bool {
    forall|a: int, b: int| 0 <= a < b < s.len() ==> (#[trigger] s[a]).1 >= (#[trigger] s[b]).1
}

/// How many of the most frequent values are reported.
pub const TOP_VALUES: usize = 10;

/// Value `a` of `g` ranks before value `b`: it is more frequent, or as
/// frequent and listed first.
pub open spec fn ranks_before(g: Seq<(Seq<char>, nat)>, a: int, b: int) -> bool {
    g[a].1 > g[b].1 || (g[a].1 == g[b].1 && a < b)
}

/// `r` holds the `TOP_VALUES` most frequent of the values `g`, most
/// frequent first; of values as frequent as each other, the one listed
/// first in `g` comes first. `idx` lists the positions in `g` of all values
/// in that order.
pub open spec fn top_values(g: Seq<(Seq<char>, nat)>, r: Seq<(Seq<char>, nat)>) -> bool {
    exists|idx: Seq<int>|
        idx.len() == g.len() && (forall|k: int| 0 <= k < idx.len() ==> 0 <= #[trigger] idx[k] < g.len())
            && (forall|a: int, b: int| 0 <= a < b < idx.len() ==> ranks_before(g, #[trigger] idx[a], #[trigger] idx[b]))
            && r == idx.subrange(0, if idx.len() < TOP_VALUES { idx.len() as int } else { TOP_VALUES as int }).map_values(
            |k: int| g[k],
        )
}

/// The most frequent of the given values with their counts.
pub fn most_frequent(g: &Vec<(String, usize)>) -> (r: Vec<(String, usize)>)
    ensures
        top_values(pairs_view(g@), pairs_view(r@)),
{
    let ghost gv = pairs_view(g@);
    let ghost mut idx: Seq<int> = seq![];
    let mut res: Vec<(String, usize)> = Vec::new();
    let mut i: usize = 0;
    while i < g.len()
        invariant
            i <= g@.len(),
            gv == pairs_view(g@),
            idx.len() == i,
            res@.len() == i,
            forall|k: int| 0 <= k < idx.len() ==> 0 <= #[trigger] idx[k] < i,
            forall|a: int, b: int| 0 <= a < b < idx.len() ==> ranks_before(gv, #[trigger] idx[a], #[trigger] idx[b]),
            pairs_view(res@) == idx.map_values(|k: int| gv[k]),
        decreases g@.len() - i,
    {
        let x = (g[i].0.clone(), g[i].1);
        let ghost xv = (x.0@, x.1 as nat);
        assert(xv == gv[i as int]);
        let ghost rv = pairs_view(res@);
        let mut p: usize = 0;
        while p < res.len() && res[p].1 >= x.1
            invariant
                p <= res@.len(),
                rv == pairs_view(res@),
                xv == (x.0@, x.1 as nat),
                forall|q: int| 0 <= q < p ==> (#[trigger] rv[q]).1 >= xv.1,
            decreases res@.len() - p,
        {
            p = p + 1;
        }
        proof {
            if p < res@.len() {
                assert(rv[p as int].1 < xv.1);
            }
        }
        let ghost old_idx = idx;
        res.insert(p, x);
        proof {
            idx = old_idx.insert(p as int, i as int);
            assert(pairs_view(res@) =~= rv.insert(p as int, xv));
            assert(pairs_view(res@) =~= idx.map_values(|k: int| gv[k])) by {
                assert forall|k: int| 0 <= k < idx.len() implies pairs_view(res@)[k] == gv[idx[k]] by {
                    if k < p {
                        assert(rv[k] == gv[old_idx[k]]);
                    } else if k > p {
                        assert(rv[k - 1] == gv[old_idx[k - 1]]);
                    }
                }
            }
            assert forall|k: int| 0 <= k < idx.len() implies 0 <= #[trigger] idx[k] < i + 1 by {
                if k < p {
                    assert(idx[k] == old_idx[k]);
                } else if k > p {
                    assert(idx[k] == old_idx[k - 1]);
                }
            }
            assert forall|a: int, b: int| 0 <= a < b < idx.len() implies ranks_before(gv, #[trigger] idx[a], #[trigger] idx[b]) by {
                if b < p {
                    assert(idx[a] == old_idx[a] && idx[b] == old_idx[b]);
                } else if b == p {
                    assert(idx[a] == old_idx[a] && idx[b] == i);
                    assert(rv[a] == gv[old_idx[a]]);
                    assert(old_idx[a] < i);
                } else if a == p {
                    assert(idx[a] == i && idx[b] == old_idx[b - 1]);
                    assert(rv[b - 1] == gv[old_idx[b - 1]]);
                    assert(rv[p as int] == gv[old_idx[p as int]]);
                    if b - 1 > p {
                        assert(ranks_before(gv, old_idx[p as int], old_idx[b - 1]));
                    }
                } else if a < p {
                    assert(idx[a] == old_idx[a] && idx[b] == old_idx[b - 1]);
                } else {
                    assert(idx[a] == old_idx[a - 1] && idx[b] == old_idx[b - 1]);
                }
            }
        }
        i = i + 1;
    }
    let ghost sorted = pairs_view(res@);
    let n = if res.len() < TOP_VALUES { res.len() } else { TOP_VALUES };
    let mut r: Vec<(String, usize)> = Vec::new();
    let mut k: usize = 0;
    while k < n
        invariant
            k <= n <= res@.len(),
            sorted == pairs_view(res@),
            pairs_view(r@) == sorted.subrange(0, k as int),
        decreases n - k,
    {
        let e = (res[k].0.clone(), res[k].1);
        let ghost prev = r@;
        r.push(e);
        assert(pairs_view(r@) =~= pairs_view(prev).push((e.0@, e.1 as nat)));
        assert(sorted.subrange(0, k + 1) =~= sorted.subrange(0, k as int).push(sorted[k as int]));
        k = k + 1;
    }
    assert(top_values(gv, pairs_view(r@))) by {
        assert(pairs_view(r@) =~= idx.subrange(0, n as int).map_values(|k: int| gv[k]));
    }
    r
}

/// Statistics of one column. Figures are exact decimals with two places;
/// the standard deviation, a square root, is left for the caller to fill.
pub struct ColumnStatistics {
    pub name: String,
    pub data_type: String,
    pub null_count: usize,
    pub unique_count: usize,
    pub min: Option<String>,
    pub max: Option<String>,
    pub mean: Option<String>,
    pub median: Option<String>,
    pub std_dev: Option<String>,
    pub percentile_25: Option<String>,
    pub percentile_75: Option<String>,
    pub frequent_values: Option<Vec<(String, usize)>>,
}

/// The present values of a column.
pub open spec fn present_of(col: Seq<Option<Seq<char>>>) -> Seq<Option<Seq<char>>>
    decreases col.len(),
{
    if col.len() == 0 {
        seq![]
    } else {
        let p = present_of(col.drop_last());
        if col.last() is Some { p.push(col.last()) } else { p }
    }
}

/// Each distinct present value with how often it occurs, in order of first
/// appearance.
pub open spec fn value_frequencies(col: Seq<Option<Seq<char>>>) -> Seq<(Seq<char>, nat)> {
    let p = present_of(col);
    distinct_cells(p).map_values(|c: Option<Seq<char>>| (c->0, occurrences(p, c)))
}

fn present_cells(cells: &Vec<Cell>) -> (r: Vec<Cell>)
    ensures
        row_view(r) == present_of(row_view(*cells)),
        forall|k: int| 0 <= k < r@.len() ==> (#[trigger] r@[k]) is Some,
{
    let ghost col = row_view(*cells);
    let mut r: Vec<Cell> = Vec::new();
    let mut i: usize = 0;
    while i < cells.len()
        invariant
            col == row_view(*cells),
            i <= cells@.len(),
            row_view(r) == present_of(col.subrange(0, i as int)),
            forall|k: int| 0 <= k < r@.len() ==> (#[trigger] r@[k]) is Some,
        decreases cells@.len() - i,
    {
        assert(col.subrange(0, i + 1).drop_last() =~= col.subrange(0, i as int));
        assert(cell_view(cells@[i as int]) == col.subrange(0, i + 1).last());
        if cells[i].is_some() {
            let c = clone_cell(&cells[i]);
            let ghost prev = r@;
            r.push(c);
            assert(row_view(r) =~= prev.map_values(|c: Cell| cell_view(c)).push(cell_view(c)));
        }
        i = i + 1;
    }
    assert(col.subrange(0, i as int) =~= col);
    r
}

proof fn lemma_distinct_some(col: Seq<Option<Seq<char>>>)
    requires
        forall|k: int| 0 <= k < col.len() ==> (#[trigger] col[k]) is Some,
    ensures
        forall|k: int| 0 <= k < distinct_cells(col).len() ==> (#[trigger] distinct_cells(col)[k]) is Some,
    decreases col.len(),
{
    if col.len() > 0 {
        lemma_distinct_some(col.drop_last());
    }
}

/// The present values of a column with how often each occurs.
pub fn frequencies(cells: &Vec<Cell>) -> (r: Vec<(String, usize)>)
    ensures
        pairs_view(r@) == value_frequencies(row_view(*cells)),
{
    let pres = present_cells(cells);
    let (keys, counts) = groups_of(&pres);
    let ghost d = distinct_cells(row_view(pres));
    proof {
        lemma_distinct_some(row_view(pres));
    }
    let ghost want = value_frequencies(row_view(*cells));
    let mut r: Vec<(String, usize)> = Vec::new();
    let mut k: usize = 0;
    while k < keys.len()
        invariant
            k <= keys@.len() == counts@.len(),
            d == distinct_cells(row_view(pres)),
            row_view(keys) == d,
            forall|q: int| 0 <= q < d.len() ==> (#[trigger] d[q]) is Some,
            forall|q: int| 0 <= q < counts@.len() ==> #[trigger] counts@[q] as nat == occurrences(row_view(pres), cell_view(keys@[q])),
            want == value_frequencies(row_view(*cells)),
            row_view(pres) == present_of(row_view(*cells)),
            pairs_view(r@) == want.subrange(0, k as int),
        decreases keys@.len() - k,
    {
        assert(cell_view(keys@[k as int]) == d[k as int]);
        let label = match &keys[k] {
            Some(s) => s.clone(),
            None => String::new(),
        };
        let e = (label, counts[k]);
        let ghost prev = r@;
        r.push(e);
        assert(pairs_view(r@) =~= pairs_view(prev).push((e.0@, e.1 as nat)));
        assert(want.subrange(0, k + 1) =~= want.subrange(0, k as int).push(want[k as int]));
        k = k + 1;
    }
    assert(want.subrange(0, k as int) =~= want);
    r
}

/// What the statistics of column `j` hold: its name and type, how many
/// values are missing, how many distinct values it has (a missing value
/// counting as one), for a numeric column its least and greatest number,
/// and for a text column its most frequent values.
pub open spec fn stats_of(t: TableView, j: int, r: ColumnStatistics) -> bool {
    &&& (r.name@ == t.columns[j])
    &&& (r.data_type@ == type_label(t.dtypes[j]))
    &&& (r.null_count == nulls(t.column(j)))
    &&& (r.unique_count == distinct_cells(t.column(j)).len())
    &&& (is_numeric(t.dtypes[j]) && values_of(t.column(j)).len() > 0 ==> {
            &&& r.min matches Some(m) && m@ == fixed_text(min_of(values_of(t.column(j))))
            &&& r.max matches Some(m) && m@ == fixed_text(max_of(values_of(t.column(j))))
        })
    &&& (!(is_numeric(t.dtypes[j]) && values_of(t.column(j)).len() > 0) ==> r.min is None && r.max is None)
    &&& (t.dtypes[j] == DataType::Text ==> (r.frequent_values matches Some(f) && top_values(
        value_frequencies(t.column(j)),
        pairs_view(f@),
    )))
    &&& (t.dtypes[j] != DataType::Text ==> r.frequent_values is None)
    &&& (r.std_dev is None)
    &&& (is_numeric(t.dtypes[j]) && values_of(t.column(j)).len() > 0 ==> {
        let v = values_of(t.column(j));
        &&& (sums_fit(v) ==> (r.mean matches Some(m) && m@ == two_decimals(trunc_div(sum_of(v), v.len() as int))))
        &&& (!sums_fit(v) ==> r.mean is None)
        &&& exists|s: Seq<int>| #![auto] ascending(s) && s.to_multiset() == v.to_multiset() && s.len() == v.len()
            && (r.percentile_25 matches Some(p) && p@ == two_decimals(quarter(s, 1)))
            && (r.median matches Some(p) && p@ == two_decimals(quarter(s, 2)))
            && (r.percentile_75 matches Some(p) && p@ == two_decimals(quarter(s, 3)))
    })
    &&& (!(is_numeric(t.dtypes[j]) && values_of(t.column(j)).len() > 0) ==> {
        &&& r.mean is None && r.median is None
        &&& r.percentile_25 is None && r.percentile_75 is None
    })
}

/// The statistics of column `j` that need no floating point.
pub fn column_statistics(t: &Table, j: usize) -> (r: ColumnStatistics)
    requires
        t.wf(),
        j < t@.columns.len(),
    ensures
        stats_of(t@, j as int, r),
{
    let cells = column_cells(t, j);
    let dt = t.dtypes[j];
    let (keys, _) = groups_of(&cells);
    let numeric = dt == DataType::Integer || dt == DataType::Float;
    let (min, max) = if numeric {
        match min_max(&cells) {
            Some((lo, hi)) => (Some(fixed_to_text(lo)), Some(fixed_to_text(hi))),
            None => (None, None),
        }
    } else {
        (None, None)
    };
    let mut mean: Option<String> = None;
    let mut median: Option<String> = None;
    let mut percentile_25: Option<String> = None;
    let mut percentile_75: Option<String> = None;
    if numeric {
        let sorted = sorted_numbers(&cells);
        if sorted.len() > 0 {
            match column_total(t, j) {
                Some((total, n)) => {
                    proof {
                        let v = values_of(t@.column(j as int));
                        assert(v.subrange(0, v.len() as int) =~= v);
                    }
                    let q: i128 = if total >= 0 { total / (n as i128) } else { -((-total) / (n as i128)) };
                    mean = Some(two_decimals_text(q));
                },
                None => {},
            }
            percentile_25 = Some(two_decimals_text(quarter_exec(&sorted, 1)));
            median = Some(two_decimals_text(quarter_exec(&sorted, 2)));
            percentile_75 = Some(two_decimals_text(quarter_exec(&sorted, 3)));
            proof {
                let sv = sorted@.map_values(|x: i128| x as int);
                assert(ascending(sv) && sv.to_multiset() == values_of(t@.column(j as int)).to_multiset());
            }
        }
    }
    let frequent_values = if dt == DataType::Text {
        Some(most_frequent(&frequencies(&cells)))
    } else {
        None
    };
    ColumnStatistics {
        name: t.columns[j].clone(),
        data_type: type_text(dt),
        null_count: null_count(&cells),
        unique_count: keys.len(),
        min,
        max,
        mean,
        median,
        std_dev: None,
        percentile_25,
        percentile_75,
        frequent_values,
    }
}


pub open spec fn is_numeral(c: Option<Seq<char>>) -> bool {
    c matches Some(x) && is_num_text(x)
}

/// The value pairs of columns `a` and `b` over the first `n` rows, for the
/// rows where both hold a numeral.
pub open spec fn paired_upto(t: TableView, a: int, b: int, n: nat) -> Seq<(int, int)>
    decreases n,
{
    if n == 0 {
        seq![]
    } else {
        let p = paired_upto(t, a, b, (n - 1) as nat);
        let r = t.rows[n - 1];
        if is_numeral(r[a]) && is_numeral(r[b]) {
            p.push((num_value(r[a]->0), num_value(r[b]->0)))
        } else {
            p
        }
    }
}

pub open spec fn paired(t: TableView, a: int, b: int) -> Seq<(int, int)> {
    paired_upto(t, a, b, t.rows.len())
}

/// Columns `a` and `b` have a correlation: at least two rows where both
/// hold numbers, and neither series is constant over those rows (so both
/// have non-zero sample variance).
pub open spec fn correlated(t: TableView, a: int, b: int) -> bool {
    let p = paired(t, a, b);
    &&& p.len() >= 2
    &&& exists|i: int| 0 <= i < p.len() && (#[trigger] p[i]).0 != p[0].0
    &&& exists|i: int| 0 <= i < p.len() && (#[trigger] p[i]).1 != p[0].1
}

/// The first and the second numbers of value pairs.
pub open spec fn firsts(p: Seq<(int, int)>) -> Seq<int> {
    p.map_values(|q: (int, int)| q.0)
}

pub open spec fn seconds(p: Seq<(int, int)>) -> Seq<int> {
    p.map_values(|q: (int, int)| q.1)
}

pub open spec fn ints(v: Seq<i128>) -> Seq<int> {
    v.map_values(|x: i128| x as int)
}

/// The numbers of the rows where both columns hold one, as two series.
pub fn paired_values(t: &Table, a: usize, b: usize) -> (r: (Vec<i128>, Vec<i128>))
    requires
        t.wf(),
        a < t@.columns.len(),
        b < t@.columns.len(),
    ensures
        ints(r.0@) == firsts(paired(t@, a as int, b as int)),
        ints(r.1@) == seconds(paired(t@, a as int, b as int)),
{
    let mut xs: Vec<i128> = Vec::new();
    let mut ys: Vec<i128> = Vec::new();
    let mut i: usize = 0;
    while i < t.rows.len()
        invariant
            t.wf(),
            a < t@.columns.len(),
            b < t@.columns.len(),
            i <= t.rows@.len(),
            ints(xs@) == firsts(paired_upto(t@, a as int, b as int, i as nat)),
            ints(ys@) == seconds(paired_upto(t@, a as int, b as int, i as nat)),
        decreases t.rows@.len() - i,
    {
        let row = &t.rows[i];
        assert(row_view(*row) == t@.rows[i as int]);
        assert(row@.len() == row_view(*row).len());
        assert(cell_view(row@[a as int]) == t@.rows[i as int][a as int]);
        assert(cell_view(row@[b as int]) == t@.rows[i as int][b as int]);
        let x = match &row[a] {
            Some(s) => parse_num(chars_of(s.as_str()).as_slice()),
            None => None,
        };
        let y = match &row[b] {
            Some(s) => parse_num(chars_of(s.as_str()).as_slice()),
            None => None,
        };
        let ghost before_row = paired_upto(t@, a as int, b as int, i as nat);
        let ghost after_row = paired_upto(t@, a as int, b as int, (i + 1) as nat);
        let ghost xs0 = xs@;
        let ghost ys0 = ys@;
        match (x, y) {
            (Some(x), Some(y)) => {
                assert(after_row == before_row.push((x as int, y as int)));
                xs.push(x);
                ys.push(y);
                assert(ints(xs@) =~= ints(xs0).push(x as int));
                assert(ints(ys@) =~= ints(ys0).push(y as int));
                assert(firsts(after_row) =~= firsts(before_row).push(x as int));
                assert(seconds(after_row) =~= seconds(before_row).push(y as int));
            },
            _ => {
                assert(after_row == before_row);
            },
        }
        i = i + 1;
    }
    (xs, ys)
}

fn varies(v: &Vec<i128>) -> (r: bool)
    requires
        v@.len() > 0,
    ensures
        r == exists|i: int| 0 <= i < v@.len() && #[trigger] v@[i] != v@[0],
{
    let mut i: usize = 1;
    while i < v.len()
        invariant
            1 <= i <= v@.len(),
            forall|k: int| 0 <= k < i ==> #[trigger] v@[k] == v@[0],
        decreases v@.len() - i,
    {
        if v[i] != v[0] {
            return true;
        }
        i = i + 1;
    }
    false
}

/// Whether columns `a` and `b` have a correlation (see `correlated`).
pub fn has_correlation(t: &Table, a: usize, b: usize) -> (r: bool)
    requires
        t.wf(),
        a < t@.columns.len(),
        b < t@.columns.len(),
    ensures
        r == correlated(t@, a as int, b as int),
{
    let (xs, ys) = paired_values(t, a, b);
    let ghost p = paired(t@, a as int, b as int);
    assert(ints(xs@).len() == xs@.len() && firsts(p).len() == p.len());
    assert(ints(ys@).len() == ys@.len() && seconds(p).len() == p.len());
    assert(xs@.len() == p.len() && ys@.len() == p.len());
    assert forall|i: int| 0 <= i < xs@.len() implies xs@[i] as int == #[trigger] p[i].0 && ys@[i] as int == p[i].1 by {
        assert(ints(xs@)[i] == firsts(p)[i]);
        assert(ints(ys@)[i] == seconds(p)[i]);
    }
    if xs.len() < 2 {
        return false;
    }
    let vx = varies(&xs);
    let vy = varies(&ys);
    proof {
        if vx {
            let i = choose|i: int| 0 <= i < xs@.len() && #[trigger] xs@[i] != xs@[0];
            assert(p[i].0 != p[0].0);
        } else {
            assert forall|i: int| 0 <= i < p.len() implies (#[trigger] p[i]).0 == p[0].0 by {
                assert(xs@[i] == xs@[0]);
            }
        }
        if vy {
            let i = choose|i: int| 0 <= i < ys@.len() && #[trigger] ys@[i] != ys@[0];
            assert(xs@[i] as int == p[i].0);
            assert(p[i].1 != p[0].1);
        } else {
            assert forall|i: int| 0 <= i < p.len() implies (#[trigger] p[i]).1 == p[0].1 by {
                assert(xs@[i] as int == p[i].0);
                assert(ys@[i] == ys@[0]);
            }
        }
    }
    vx && vy
}

/// The positions of the numeric columns.
pub open spec fn numeric_positions(types: Seq<DataType>) -> Seq<int>
    decreases types.len(),
{
    if types.len() == 0 {
        seq![]
    } else {
        let p = numeric_positions(types.drop_last());
        if is_numeric(types.last()) { p.push(types.len() - 1) } else { p }
    }
}

/// All pairs `(i, j)` with `i < j < n`, ordered by `j`, then `i`.
pub open spec fn index_pairs(n: nat) -> Seq<(int, int)>
    decreases n,
{
    if n == 0 {
        seq![]
    } else {
        index_pairs((n - 1) as nat) + Seq::new((n - 1) as nat, |i: int| (i, n - 1))
    }
}

/// The pairs of numeric columns that have a correlation, each pair once.
pub open spec fn correlation_pairs(t: TableView) -> Seq<(int, int)> {
    let nums = numeric_positions(t.dtypes);
    index_pairs(nums.len()).map_values(|p: (int, int)| (nums[p.0], nums[p.1])).filter(
        |p: (int, int)| correlated(t, p.0, p.1),
    )
}

fn numeric_positions_exec(t: &Table) -> (r: Vec<usize>)
    requires
        t.wf(),
    ensures
        r@.map_values(|x: usize| x as int) == numeric_positions(t@.dtypes),
        forall|k: int| 0 <= k < r@.len() ==> r@[k] < t@.columns.len(),
{
    let mut r: Vec<usize> = Vec::new();
    let mut j: usize = 0;
    while j < t.dtypes.len()
        invariant
            t.wf(),
            j <= t@.dtypes.len(),
            r@.map_values(|x: usize| x as int) == numeric_positions(t@.dtypes.subrange(0, j as int)),
            forall|k: int| 0 <= k < r@.len() ==> r@[k] < j,
        decreases t@.dtypes.len() - j,
    {
        assert(t@.dtypes.subrange(0, j + 1).drop_last() =~= t@.dtypes.subrange(0, j as int));
        let d = t.dtypes[j];
        if d == DataType::Integer || d == DataType::Float {
            let ghost prev = r@;
            r.push(j);
            assert(r@.map_values(|x: usize| x as int) =~= prev.map_values(|x: usize| x as int).push(j as int));
        }
        j = j + 1;
    }
    assert(t@.dtypes.subrange(0, j as int) =~= t@.dtypes);
    r
}

/// The pairs of numeric columns that have a correlation (see
/// `correlation_pairs`): never a pair where either series is constant.
pub fn correlation_candidates(t: &Table) -> (r: Vec<(usize, usize)>)
    requires
        t.wf(),
    ensures
        r@.map_values(|p: (usize, usize)| (p.0 as int, p.1 as int)) == correlation_pairs(t@),
        forall|q: int| 0 <= q < r@.len() ==> (#[trigger] r@[q]).0 < t@.columns.len() && r@[q].1 < t@.columns.len(),
{
    let nums = numeric_positions_exec(t);
    let ghost nv = numeric_positions(t@.dtypes);
    let ghost f = |p: (int, int)| (nv[p.0], nv[p.1]);
    let ghost pred = |p: (int, int)| correlated(t@, p.0, p.1);
    let ghost acc: Seq<(int, int)> = seq![];
    let mut out: Vec<(usize, usize)> = Vec::new();
    let mut j: usize = 0;
    while j < nums.len()
        invariant
            t.wf(),
            j <= nums@.len(),
            nums@.map_values(|x: usize| x as int) == nv,
            forall|k: int| 0 <= k < nums@.len() ==> nums@[k] < t@.columns.len(),
            f == (|p: (int, int)| (nv[p.0], nv[p.1])),
            pred == (|p: (int, int)| correlated(t@, p.0, p.1)),
            acc == index_pairs(j as nat).map_values(f),
            forall|q: int| 0 <= q < out@.len() ==> (#[trigger] out@[q]).0 < t@.columns.len() && out@[q].1 < t@.columns.len(),
            out@.map_values(|p: (usize, usize)| (p.0 as int, p.1 as int)) == acc.filter(pred),
        decreases nums@.len() - j,
    {
        let mut i: usize = 0;
        let ghost base = acc;
        while i < j
            invariant
                t.wf(),
                i <= j < nums@.len(),
                nums@.map_values(|x: usize| x as int) == nv,
                forall|k: int| 0 <= k < nums@.len() ==> nums@[k] < t@.columns.len(),
                f == (|p: (int, int)| (nv[p.0], nv[p.1])),
                pred == (|p: (int, int)| correlated(t@, p.0, p.1)),
                base == index_pairs(j as nat).map_values(f),
                acc == base + Seq::new(i as nat, |x: int| (x, j as int)).map_values(f),
                forall|q: int| 0 <= q < out@.len() ==> (#[trigger] out@[q]).0 < t@.columns.len() && out@[q].1 < t@.columns.len(),
                out@.map_values(|p: (usize, usize)| (p.0 as int, p.1 as int)) == acc.filter(pred),
            decreases j - i,
        {
            let a = nums[i];
            let b = nums[j];
            assert(nv[i as int] == a as int && nv[j as int] == b as int);
            let c = has_correlation(t, a, b);
            let ghost e = (a as int, b as int);
            let ghost nacc = acc.push(e);
            assert(nacc =~= base + Seq::new((i + 1) as nat, |x: int| (x, j as int)).map_values(f));
            assert(nacc.drop_last() =~= acc);
            reveal(Seq::filter);
            let ghost prev = out@;
            if c {
                out.push((a, b));
                assert(out@.map_values(|p: (usize, usize)| (p.0 as int, p.1 as int)) =~= prev.map_values(|p: (usize, usize)| (p.0 as int, p.1 as int)).push(e));
            }
            proof {
                acc = nacc;
            }
            i = i + 1;
        }
        assert(index_pairs((j + 1) as nat) == index_pairs(j as nat) + Seq::new(j as nat, |x: int| (x, j as int)));
        assert(acc =~= index_pairs((j + 1) as nat).map_values(f));
        j = j + 1;
    }
    out
}


/// Every pair of columns reported with a correlation has at least two rows
/// with both values, and neither series is constant there: no pair with a
/// zero sample variance is ever reported.
pub proof fn lemma_correlations_vary(t: TableView, k: int)
    requires
        0 <= k < correlation_pairs(t).len(),
    ensures
        correlated(t, correlation_pairs(t)[k].0, correlation_pairs(t)[k].1),
{
    let nums = numeric_positions(t.dtypes);
    let all = index_pairs(nums.len()).map_values(|p: (int, int)| (nums[p.0], nums[p.1]));
    all.lemma_filter_pred(|p: (int, int)| correlated(t, p.0, p.1), k);
}

/// The summary, the statistics of each column, and the pairs of numeric
/// columns that have a correlation (none where there are fewer than two
/// numeric columns).
pub struct Insights {
    pub data_summary: DataSummary,
    pub column_statistics: Vec<ColumnStatistics>,
    pub correlated_columns: Option<Vec<(String, String)>>,
}

/// What the dataset summary of a table holds.
pub open spec fn summary_of(t: TableView, r: DataSummary) -> bool {
    &&& r.row_count == t.rows.len()
    &&& r.column_count == t.columns.len()
    &&& names_view(r.numeric_columns@) == columns_where(t.columns, t.dtypes, numeric_fn())
    &&& names_view(r.categorical_columns@) == columns_where(t.columns, t.dtypes, categorical_fn())
    &&& names_view(r.date_columns@) == columns_where(t.columns, t.dtypes, temporal_fn())
    &&& r.summary_text@ == summary_sentence(
        t.rows.len(),
        t.columns.len(),
        r.numeric_columns@.len(),
        r.categorical_columns@.len(),
        r.date_columns@.len(),
    )
}

/// What the insights of a table hold.
pub open spec fn insights_of(t: TableView, r: Insights) -> bool {
    &&& summary_of(t, r.data_summary)
    &&& r.column_statistics@.len() == t.columns.len()
    &&& forall|j: int| 0 <= j < t.columns.len() ==> stats_of(t, j, #[trigger] r.column_statistics@[j])
    &&& numeric_positions(t.dtypes).len() < 2 ==> r.correlated_columns is None
    &&& numeric_positions(t.dtypes).len() >= 2 ==> (r.correlated_columns matches Some(c) && c@.map_values(
        |p: (String, String)| (p.0@, p.1@),
    ) == correlation_pairs(t).map_values(|p: (int, int)| (t.columns[p.0], t.columns[p.1])))
}

/// The insights of a parsed table.
pub fn generate_insights(t: &Table) -> (r: Insights)
    requires
        t.wf(),
    ensures
        insights_of(t@, r),
{
    let data_summary = summarize(t);
    let mut stats: Vec<ColumnStatistics> = Vec::new();
    let mut j: usize = 0;
    while j < t.columns.len()
        invariant
            t.wf(),
            j <= t@.columns.len(),
            stats@.len() == j,
            forall|k: int| 0 <= k < j ==> stats_of(t@, k, #[trigger] stats@[k]),
        decreases t@.columns.len() - j,
    {
        stats.push(column_statistics(t, j));
        j = j + 1;
    }
    let nums = numeric_positions_exec(t);
    let correlated_columns = if nums.len() < 2 {
        assert(nums@.map_values(|x: usize| x as int).len() == nums@.len());
        None
    } else {
        let pairs = correlation_candidates(t);
        let ghost cp = correlation_pairs(t@);
        let ghost want = cp.map_values(|p: (int, int)| (t@.columns[p.0], t@.columns[p.1]));
        let mut named: Vec<(String, String)> = Vec::new();
        let mut k: usize = 0;
        while k < pairs.len()
            invariant
                t.wf(),
                k <= pairs@.len(),
                forall|q: int| 0 <= q < pairs@.len() ==> (#[trigger] pairs@[q]).0 < t@.columns.len() && pairs@[q].1 < t@.columns.len(),
                pairs@.map_values(|p: (usize, usize)| (p.0 as int, p.1 as int)) == cp,
                cp == correlation_pairs(t@),
                want == cp.map_values(|p: (int, int)| (t@.columns[p.0], t@.columns[p.1])),
                named@.map_values(|p: (String, String)| (p.0@, p.1@)) == want.subrange(0, k as int),
            decreases pairs@.len() - k,
        {
            let (a, b) = pairs[k];
            assert(cp[k as int] == (a as int, b as int));
            let e = (t.columns[a].clone(), t.columns[b].clone());
            let ghost prev = named@;
            named.push(e);
            assert(named@.map_values(|p: (String, String)| (p.0@, p.1@)) =~= prev.map_values(|p: (String, String)| (p.0@, p.1@)).push((e.0@, e.1@)));
            assert(want.subrange(0, k + 1) =~= want.subrange(0, k as int).push(want[k as int]));
            k = k + 1;
        }
        assert(want.subrange(0, k as int) =~= want);
        Some(named)
    };
    Insights { data_summary, column_statistics: stats, correlated_columns }
}

} // verus!
