use vstd::prelude::*;
use crate::exec::{cell_eq, col_values, column_total, distinct_cells, lemma_occurrences, lemma_values_prefix, occurrences, sum_of, sums_fit, trunc_div, ExecutionError};
use crate::numeric::{is_num_text, parse_num};
use crate::table::{cell_view, clone_cell, clone_names, names_view, row_view, Cell, Table, TableView};
use crate::text::{chars_of, same_text};

verus! {

/// A chart for the result of a query.
#[derive(Clone, Debug)]
pub enum ChartSpec {
    /// A bar per numeric field, with the average of its numbers as a
    /// fixed-point value (`v / 10^18`).
    Averages { labels: Vec<String>, values: Vec<i128> },
    /// A bar per distinct value of a text field, with how often it occurs.
    Counts { column: String, labels: Vec<String>, counts: Vec<usize> },
    /// The rows as a grid of text.
    Grid { columns: Vec<String>, rows: Vec<Vec<String>> },
}

pub enum ChartView {
    Averages { labels: Seq<Seq<char>>, values: Seq<int> },
    Counts { column: Seq<char>, labels: Seq<Seq<char>>, counts: Seq<nat> },
    Grid { columns: Seq<Seq<char>>, rows: Seq<Seq<Seq<char>>> },
}

impl View for ChartSpec {
    type V = ChartView;

    open spec fn view(&self) -> ChartView {
        match self {
            ChartSpec::Averages { labels, values } => ChartView::Averages {
                labels: names_view(labels@),
                values: values@.map_values(|v: i128| v as int),
            },
            ChartSpec::Counts { column, labels, counts } => ChartView::Counts {
                column: column@,
                labels: names_view(labels@),
                counts: counts@.map_values(|c: usize| c as nat),
            },
            ChartSpec::Grid { columns, rows } => ChartView::Grid {
                columns: names_view(columns@),
                rows: rows@.map_values(|r: Vec<String>| names_view(r@)),
            },
        }
    }
}

pub open spec fn is_numeral_cell(c: Option<Seq<char>>) -> bool {
    c matches Some(s) && is_num_text(s)
}

/// The positions of the fields of a row that hold numerals.
pub open spec fn num_fields(row: Seq<Option<Seq<char>>>) -> Seq<int>
    decreases row.len(),
{
    if row.len() == 0 {
        seq![]
    } else {
        let p = num_fields(row.drop_last());
        if is_numeral_cell(row.last()) { p.push(row.len() - 1) } else { p }
    }
}

/// `j` is the first field of a row that holds text that is no numeral.
pub open spec fn first_text_at(row: Seq<Option<Seq<char>>>, j: int) -> bool {
    0 <= j < row.len() && row[j] is Some && !is_numeral_cell(row[j])
        && forall|k: int| 0 <= k < j ==> !(row[k] is Some && !is_numeral_cell(row[k]))
}

/// The values of a column without its missing ones.
pub open spec fn present(col: Seq<Option<Seq<char>>>) -> Seq<Option<Seq<char>>> {
    col.filter(|c: Option<Seq<char>>| c is Some)
}

pub open spec fn grid_cell(c: Option<Seq<char>>) -> Seq<char> {
    match c {
        Some(s) => s,
        None => "null"@,
    }
}

/// The chart for a query result, decided by its first row: averages of the
/// numeric fields if it has any; else counts of the values of its first text
/// field; else the rows as a grid. None for a result without rows.
pub open spec fn chart_of(t: TableView) -> Option<ChartView> {
    if t.rows.len() == 0 {
        None
    } else if num_fields(t.rows[0]).len() > 0 {
        let f = num_fields(t.rows[0]);
        Some(ChartView::Averages {
            labels: f.map_values(|j: int| t.columns[j]),
            values: f.map_values(|j: int| trunc_div(sum_of(col_values(t.column(j))), col_values(t.column(j)).len() as int)),
        })
    } else if exists|j: int| first_text_at(t.rows[0], j) {
        let j = choose|j: int| first_text_at(t.rows[0], j);
        let d = distinct_cells(present(t.column(j)));
        Some(ChartView::Counts {
            column: t.columns[j],
            labels: d.map_values(|c: Option<Seq<char>>| c->0),
            counts: d.map_values(|c: Option<Seq<char>>| occurrences(present(t.column(j)), c)),
        })
    } else {
        Some(ChartView::Grid {
            columns: t.columns,
            rows: t.rows.map_values(|r: Seq<Option<Seq<char>>>| r.map_values(|c: Option<Seq<char>>| grid_cell(c))),
        })
    }
}

/// The chart cannot be built: a numeric field of the first row whose
/// running total leaves the range of exact values.
pub open spec fn chart_overflows(t: TableView) -> bool {
    t.rows.len() > 0 && exists|k: int| 0 <= k < num_fields(t.rows[0]).len()
        && !sums_fit(col_values(t.column(#[trigger] num_fields(t.rows[0])[k])))
}


fn numeric_fields(row: &Vec<Cell>) -> (r: Vec<usize>)
    ensures
        r@.map_values(|j: usize| j as int) == num_fields(row_view(*row)),
        forall|k: int| 0 <= k < r@.len() ==> r@[k] < row@.len(),
{
    let ghost rv = row_view(*row);
    let mut r: Vec<usize> = Vec::new();
    let mut j: usize = 0;
    while j < row.len()
        invariant
            j <= row@.len(),
            rv == row_view(*row),
            r@.map_values(|j: usize| j as int) == num_fields(rv.subrange(0, j as int)),
            forall|k: int| 0 <= k < r@.len() ==> r@[k] < j,
        decreases row@.len() - j,
    {
        let ghost nxt = rv.subrange(0, j + 1);
        assert(nxt.drop_last() =~= rv.subrange(0, j as int));
        assert(nxt.last() == cell_view(row@[j as int]));
        let is_num = match &row[j] {
            Some(s) => parse_num(chars_of(s.as_str()).as_slice()).is_some(),
            None => false,
        };
        let ghost prev = r@;
        if is_num {
            r.push(j);
            assert(r@.map_values(|j: usize| j as int) =~= prev.map_values(|j: usize| j as int).push(j as int));
        }
        j = j + 1;
    }
    assert(rv.subrange(0, j as int) =~= rv);
    r
}

/// The chart for a query result (see `chart_of`).
pub fn synthesize_chart(t: &Table) -> (r: Result<Option<ChartSpec>, ExecutionError>)
    requires
        t.wf(),
    ensures
        match r {
            Ok(c) => !chart_overflows(t@) && match c {
                Some(spec) => chart_of(t@) == Some(spec@),
                None => chart_of(t@) is None,
            },
            Err(_) => chart_overflows(t@),
        },
{
    if t.rows.len() == 0 {
        return Ok(None);
    }
    let first = &t.rows[0];
    assert(row_view(*first) == t@.rows[0]);
    assert(first@.len() == t@.columns.len());
    let fields = numeric_fields(first);
    let ghost f = num_fields(t@.rows[0]);
    if fields.len() > 0 {
        let mut labels: Vec<String> = Vec::new();
        let mut values: Vec<i128> = Vec::new();
        let mut k: usize = 0;
        while k < fields.len()
            invariant
                t.wf(),
                t@.rows.len() > 0,
                f == num_fields(t@.rows[0]),
                fields@.map_values(|j: usize| j as int) == f,
                forall|q: int| 0 <= q < fields@.len() ==> fields@[q] < t@.columns.len(),
                k <= fields@.len(),
                names_view(labels@) == f.subrange(0, k as int).map_values(|j: int| t@.columns[j]),
                values@.map_values(|v: i128| v as int) == f.subrange(0, k as int).map_values(
                    |j: int| trunc_div(sum_of(col_values(t@.column(j))), col_values(t@.column(j)).len() as int)),
                forall|q: int| 0 <= q < k ==> sums_fit(col_values(t@.column(#[trigger] f[q]))),
            decreases fields@.len() - k,
        {
            let j = fields[k];
            assert(f[k as int] == j as int);
            match column_total(t, j) {
                None => {
                    assert(chart_overflows(t@));
                    return Err(ExecutionError::Overflow(t.columns[j].clone()));
                },
                Some((total, n)) => {
                    proof {
                        lemma_first_numeral(t@, j as int);
                        let v = col_values(t@.column(j as int));
                        assert(v.subrange(0, v.len() as int) =~= v);
                    }
                    let avg: i128 = if total >= 0 { total / (n as i128) } else { -((-total) / (n as i128)) };
                    let ghost pv = values@;
                    let ghost pl = labels@;
                    values.push(avg);
                    labels.push(t.columns[j].clone());
                    proof {
                        let g = |j: int| trunc_div(sum_of(col_values(t@.column(j))), col_values(t@.column(j)).len() as int);
                        assert(values@.map_values(|v: i128| v as int) =~= pv.map_values(|v: i128| v as int).push(avg as int));
                        assert(f.subrange(0, k + 1).map_values(g) =~= f.subrange(0, k as int).map_values(g).push(g(j as int)));
                        assert(names_view(labels@) =~= names_view(pl).push(t@.columns[j as int]));
                        let h = |j: int| t@.columns[j];
                        assert(f.subrange(0, k + 1).map_values(h) =~= f.subrange(0, k as int).map_values(h).push(h(j as int)));
                    }
                },
            }
            k = k + 1;
        }
        assert(f.subrange(0, k as int) =~= f);
        return Ok(Some(ChartSpec::Averages { labels, values }));
    }
    assert(f.len() == 0);
    let mut j: usize = 0;
    while j < first.len()
        invariant
            t.wf(),
            t@.rows.len() > 0,
            f == num_fields(t@.rows[0]),
            f.len() == 0,
            first@.len() == t@.columns.len(),
            j <= first@.len(),
            row_view(*first) == t@.rows[0],
            forall|k: int| 0 <= k < j ==> !(t@.rows[0][k] is Some && !is_numeral_cell(t@.rows[0][k])),
        decreases first@.len() - j,
    {
        assert(cell_view(first@[j as int]) == t@.rows[0][j as int]);
        let text = match &first[j] {
            Some(s) => parse_num(chars_of(s.as_str()).as_slice()).is_none(),
            None => false,
        };
        if text {
            assert(first_text_at(t@.rows[0], j as int));
            proof {
                lemma_first_text_unique(t@.rows[0], j as int);
            }
            return Ok(Some(value_counts(t, j)));
        }
        j = j + 1;
    }
    assert(!exists|j: int| first_text_at(t@.rows[0], j));
    Ok(Some(grid(t)))
}

proof fn lemma_first_text_unique(row: Seq<Option<Seq<char>>>, j: int)
    requires
        first_text_at(row, j),
    ensures
        (choose|k: int| first_text_at(row, k)) == j,
{
    let k = choose|k: int| first_text_at(row, k);
    assert(first_text_at(row, k));
    if k < j {
        assert(!(row[k] is Some && !is_numeral_cell(row[k])));
    } else if k > j {
        assert(!(row[j] is Some && !is_numeral_cell(row[j])));
    }
}

proof fn lemma_first_numeral(t: TableView, j: int)
    requires
        t.wf(),
        t.rows.len() > 0,
        num_fields(t.rows[0]).contains(j),
    ensures
        col_values(t.column(j)).len() > 0,
{
    lemma_num_fields(t.rows[0], j);
    let col = t.column(j);
    lemma_values_prefix(col, 1);
    assert(col.subrange(0, 1).drop_last() =~= Seq::<Option<Seq<char>>>::empty());
}

proof fn lemma_num_fields(row: Seq<Option<Seq<char>>>, j: int)
    requires
        num_fields(row).contains(j),
    ensures
        0 <= j < row.len(),
        is_numeral_cell(row[j]),
    decreases row.len(),
{
    if row.len() > 0 {
        let p = num_fields(row.drop_last());
        if p.contains(j) {
            lemma_num_fields(row.drop_last(), j);
        } else {
            assert(j == row.len() - 1);
        }
    }
}

fn value_counts(t: &Table, j: usize) -> (r: ChartSpec)
    requires
        t.wf(),
        j < t@.columns.len(),
    ensures
        r@ == (ChartView::Counts {
            column: t@.columns[j as int],
            labels: distinct_cells(present(t@.column(j as int))).map_values(|c: Option<Seq<char>>| c->0),
            counts: distinct_cells(present(t@.column(j as int))).map_values(
                |c: Option<Seq<char>>| occurrences(present(t@.column(j as int)), c)),
        }),
{
    let ghost col = t@.column(j as int);
    let mut keys: Vec<Cell> = Vec::new();
    let mut counts: Vec<usize> = Vec::new();
    let mut i: usize = 0;
    while i < t.rows.len()
        invariant
            t.wf(),
            j < t@.columns.len(),
            col == t@.column(j as int),
            i <= t.rows@.len(),
            present(col.subrange(0, i as int)).len() <= i,
            row_view(keys) == distinct_cells(present(col.subrange(0, i as int))),
            counts@.len() == keys@.len(),
            forall|k: int| 0 <= k < counts@.len() ==> #[trigger] counts@[k] as nat == occurrences(present(col.subrange(0, i as int)), cell_view(keys@[k])),
        decreases t.rows@.len() - i,
    {
        let ghost pre = present(col.subrange(0, i as int));
        let ghost nxt_col = col.subrange(0, i + 1);
        assert(nxt_col.drop_last() =~= col.subrange(0, i as int));
        reveal(Seq::filter);
        let row = &t.rows[i];
        assert(row_view(*row) == t@.rows[i as int]);
        assert(row@.len() == row_view(*row).len());
        let x = &row[j];
        assert(cell_view(*x) == nxt_col.last());
        if x.is_some() {
            let ghost nxt = present(nxt_col);
            assert(nxt == pre.push(cell_view(*x)));
            assert(nxt.drop_last() =~= pre);
            let mut k: usize = 0;
            while k < keys.len() && !cell_eq(&keys[k], x)
                invariant
                    k <= keys@.len(),
                    forall|q: int| 0 <= q < k ==> cell_view(#[trigger] keys@[q]) != cell_view(*x),
                decreases keys@.len() - k,
            {
                k = k + 1;
            }
            proof {
                lemma_occurrences(pre, cell_view(*x));
                assert forall|q: int| 0 <= q < counts@.len() implies occurrences(pre, cell_view(#[trigger] keys@[q])) <= i by {
                    lemma_occurrences(pre, cell_view(keys@[q]));
                }
            }
            if k < keys.len() {
                assert(distinct_cells(pre)[k as int] == cell_view(*x));
                assert(distinct_cells(nxt) == distinct_cells(pre));
                let v = counts[k];
                counts.set(k, v + 1);
                proof {
                    assert forall|q: int| 0 <= q < counts@.len() implies #[trigger] counts@[q] as nat == occurrences(nxt, cell_view(keys@[q])) by {
                        if q != k {
                            assert(distinct_cells(pre)[q] != distinct_cells(pre)[k as int]);
                        }
                    }
                }
            } else {
                assert(!distinct_cells(pre).contains(cell_view(*x))) by {
                    if distinct_cells(pre).contains(cell_view(*x)) {
                        let q = choose|q: int| 0 <= q < distinct_cells(pre).len() && distinct_cells(pre)[q] == cell_view(*x);
                        assert(cell_view(keys@[q]) == distinct_cells(pre)[q]);
                    }
                }
                let nk = clone_cell(x);
                let ghost prevk = keys@;
                keys.push(nk);
                counts.push(1);
                assert(row_view(keys) =~= prevk.map_values(|c: Cell| cell_view(c)).push(cell_view(nk)));
                proof {
                    assert forall|q: int| 0 <= q < counts@.len() implies #[trigger] counts@[q] as nat == occurrences(nxt, cell_view(keys@[q])) by {
                        if q < prevk.len() {
                            assert(keys@[q] == prevk[q]);
                            assert(cell_view(keys@[q]) == distinct_cells(pre)[q]);
                        }
                    }
                }
            }
        } else {
            assert(present(nxt_col) == pre);
        }
        i = i + 1;
    }
    assert(col.subrange(0, i as int) =~= col);
    let ghost d = distinct_cells(present(col));
    proof {
        lemma_distinct_present(present(col));
    }
    let mut labels: Vec<String> = Vec::new();
    let mut q: usize = 0;
    while q < keys.len()
        invariant
            q <= keys@.len(),
            row_view(keys) == d,
            forall|k: int| 0 <= k < d.len() ==> (#[trigger] d[k]) is Some,
            names_view(labels@) == d.subrange(0, q as int).map_values(|c: Option<Seq<char>>| c->0),
        decreases keys@.len() - q,
    {
        assert(cell_view(keys@[q as int]) == d[q as int]);
        let label = match &keys[q] {
            Some(s) => s.clone(),
            None => String::new(),
        };
        let ghost pl = labels@;
        labels.push(label);
        proof {
            let g = |c: Option<Seq<char>>| c->0;
            assert(names_view(labels@) =~= names_view(pl).push(label@));
            assert(d.subrange(0, q + 1).map_values(g) =~= d.subrange(0, q as int).map_values(g).push(g(d[q as int])));
        }
        q = q + 1;
    }
    assert(d.subrange(0, q as int) =~= d);
    let r = ChartSpec::Counts { column: t.columns[j].clone(), labels, counts };
    proof {
        let g = |c: Option<Seq<char>>| occurrences(present(col), c);
        assert(counts@.map_values(|c: usize| c as nat) =~= d.map_values(g)) by {
            assert forall|k: int| 0 <= k < d.len() implies counts@.map_values(|c: usize| c as nat)[k] == d.map_values(g)[k] by {
                assert(cell_view(keys@[k]) == d[k]);
            }
        }
    }
    r
}

proof fn lemma_distinct_present(col: Seq<Option<Seq<char>>>)
    requires
        forall|k: int| 0 <= k < col.len() ==> (#[trigger] col[k]) is Some,
    ensures
        forall|k: int| 0 <= k < distinct_cells(col).len() ==> (#[trigger] distinct_cells(col)[k]) is Some,
    decreases col.len(),
{
    if col.len() > 0 {
        lemma_distinct_present(col.drop_last());
    }
}

fn grid(t: &Table) -> (r: ChartSpec)
    requires
        t.wf(),
    ensures
        r@ == (ChartView::Grid {
            columns: t@.columns,
            rows: t@.rows.map_values(|r: Seq<Option<Seq<char>>>| r.map_values(|c: Option<Seq<char>>| grid_cell(c))),
        }),
{
    let ghost want = t@.rows.map_values(|r: Seq<Option<Seq<char>>>| r.map_values(|c: Option<Seq<char>>| grid_cell(c)));
    let mut rows: Vec<Vec<String>> = Vec::new();
    let mut i: usize = 0;
    while i < t.rows.len()
        invariant
            i <= t.rows@.len(),
            want == t@.rows.map_values(|r: Seq<Option<Seq<char>>>| r.map_values(|c: Option<Seq<char>>| grid_cell(c))),
            rows@.map_values(|r: Vec<String>| names_view(r@)) == want.subrange(0, i as int),
        decreases t.rows@.len() - i,
    {
        let src = &t.rows[i];
        assert(row_view(*src) == t@.rows[i as int]);
        let mut out: Vec<String> = Vec::new();
        let mut k: usize = 0;
        while k < src.len()
            invariant
                k <= src@.len(),
                i < t@.rows.len(),
                row_view(*src) == t@.rows[i as int],
                want == t@.rows.map_values(|r: Seq<Option<Seq<char>>>| r.map_values(|c: Option<Seq<char>>| grid_cell(c))),
                names_view(out@) == want[i as int].subrange(0, k as int),
            decreases src@.len() - k,
        {
            assert(cell_view(src@[k as int]) == t@.rows[i as int][k as int]);
            let c = match &src[k] {
                Some(s) => s.clone(),
                None => String::from_str("null"),
            };
            proof {
                reveal_strlit("null");
            }
            let ghost po = out@;
            out.push(c);
            assert(names_view(out@) =~= names_view(po).push(c@));
            assert(want[i as int].subrange(0, k + 1) =~= want[i as int].subrange(0, k as int).push(want[i as int][k as int]));
            k = k + 1;
        }
        assert(want[i as int].subrange(0, k as int) =~= want[i as int]);
        let ghost pr = rows@;
        rows.push(out);
        assert(rows@.map_values(|r: Vec<String>| names_view(r@)) =~= pr.map_values(|r: Vec<String>| names_view(r@)).push(names_view(out@)));
        assert(want.subrange(0, i + 1) =~= want.subrange(0, i as int).push(want[i as int]));
        i = i + 1;
    }
    assert(want.subrange(0, i as int) =~= want);
    ChartSpec::Grid { columns: clone_names(&t.columns), rows }
}

} // verus!
