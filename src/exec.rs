use vstd::prelude::*;
use crate::numeric::{is_num_text, num_of, num_value, parse_num};
use crate::query::{ops_view, ColumnOperation, OpView, QueryIntent, StructuredQuery};
use crate::table::{cell_view, clone_cell, clone_names, clone_row, names_view, row_view, rows_view, Cell, DataType, Table, TableView};
use crate::text::{chars_of, count_text, fixed_text, fixed_to_text, join2, nat_text, same_text};

verus! {

/// Why a query could not be run.
#[derive(Clone, Debug)]
pub enum ExecutionError {
    /// The query names a column that the data does not have.
    UnknownColumn(String),
    /// A mean or sum of a column that does not hold numbers.
    NotNumeric(String),
    /// A sum beyond the range of exact fixed-point values.
    Overflow(String),
}

/// The text of an execution error.
pub open spec fn error_text(e: ErrView) -> Seq<char> {
    match e {
        ErrView::UnknownColumn(c) => "column not found: "@ + c,
        ErrView::NotNumeric(c) => "column is not numeric: "@ + c,
        ErrView::Overflow(c) => "sum out of range in column: "@ + c,
    }
}

impl ExecutionError {
    /// A sentence that says what went wrong.
    pub fn message(&self) -> (r: String)
        ensures
            r@ == error_text(err_view(*self)),
    {
        match self {
            ExecutionError::UnknownColumn(c) => join2("column not found: ", c.as_str()),
            ExecutionError::NotNumeric(c) => join2("column is not numeric: ", c.as_str()),
            ExecutionError::Overflow(c) => join2("sum out of range in column: ", c.as_str()),
        }
    }
}

/// `j` is the first position of `name` in `cols`.
pub open spec fn first_at(cols: Seq<Seq<char>>, name: Seq<char>, j: int) -> bool {
    0 <= j < cols.len() && cols[j] == name && forall|k: int| 0 <= k < j ==> cols[k] != name
}

/// The first position of a column name that `cols` holds.
pub open spec fn col_of(cols: Seq<Seq<char>>, name: Seq<char>) -> int {
    choose|j: int| first_at(cols, name, j)
}

pub proof fn lemma_col_of(cols: Seq<Seq<char>>, name: Seq<char>, j: int)
    requires
        first_at(cols, name, j),
    ensures
        col_of(cols, name) == j,
{
    let k = col_of(cols, name);
    assert(first_at(cols, name, k));
    if k < j {
        assert(cols[k] != name);
    } else if k > j {
        assert(cols[j] != name);
    }
}

/// The position of column `name`, if the table has one.
pub fn find_column(t: &Table, name: &str) -> (r: Option<usize>)
    ensures
        match r {
            Some(j) => first_at(t@.columns, name@, j as int) && col_of(t@.columns, name@) == j,
            None => !t@.columns.contains(name@),
        },
{
    let mut j: usize = 0;
    while j < t.columns.len()
        invariant
            j <= t.columns@.len(),
            forall|k: int| 0 <= k < j ==> t@.columns[k] != name@,
        decreases t.columns@.len() - j,
    {
        if same_text(t.columns[j].as_str(), name) {
            proof {
                lemma_col_of(t@.columns, name@, j as int);
            }
            return Some(j);
        }
        j = j + 1;
    }
    None
}

/// The first `n` rows.
pub open spec fn head_view(t: TableView, n: nat) -> TableView {
    TableView {
        columns: t.columns,
        dtypes: t.dtypes,
        rows: if t.rows.len() <= n { t.rows } else { t.rows.subrange(0, n as int) },
    }
}

/// The table cut to its first `n` rows.
pub fn head(t: &Table, n: usize) -> (r: Table)
    requires
        t.wf(),
    ensures
        r@ == head_view(t@, n as nat),
        r.wf(),
{
    let mut rows: Vec<Vec<Cell>> = Vec::new();
    let mut i: usize = 0;
    while i < t.rows.len() && i < n
        invariant
            i <= t.rows@.len(),
            i <= n,
            rows_view(rows@) == t@.rows.subrange(0, i as int),
        decreases t.rows@.len() - i,
    {
        let row = clone_row(&t.rows[i]);
        let ghost prev = rows@;
        rows.push(row);
        assert(rows_view(rows@) =~= rows_view(prev).push(row_view(row)));
        assert(t@.rows.subrange(0, i + 1) =~= t@.rows.subrange(0, i as int).push(t@.rows[i as int]));
        i = i + 1;
    }
    let r = Table { columns: clone_names(&t.columns), dtypes: t.dtypes.clone(), rows };
    assert(r@.rows =~= head_view(t@, n as nat).rows);
    r
}


/// The table holds every column that `names` lists.
pub open spec fn has_all(cols: Seq<Seq<char>>, names: Seq<Seq<char>>) -> bool {
    forall|k: int| 0 <= k < names.len() ==> cols.contains(#[trigger] names[k])
}

/// The columns `names`, in that order.
pub open spec fn select_view(t: TableView, names: Seq<Seq<char>>) -> TableView {
    TableView {
        columns: names,
        dtypes: Seq::new(names.len(), |k: int| t.dtypes[col_of(t.columns, names[k])]),
        rows: Seq::new(
            t.rows.len(),
            |i: int| Seq::new(names.len(), |k: int| t.rows[i][col_of(t.columns, names[k])]),
        ),
    }
}

/// The table cut down to the columns `names`, in that order.
pub fn select(t: &Table, names: &Vec<String>) -> (r: Result<Table, ExecutionError>)
    requires
        t.wf(),
    ensures
        match r {
            Ok(s) => has_all(t@.columns, names_view(names@)) && s@ == select_view(t@, names_view(names@)) && s.wf(),
            Err(ExecutionError::UnknownColumn(n)) => exists|k: int| missing_at(t@.columns, names_view(names@), k) && names_view(names@)[k] == n@,
            Err(_) => false,
        },
{
    let ghost nv = names_view(names@);
    let mut idx: Vec<usize> = Vec::new();
    let mut dtypes: Vec<DataType> = Vec::new();
    let mut k: usize = 0;
    while k < names.len()
        invariant
            t.wf(),
            k <= names@.len(),
            nv == names_view(names@),
            idx@.len() == k,
            dtypes@.len() == k,
            forall|q: int| 0 <= q < k ==> #[trigger] idx@[q] == col_of(t@.columns, nv[q]) && t@.columns.contains(nv[q])
                && idx@[q] < t@.columns.len(),
            forall|q: int| 0 <= q < k ==> #[trigger] dtypes@[q] == t@.dtypes[col_of(t@.columns, nv[q])],
        decreases names@.len() - k,
    {
        assert(nv[k as int] == names@[k as int]@);
        match find_column(t, names[k].as_str()) {
            Some(j) => {
                assert(t@.columns[j as int] == nv[k as int]);
                idx.push(j);
                dtypes.push(t.dtypes[j]);
            },
            None => {
                assert forall|q: int| 0 <= q < k implies t@.columns.contains(nv[q]) by {
                    assert(idx@[q] == col_of(t@.columns, nv[q]));
                }
                assert(missing_at(t@.columns, nv, k as int));
                return Err(ExecutionError::UnknownColumn(names[k].clone()));
            },
        }
        k = k + 1;
    }
    assert(has_all(t@.columns, nv)) by {
        assert forall|q: int| 0 <= q < nv.len() implies t@.columns.contains(#[trigger] nv[q]) by {
            assert(idx@[q] == col_of(t@.columns, nv[q]));
        }
    }
    let ghost want = select_view(t@, nv);
    let mut rows: Vec<Vec<Cell>> = Vec::new();
    let mut i: usize = 0;
    while i < t.rows.len()
        invariant
            t.wf(),
            i <= t.rows@.len(),
            nv == names_view(names@),
            want == select_view(t@, nv),
            idx@.len() == nv.len(),
            forall|q: int| 0 <= q < nv.len() ==> #[trigger] idx@[q] == col_of(t@.columns, nv[q]) && idx@[q] < t@.columns.len(),
            rows_view(rows@) == want.rows.subrange(0, i as int),
        decreases t.rows@.len() - i,
    {
        let src = &t.rows[i];
        assert(row_view(*src) == t@.rows[i as int]);
        assert(row_view(*src).len() == src@.len());
        assert(src@.len() == t@.columns.len());
        let mut row: Vec<Cell> = Vec::new();
        let mut q: usize = 0;
        while q < idx.len()
            invariant
                q <= idx@.len() == nv.len(),
                src@.len() == t@.columns.len(),
                row_view(*src) == t@.rows[i as int],
                want == select_view(t@, nv),
                i < t@.rows.len(),
                forall|x: int| 0 <= x < nv.len() ==> #[trigger] idx@[x] == col_of(t@.columns, nv[x]) && idx@[x] < t@.columns.len(),
                row_view(row) == want.rows[i as int].subrange(0, q as int),
            decreases idx@.len() - q,
        {
            let c = clone_cell(&src[idx[q]]);
            let ghost prev = row@;
            row.push(c);
            assert(row_view(row) =~= prev.map_values(|c: Cell| cell_view(c)).push(cell_view(c)));
            assert(want.rows[i as int].subrange(0, q + 1) =~= want.rows[i as int].subrange(0, q as int).push(want.rows[i as int][q as int]));
            q = q + 1;
        }
        assert(want.rows[i as int].subrange(0, q as int) =~= want.rows[i as int]);
        let ghost prev = rows@;
        rows.push(row);
        assert(rows_view(rows@) =~= rows_view(prev).push(row_view(row)));
        assert(want.rows.subrange(0, i + 1) =~= want.rows.subrange(0, i as int).push(want.rows[i as int]));
        i = i + 1;
    }
    assert(want.rows.subrange(0, i as int) =~= want.rows);
    let r = Table { columns: clone_names(names), dtypes, rows };
    assert(r@.dtypes =~= want.dtypes);
    assert(r@ == want);
    Ok(r)
}


/// A comparison that a filter applies.
#[derive(PartialEq, Eq, Structural, Clone, Copy, Debug)]
pub enum FilterOp {
    Eq,
    Ne,
    Gt,
    Lt,
    Ge,
    Le,
}

/// The comparison an operator names: `=` or `==`, `!=` or `<>`, `>`, `<`,
/// `>=`, `<=`.
pub open spec fn filter_op_of(o: Seq<char>) -> Option<FilterOp> {
    if o == "="@ || o == "=="@ {
        Some(FilterOp::Eq)
    } else if o == "!="@ || o == "<>"@ {
        Some(FilterOp::Ne)
    } else if o == ">"@ {
        Some(FilterOp::Gt)
    } else if o == "<"@ {
        Some(FilterOp::Lt)
    } else if o == ">="@ {
        Some(FilterOp::Ge)
    } else if o == "<="@ {
        Some(FilterOp::Le)
    } else {
        None
    }
}

pub open spec fn is_ordering(op: FilterOp) -> bool {
    op == FilterOp::Gt || op == FilterOp::Lt || op == FilterOp::Ge || op == FilterOp::Le
}

pub open spec fn is_numeric_type(t: DataType) -> bool {
    t == DataType::Integer || t == DataType::Float
}

/// A value equals `v`: as numbers in a numeric column where both are
/// numerals, as text otherwise.
pub open spec fn cell_equals(c: Seq<char>, v: Seq<char>, numeric: bool) -> bool {
    if numeric && is_num_text(c) && is_num_text(v) {
        num_value(c) == num_value(v)
    } else {
        c == v
    }
}

/// Whether a row whose cell is `cell` passes the comparison with `v`;
/// a missing value passes none.
pub open spec fn keep(cell: Option<Seq<char>>, op: FilterOp, v: Seq<char>, numeric: bool) -> bool {
    match cell {
        None => false,
        Some(c) => match op {
            FilterOp::Eq => cell_equals(c, v, numeric),
            FilterOp::Ne => !cell_equals(c, v, numeric),
            FilterOp::Gt => is_num_text(c) && num_value(c) > num_value(v),
            FilterOp::Lt => is_num_text(c) && num_value(c) < num_value(v),
            FilterOp::Ge => is_num_text(c) && num_value(c) >= num_value(v),
            FilterOp::Le => is_num_text(c) && num_value(c) <= num_value(v),
        },
    }
}

/// One filter `column operator value` on a table: an unknown operator, or
/// an ordering against a value that is not a numeral, leaves the table as it
/// is; otherwise the rows that fail the comparison go, or the missing column
/// is the error.
pub open spec fn filter_step(t: TableView, c: Seq<char>, o: Seq<char>, v: Seq<char>) -> Result<TableView, Seq<char>> {
    match filter_op_of(o) {
        None => Ok(t),
        Some(op) => if is_ordering(op) && !is_num_text(v) {
            Ok(t)
        } else if !t.columns.contains(c) {
            Err(c)
        } else {
            let j = col_of(t.columns, c);
            let numeric = is_numeric_type(t.dtypes[j]);
            Ok(TableView { rows: t.rows.filter(|r: Seq<Option<Seq<char>>>| keep(r[j], op, v, numeric)), ..t })
        },
    }
}

fn filter_op_exec(o: &str) -> (r: Option<FilterOp>)
    ensures
        r == filter_op_of(o@),
{
    if same_text(o, "=") || same_text(o, "==") {
        Some(FilterOp::Eq)
    } else if same_text(o, "!=") || same_text(o, "<>") {
        Some(FilterOp::Ne)
    } else if same_text(o, ">") {
        Some(FilterOp::Gt)
    } else if same_text(o, "<") {
        Some(FilterOp::Lt)
    } else if same_text(o, ">=") {
        Some(FilterOp::Ge)
    } else if same_text(o, "<=") {
        Some(FilterOp::Le)
    } else {
        None
    }
}

fn keep_exec(cell: &Cell, op: FilterOp, v: &Vec<char>, vnum: Option<i128>, numeric: bool) -> (r: bool)
    requires
        vnum is Some <==> is_num_text(v@),
        vnum is Some ==> vnum->0 as int == num_value(v@),
        is_ordering(op) ==> vnum is Some,
    ensures
        r == keep(cell_view(*cell), op, v@, numeric),
{
    match cell {
        None => false,
        Some(s) => {
            let cs = chars_of(s.as_str());
            let cnum = parse_num(cs.as_slice());
            let eq = match (numeric, cnum, vnum) {
                (true, Some(a), Some(b)) => a == b,
                _ => same_text(s.as_str(), crate::text::text_of(v.as_slice()).as_str()),
            };
            match op {
                FilterOp::Eq => eq,
                FilterOp::Ne => !eq,
                FilterOp::Gt => match cnum { Some(a) => a > vnum.unwrap(), None => false },
                FilterOp::Lt => match cnum { Some(a) => a < vnum.unwrap(), None => false },
                FilterOp::Ge => match cnum { Some(a) => a >= vnum.unwrap(), None => false },
                FilterOp::Le => match cnum { Some(a) => a <= vnum.unwrap(), None => false },
            }
        },
    }
}

/// Applies one filter (see `filter_step`).
pub fn apply_filter(t: Table, c: &str, o: &str, v: &str) -> (r: Result<Table, ExecutionError>)
    requires
        t.wf(),
    ensures
        match (r, filter_step(t@, c@, o@, v@)) {
            (Ok(s), Ok(w)) => s@ == w && s.wf(),
            (Err(ExecutionError::UnknownColumn(n)), Err(w)) => n@ == w,
            _ => false,
        },
{
    let op = match filter_op_exec(o) {
        None => return Ok(t),
        Some(op) => op,
    };
    let vc = chars_of(v);
    let vnum = parse_num(vc.as_slice());
    if (op == FilterOp::Gt || op == FilterOp::Lt || op == FilterOp::Ge || op == FilterOp::Le) && vnum.is_none() {
        return Ok(t);
    }
    let j = match find_column(&t, c) {
        None => return Err(ExecutionError::UnknownColumn(String::from_str(c))),
        Some(j) => j,
    };
    let numeric = t.dtypes[j] == DataType::Integer || t.dtypes[j] == DataType::Float;
    let ghost pred = |r: Seq<Option<Seq<char>>>| keep(r[j as int], op, v@, numeric);
    let ghost tv = t@;
    let Table { columns, dtypes, rows } = t;
    let mut out: Vec<Vec<Cell>> = Vec::new();
    let mut i: usize = 0;
    while i < rows.len()
        invariant
            i <= rows@.len(),
            tv.rows == rows_view(rows@),
            tv.wf(),
            j < tv.columns.len(),
            vnum is Some <==> is_num_text(vc@),
            vnum is Some ==> vnum->0 as int == num_value(vc@),
            is_ordering(op) ==> vnum is Some,
            vc@ == v@,
            pred == (|r: Seq<Option<Seq<char>>>| keep(r[j as int], op, v@, numeric)),
            rows_view(out@) == tv.rows.subrange(0, i as int).filter(pred),
            forall|q: int| 0 <= q < out@.len() ==> (#[trigger] out@[q])@.len() == tv.columns.len(),
        decreases rows@.len() - i,
    {
        let row = &rows[i];
        assert(row_view(*row) == tv.rows[i as int]);
        assert(row@.len() == row_view(*row).len());
        let k = keep_exec(&row[j], op, &vc, vnum, numeric);
        assert(k == pred(tv.rows[i as int]));
        let ghost prev = out@;
        assert(tv.rows.subrange(0, i + 1).drop_last() =~= tv.rows.subrange(0, i as int));
        reveal(Seq::filter);
        if k {
            let rc = clone_row(row);
            out.push(rc);
            assert(rows_view(out@) =~= rows_view(prev).push(row_view(rc)));
        }
        i = i + 1;
    }
    assert(tv.rows.subrange(0, i as int) =~= tv.rows);
    let s = Table { columns, dtypes, rows: out };
    proof {
        let w = filter_step(tv, c@, o@, v@);
        assert(w is Ok);
        tv.rows.filter_lemma(pred);
        assert forall|q: int| 0 <= q < s@.rows.len() implies #[trigger] s@.rows[q].len() == s@.columns.len() by {
            assert(s@.rows[q] == row_view(out@[q]));
        }
    }
    Ok(s)
}


/// The values of the numerals among the cells, in order.
pub open spec fn col_values(col: Seq<Option<Seq<char>>>) -> Seq<int>
    decreases col.len(),
{
    if col.len() == 0 {
        seq![]
    } else {
        let p = col_values(col.drop_last());
        match col.last() {
            Some(s) => if is_num_text(s) { p.push(num_value(s)) } else { p },
            None => p,
        }
    }
}

pub open spec fn sum_of(v: Seq<int>) -> int
    decreases v.len(),
{
    if v.len() == 0 { 0 } else { sum_of(v.drop_last()) + v.last() }
}

/// Every running total of `v` is an exact fixed-point value.
pub open spec fn sums_fit(v: Seq<int>) -> bool {
    forall|k: int| 0 <= k <= v.len() ==> i128::MIN < #[trigger] sum_of(v.subrange(0, k)) <= i128::MAX
}

/// How many cells hold a value.
pub open spec fn non_null(col: Seq<Option<Seq<char>>>) -> nat
    decreases col.len(),
{
    if col.len() == 0 {
        0
    } else {
        non_null(col.drop_last()) + if col.last() is Some { 1nat } else { 0nat }
    }
}

/// Division that rounds toward zero.
pub open spec fn trunc_div(a: int, b: int) -> int {
    if a >= 0 { a / b } else { -((-a) / b) }
}

pub open spec fn one_cell(name: Seq<char>, t: DataType, c: Option<Seq<char>>) -> TableView {
    TableView { columns: seq![name], dtypes: seq![t], rows: seq![seq![c]] }
}

/// The mean of the numerals of a column, as a one-cell table named
/// `mean_<column>`, missing for a column without numerals.
pub open spec fn mean_view(c: Seq<char>, col: Seq<Option<Seq<char>>>) -> TableView {
    let v = col_values(col);
    one_cell(
        "mean_"@ + c,
        DataType::Float,
        if v.len() == 0 { None } else { Some(fixed_text(trunc_div(sum_of(v), v.len() as int))) },
    )
}

/// The sum of the numerals of a column, as a one-cell table named `sum_<column>`.
pub open spec fn sum_view(c: Seq<char>, t: DataType, col: Seq<Option<Seq<char>>>) -> TableView {
    one_cell("sum_"@ + c, t, Some(fixed_text(sum_of(col_values(col)))))
}

/// The number of values in a column, as a one-cell table named `count_<column>`.
pub open spec fn count_view(c: Seq<char>, col: Seq<Option<Seq<char>>>) -> TableView {
    one_cell("count_"@ + c, DataType::Integer, Some(nat_text(non_null(col))))
}

/// The total and the number of the numerals in `col`, if every running
/// total is exact.
pub(crate) fn column_total(t: &Table, j: usize) -> (r: Option<(i128, usize)>)
    requires
        t.wf(),
        j < t@.columns.len(),
    ensures
        match r {
            Some((s, n)) => sums_fit(col_values(t@.column(j as int))) && s as int == sum_of(col_values(t@.column(j as int)))
                && n == col_values(t@.column(j as int)).len(),
            None => !sums_fit(col_values(t@.column(j as int))),
        },
{
    let ghost col = t@.column(j as int);
    let mut total: i128 = 0;
    let mut n: usize = 0;
    let mut i: usize = 0;
    while i < t.rows.len()
        invariant
            t.wf(),
            j < t@.columns.len(),
            col == t@.column(j as int),
            i <= t.rows@.len(),
            n <= i,
            total as int == sum_of(col_values(col.subrange(0, i as int))),
            n == col_values(col.subrange(0, i as int)).len(),
            sums_fit(col_values(col.subrange(0, i as int))),
        decreases t.rows@.len() - i,
    {
        let ghost pre = col.subrange(0, i as int);
        let ghost nxt = col.subrange(0, i + 1);
        assert(nxt.drop_last() =~= pre);
        let row = &t.rows[i];
        assert(row_view(*row) == t@.rows[i as int]);
        assert(row@.len() == row_view(*row).len());
        assert(cell_view(row@[j as int]) == nxt.last());
        match &row[j] {
            Some(s) => {
                let cs = chars_of(s.as_str());
                match parse_num(cs.as_slice()) {
                    Some(x) => {
                        let ghost vals = col_values(nxt);
                        assert(vals == col_values(pre).push(x as int));
                        assert(vals.drop_last() =~= col_values(pre));
                        assert(vals.subrange(0, vals.len() as int) =~= vals);
                        assert forall|k: int| 0 <= k <= vals.len() - 1 implies
                            vals.subrange(0, k) =~= col_values(pre).subrange(0, k) by {}
                        let nt = total.checked_add(x);
                        match nt {
                            Some(v) if v > i128::MIN => {
                                total = v;
                                n = n + 1;
                                assert(sums_fit(vals)) by {
                                    assert forall|k: int| 0 <= k <= vals.len() implies i128::MIN < #[trigger] sum_of(vals.subrange(0, k)) <= i128::MAX by {
                                        if k < vals.len() {
                                            assert(vals.subrange(0, k) =~= col_values(pre).subrange(0, k));
                                        }
                                    }
                                }
                            },
                            _ => {
                                assert(sum_of(vals.subrange(0, vals.len() as int)) == sum_of(vals));
                                assert(!sums_fit(col_values(nxt)));
                                proof {
                                    lemma_prefix_fit(col, i + 1);
                                }
                                return None;
                            },
                        }
                    },
                    None => {
                        assert(col_values(nxt) == col_values(pre));
                    },
                }
            },
            None => {
                assert(col_values(nxt) == col_values(pre));
            },
        }
        i = i + 1;
    }
    assert(col.subrange(0, i as int) =~= col);
    Some((total, n))
}

pub proof fn lemma_values_prefix(col: Seq<Option<Seq<char>>>, i: int)
    requires
        0 <= i <= col.len(),
    ensures
        col_values(col.subrange(0, i)).len() <= col_values(col).len(),
        col_values(col.subrange(0, i)) == col_values(col).subrange(0, col_values(col.subrange(0, i)).len() as int),
    decreases col.len() - i,
{
    if i < col.len() {
        lemma_values_prefix(col, i + 1);
        let a = col.subrange(0, i);
        let b = col.subrange(0, i + 1);
        assert(b.drop_last() =~= a);
        let vb = col_values(b);
        let va = col_values(a);
        assert(va == vb || va == vb.drop_last());
        assert(vb.subrange(0, va.len() as int) =~= va);
    } else {
        assert(col.subrange(0, i) =~= col);
        assert(col_values(col).subrange(0, col_values(col).len() as int) =~= col_values(col));
    }
}

proof fn lemma_prefix_fit(col: Seq<Option<Seq<char>>>, i: int)
    requires
        0 <= i <= col.len(),
        !sums_fit(col_values(col.subrange(0, i))),
    ensures
        !sums_fit(col_values(col)),
{
    lemma_values_prefix(col, i);
    let p = col_values(col.subrange(0, i));
    let k = choose|k: int| 0 <= k <= p.len() && !(i128::MIN < #[trigger] sum_of(p.subrange(0, k)) <= i128::MAX);
    assert(p.subrange(0, k) =~= col_values(col).subrange(0, k));
}

fn non_null_count(t: &Table, j: usize) -> (r: usize)
    requires
        t.wf(),
        j < t@.columns.len(),
    ensures
        r == non_null(t@.column(j as int)),
{
    let ghost col = t@.column(j as int);
    let mut n: usize = 0;
    let mut i: usize = 0;
    while i < t.rows.len()
        invariant
            t.wf(),
            j < t@.columns.len(),
            col == t@.column(j as int),
            i <= t.rows@.len(),
            n <= i,
            n == non_null(col.subrange(0, i as int)),
        decreases t.rows@.len() - i,
    {
        let ghost pre = col.subrange(0, i as int);
        let ghost nxt = col.subrange(0, i + 1);
        assert(nxt.drop_last() =~= pre);
        let row = &t.rows[i];
        assert(row_view(*row) == t@.rows[i as int]);
        assert(row@.len() == row_view(*row).len());
        assert(cell_view(row@[j as int]) == nxt.last());
        if row[j].is_some() {
            n = n + 1;
        }
        i = i + 1;
    }
    assert(col.subrange(0, i as int) =~= col);
    n
}

fn one_cell_table(name: String, t: DataType, c: Cell) -> (r: Table)
    ensures
        r@ == one_cell(name@, t, cell_view(c)),
        r.wf(),
{
    let r = Table { columns: vec![name], dtypes: vec![t], rows: vec![vec![c]] };
    assert(r@.columns =~= seq![name@]);
    assert(r@.dtypes =~= seq![t]);
    assert(r@.rows[0] =~= seq![cell_view(c)]);
    assert(r@.rows =~= seq![seq![cell_view(c)]]);
    r
}

/// The error of a mean or sum over column `c` of `t`, if any.
pub open spec fn numeric_error(t: TableView, c: Seq<char>) -> Option<AggError> {
    if !t.columns.contains(c) {
        Some(AggError::UnknownColumn)
    } else if !is_numeric_type(t.dtypes[col_of(t.columns, c)]) {
        Some(AggError::NotNumeric)
    } else if !sums_fit(col_values(t.column(col_of(t.columns, c)))) {
        Some(AggError::Overflow)
    } else {
        None
    }
}

pub enum AggError {
    UnknownColumn,
    NotNumeric,
    Overflow,
}

pub open spec fn error_is(e: ExecutionError, k: AggError, c: Seq<char>) -> bool {
    match (e, k) {
        (ExecutionError::UnknownColumn(n), AggError::UnknownColumn) => n@ == c,
        (ExecutionError::NotNumeric(n), AggError::NotNumeric) => n@ == c,
        (ExecutionError::Overflow(n), AggError::Overflow) => n@ == c,
        _ => false,
    }
}

/// The mean (`mean`) or the sum (otherwise) of column `c`.
pub fn aggregate_numeric(t: &Table, c: &str, mean: bool) -> (r: Result<Table, ExecutionError>)
    requires
        t.wf(),
    ensures
        match r {
            Ok(s) => numeric_error(t@, c@) is None && s.wf() && s@ == if mean {
                mean_view(c@, t@.column(col_of(t@.columns, c@)))
            } else {
                sum_view(c@, t@.dtypes[col_of(t@.columns, c@)], t@.column(col_of(t@.columns, c@)))
            },
            Err(e) => numeric_error(t@, c@) is Some && error_is(e, numeric_error(t@, c@)->0, c@),
        },
{
    let j = match find_column(t, c) {
        None => return Err(ExecutionError::UnknownColumn(String::from_str(c))),
        Some(j) => j,
    };
    let dt = t.dtypes[j];
    if !(dt == DataType::Integer || dt == DataType::Float) {
        return Err(ExecutionError::NotNumeric(String::from_str(c)));
    }
    let (total, n) = match column_total(t, j) {
        None => return Err(ExecutionError::Overflow(String::from_str(c))),
        Some(p) => p,
    };
    proof {
        let v = col_values(t@.column(j as int));
        assert(v.subrange(0, v.len() as int) =~= v);
    }
    if mean {
        let name = join2("mean_", c);
        let cell = if n == 0 {
            None
        } else {
            let q: i128 = if total >= 0 { total / (n as i128) } else { -((-total) / (n as i128)) };
            Some(fixed_to_text(q))
        };
        Ok(one_cell_table(name, DataType::Float, cell))
    } else {
        let name = join2("sum_", c);
        Ok(one_cell_table(name, dt, Some(fixed_to_text(total))))
    }
}

/// The number of values in column `c`.
pub fn aggregate_count(t: &Table, c: &str) -> (r: Result<Table, ExecutionError>)
    requires
        t.wf(),
    ensures
        match r {
            Ok(s) => t@.columns.contains(c@) && s.wf() && s@ == count_view(c@, t@.column(col_of(t@.columns, c@))),
            Err(ExecutionError::UnknownColumn(n)) => !t@.columns.contains(c@) && n@ == c@,
            Err(_) => false,
        },
{
    let j = match find_column(t, c) {
        None => return Err(ExecutionError::UnknownColumn(String::from_str(c))),
        Some(j) => j,
    };
    let n = non_null_count(t, j);
    let name = join2("count_", c);
    Ok(one_cell_table(name, DataType::Integer, Some(count_text(n))))
}


/// The distinct cells of a column, in order of first appearance.
pub open spec fn distinct_cells(col: Seq<Option<Seq<char>>>) -> Seq<Option<Seq<char>>>
    decreases col.len(),
{
    if col.len() == 0 {
        seq![]
    } else {
        let p = distinct_cells(col.drop_last());
        if p.contains(col.last()) { p } else { p.push(col.last()) }
    }
}

/// How many cells of a column equal `x`.
pub open spec fn occurrences(col: Seq<Option<Seq<char>>>, x: Option<Seq<char>>) -> nat
    decreases col.len(),
{
    if col.len() == 0 {
        0
    } else {
        occurrences(col.drop_last(), x) + if col.last() == x { 1nat } else { 0nat }
    }
}

/// One row per distinct cell of the column, in order of first appearance,
/// with the number of rows that hold it, in `count_<column>`.
pub open spec fn group_view(c: Seq<char>, t: DataType, col: Seq<Option<Seq<char>>>) -> TableView {
    let d = distinct_cells(col);
    TableView {
        columns: seq![c, "count_"@ + c],
        dtypes: seq![t, DataType::Integer],
        rows: Seq::new(d.len(), |k: int| seq![d[k], Some(nat_text(occurrences(col, d[k])))]),
    }
}

pub proof fn lemma_occurrences(col: Seq<Option<Seq<char>>>, x: Option<Seq<char>>)
    ensures
        occurrences(col, x) <= col.len(),
        occurrences(col, x) > 0 ==> distinct_cells(col).contains(x),
        forall|a: int, b: int| 0 <= a < b < distinct_cells(col).len() ==> distinct_cells(col)[a] != distinct_cells(col)[b],
    decreases col.len(),
{
    if col.len() > 0 {
        lemma_occurrences(col.drop_last(), x);
        let p = distinct_cells(col.drop_last());
        if !p.contains(col.last()) {
            assert(distinct_cells(col) == p.push(col.last()));
            assert forall|a: int, b: int| 0 <= a < b < distinct_cells(col).len() implies distinct_cells(col)[a] != distinct_cells(col)[b] by {
                if b == p.len() {
                    assert(p[a] == distinct_cells(col)[a]);
                }
            }
            if occurrences(col.drop_last(), x) > 0 {
                let k = choose|k: int| 0 <= k < p.len() && p[k] == x;
                assert(distinct_cells(col)[k] == x);
            }
            if col.last() == x {
                assert(distinct_cells(col)[p.len() as int] == x);
            }
        }
    }
}

pub(crate) fn cell_eq(a: &Cell, b: &Cell) -> (r: bool)
    ensures
        r == (cell_view(*a) == cell_view(*b)),
{
    match (a, b) {
        (None, None) => true,
        (Some(x), Some(y)) => same_text(x.as_str(), y.as_str()),
        _ => false,
    }
}

/// Groups the rows by column `c` and counts each group.
pub fn aggregate_group(t: &Table, c: &str) -> (r: Result<Table, ExecutionError>)
    requires
        t.wf(),
    ensures
        match r {
            Ok(s) => t@.columns.contains(c@) && s.wf() && s@ == group_view(
                c@,
                t@.dtypes[col_of(t@.columns, c@)],
                t@.column(col_of(t@.columns, c@)),
            ),
            Err(ExecutionError::UnknownColumn(n)) => !t@.columns.contains(c@) && n@ == c@,
            Err(_) => false,
        },
{
    let j = match find_column(t, c) {
        None => return Err(ExecutionError::UnknownColumn(String::from_str(c))),
        Some(j) => j,
    };
    let ghost col = t@.column(j as int);
    let mut keys: Vec<Cell> = Vec::new();
    let mut counts: Vec<usize> = Vec::new();
    let mut i: usize = 0;
    while i < t.rows.len()
        invariant
            t.wf(),
            j < t@.columns.len(),
            col == t@.column(j as int),
            i <= t.rows@.len(),
            row_view(keys) == distinct_cells(col.subrange(0, i as int)),
            counts@.len() == keys@.len(),
            forall|k: int| 0 <= k < counts@.len() ==> #[trigger] counts@[k] as nat == occurrences(col.subrange(0, i as int), cell_view(keys@[k])),
        decreases t.rows@.len() - i,
    {
        let ghost pre = col.subrange(0, i as int);
        let ghost nxt = col.subrange(0, i + 1);
        assert(nxt.drop_last() =~= pre);
        let row = &t.rows[i];
        assert(row_view(*row) == t@.rows[i as int]);
        assert(row@.len() == row_view(*row).len());
        let x = &row[j];
        assert(cell_view(*x) == nxt.last());
        let mut k: usize = 0;
        while k < keys.len() && !cell_eq(&keys[k], x)
            invariant
                k <= keys@.len(),
                forall|q: int| 0 <= q < k ==> cell_view(#[trigger] keys@[q]) != cell_view(*x),
            decreases keys@.len() - k,
        {
            k = k + 1;
        }
        proof {
            lemma_occurrences(pre, cell_view(*x));
            assert forall|q: int| 0 <= q < counts@.len() implies occurrences(pre, cell_view(#[trigger] keys@[q])) <= i by {
                lemma_occurrences(pre, cell_view(keys@[q]));
            }
        }
        if k < keys.len() {
            assert(distinct_cells(pre)[k as int] == cell_view(*x));
            assert(distinct_cells(nxt) == distinct_cells(pre));
            let v = counts[k];
            counts.set(k, v + 1);
            proof {
                assert forall|q: int| 0 <= q < counts@.len() implies #[trigger] counts@[q] as nat == occurrences(nxt, cell_view(keys@[q])) by {
                    if q != k {
                        assert(distinct_cells(pre)[q] != distinct_cells(pre)[k as int]);
                    }
                }
            }
        } else {
            assert(!distinct_cells(pre).contains(cell_view(*x))) by {
                if distinct_cells(pre).contains(cell_view(*x)) {
                    let q = choose|q: int| 0 <= q < distinct_cells(pre).len() && distinct_cells(pre)[q] == cell_view(*x);
                    assert(cell_view(keys@[q]) == distinct_cells(pre)[q]);
                }
            }
            let nk = crate::table::clone_cell(x);
            let ghost prevk = keys@;
            keys.push(nk);
            counts.push(1);
            assert(row_view(keys) =~= prevk.map_values(|c: Cell| cell_view(c)).push(cell_view(nk)));
            proof {
                assert forall|q: int| 0 <= q < counts@.len() implies #[trigger] counts@[q] as nat == occurrences(nxt, cell_view(keys@[q])) by {
                    if q < prevk.len() {
                        assert(keys@[q] == prevk[q]);
                        assert(cell_view(keys@[q]) == distinct_cells(pre)[q]);
                    }
                }
            }
        }
        i = i + 1;
    }
    assert(col.subrange(0, i as int) =~= col);
    let ghost want = group_view(c@, t@.dtypes[j as int], col);
    let mut rows: Vec<Vec<Cell>> = Vec::new();
    let mut q: usize = 0;
    while q < keys.len()
        invariant
            q <= keys@.len() == counts@.len(),
            row_view(keys) == distinct_cells(col),
            forall|k: int| 0 <= k < counts@.len() ==> #[trigger] counts@[k] as nat == occurrences(col, cell_view(keys@[k])),
            want == group_view(c@, t@.dtypes[j as int], col),
            rows_view(rows@) == want.rows.subrange(0, q as int),
            forall|k: int| 0 <= k < rows@.len() ==> (#[trigger] rows@[k])@.len() == 2,
        decreases keys@.len() - q,
    {
        let key = crate::table::clone_cell(&keys[q]);
        let n = Some(count_text(counts[q]));
        let row = vec![key, n];
        assert(row_view(row) =~= want.rows[q as int]);
        let ghost prev = rows@;
        rows.push(row);
        assert(rows_view(rows@) =~= rows_view(prev).push(row_view(row)));
        assert(want.rows.subrange(0, q + 1) =~= want.rows.subrange(0, q as int).push(want.rows[q as int]));
        q = q + 1;
    }
    assert(want.rows.subrange(0, q as int) =~= want.rows);
    let s = Table {
        columns: vec![String::from_str(c), join2("count_", c)],
        dtypes: vec![t.dtypes[j], DataType::Integer],
        rows,
    };
    assert(s@.columns =~= want.columns);
    assert(s@.dtypes =~= want.dtypes);
    assert(s.wf()) by {
        assert forall|k: int| 0 <= k < s@.rows.len() implies #[trigger] s@.rows[k].len() == s@.columns.len() by {
            assert(s@.rows[k] == row_view(rows@[k]));
        }
    }
    Ok(s)
}


/// Lexicographic order of text, by character code.
pub open spec fn lex_le(a: Seq<char>, b: Seq<char>) -> bool
    decreases a.len(),
{
    if a.len() == 0 {
        true
    } else if b.len() == 0 {
        false
    } else if a[0] != b[0] {
        a[0] < b[0]
    } else {
        lex_le(a.drop_first(), b.drop_first())
    }
}

proof fn lemma_lex_total(a: Seq<char>, b: Seq<char>)
    ensures
        lex_le(a, b) || lex_le(b, a),
    decreases a.len(),
{
    if a.len() > 0 && b.len() > 0 && a[0] == b[0] {
        lemma_lex_total(a.drop_first(), b.drop_first());
    }
}

proof fn lemma_lex_trans(a: Seq<char>, b: Seq<char>, c: Seq<char>)
    requires
        lex_le(a, b),
        lex_le(b, c),
    ensures
        lex_le(a, c),
    decreases a.len(),
{
    if a.len() > 0 && b.len() > 0 && c.len() > 0 && a[0] == b[0] && b[0] == c[0] {
        lemma_lex_trans(a.drop_first(), b.drop_first(), c.drop_first());
    }
}

/// The sort order of cells: missing values first; in a numeric column,
/// text that is no numeral next, then numbers by value; in other columns,
/// text in lexicographic order.
pub open spec fn cell_le(a: Option<Seq<char>>, b: Option<Seq<char>>, numeric: bool) -> bool {
    match (a, b) {
        (None, _) => true,
        (Some(_), None) => false,
        (Some(x), Some(y)) => if numeric {
            match (num_of(x), num_of(y)) {
                (None, _) => true,
                (Some(_), None) => false,
                (Some(p), Some(q)) => p <= q,
            }
        } else {
            lex_le(x, y)
        },
    }
}

/// Row order by column `j`, ascending or descending.
pub open spec fn row_le(r1: Seq<Option<Seq<char>>>, r2: Seq<Option<Seq<char>>>, j: int, numeric: bool, asc: bool) -> bool {
    if asc { cell_le(r1[j], r2[j], numeric) } else { cell_le(r2[j], r1[j], numeric) }
}

pub open spec fn sorted_by(rows: Seq<Seq<Option<Seq<char>>>>, j: int, numeric: bool, asc: bool) -> bool {
    forall|a: int, b: int| 0 <= a < b < rows.len() ==> row_le(#[trigger] rows[a], #[trigger] rows[b], j, numeric, asc)
}

proof fn lemma_cell_total(a: Option<Seq<char>>, b: Option<Seq<char>>, numeric: bool)
    ensures
        cell_le(a, b, numeric) || cell_le(b, a, numeric),
{
    if let (Some(x), Some(y)) = (a, b) {
        if !numeric {
            lemma_lex_total(x, y);
        }
    }
}

proof fn lemma_cell_trans(a: Option<Seq<char>>, b: Option<Seq<char>>, c: Option<Seq<char>>, numeric: bool)
    requires
        cell_le(a, b, numeric),
        cell_le(b, c, numeric),
    ensures
        cell_le(a, c, numeric),
{
    if let (Some(x), Some(y), Some(z)) = (a, b, c) {
        if !numeric {
            lemma_lex_trans(x, y, z);
        }
    }
}

fn lex_le_exec(a: &Vec<char>, b: &Vec<char>) -> (r: bool)
    ensures
        r == lex_le(a@, b@),
{
    let mut i: usize = 0;
    assert(a@.subrange(0, a@.len() as int) =~= a@);
    assert(b@.subrange(0, b@.len() as int) =~= b@);
    while i < a.len() && i < b.len() && a[i] == b[i]
        invariant
            i <= a@.len(),
            i <= b@.len(),
            lex_le(a@, b@) == lex_le(a@.subrange(i as int, a@.len() as int), b@.subrange(i as int, b@.len() as int)),
        decreases a@.len() - i,
    {
        let ghost sa = a@.subrange(i as int, a@.len() as int);
        let ghost sb = b@.subrange(i as int, b@.len() as int);
        assert(sa.drop_first() =~= a@.subrange(i + 1, a@.len() as int));
        assert(sb.drop_first() =~= b@.subrange(i + 1, b@.len() as int));
        i = i + 1;
    }
    let ghost sa = a@.subrange(i as int, a@.len() as int);
    let ghost sb = b@.subrange(i as int, b@.len() as int);
    if i == a.len() {
        true
    } else if i == b.len() {
        false
    } else {
        assert(sa[0] == a@[i as int] && sb[0] == b@[i as int]);
        a[i] < b[i]
    }
}

fn cell_le_exec(a: &Cell, b: &Cell, numeric: bool) -> (r: bool)
    ensures
        r == cell_le(cell_view(*a), cell_view(*b), numeric),
{
    match (a, b) {
        (None, _) => true,
        (Some(_), None) => false,
        (Some(x), Some(y)) => {
            let xc = chars_of(x.as_str());
            let yc = chars_of(y.as_str());
            if numeric {
                match (parse_num(xc.as_slice()), parse_num(yc.as_slice())) {
                    (None, _) => true,
                    (Some(_), None) => false,
                    (Some(p), Some(q)) => p <= q,
                }
            } else {
                lex_le_exec(&xc, &yc)
            }
        },
    }
}

fn row_le_exec(a: &Vec<Cell>, b: &Vec<Cell>, j: usize, numeric: bool, asc: bool) -> (r: bool)
    requires
        j < a@.len(),
        j < b@.len(),
    ensures
        r == row_le(row_view(*a), row_view(*b), j as int, numeric, asc),
{
    if asc { cell_le_exec(&a[j], &b[j], numeric) } else { cell_le_exec(&b[j], &a[j], numeric) }
}

/// The rows in the order of column `j` (ascending or descending), rows that
/// tie keeping their order.
fn sort_rows(rows: &Vec<Vec<Cell>>, j: usize, w: usize, numeric: bool, asc: bool) -> (r: Vec<Vec<Cell>>)
    requires
        j < w,
        forall|i: int| 0 <= i < rows@.len() ==> (#[trigger] rows@[i])@.len() == w,
    ensures
        rows_view(r@).to_multiset() == rows_view(rows@).to_multiset(),
        sorted_by(rows_view(r@), j as int, numeric, asc),
        r@.len() == rows@.len(),
        forall|i: int| 0 <= i < r@.len() ==> (#[trigger] r@[i])@.len() == w,
{
    broadcast use vstd::seq_lib::group_to_multiset_ensures;
    let mut res: Vec<Vec<Cell>> = Vec::new();
    let mut i: usize = 0;
    while i < rows.len()
        invariant
            i <= rows@.len(),
            j < w,
            forall|q: int| 0 <= q < rows@.len() ==> (#[trigger] rows@[q])@.len() == w,
            res@.len() == i,
            rows_view(res@).to_multiset() == rows_view(rows@.subrange(0, i as int)).to_multiset(),
            sorted_by(rows_view(res@), j as int, numeric, asc),
            forall|q: int| 0 <= q < res@.len() ==> (#[trigger] res@[q])@.len() == w,
        decreases rows@.len() - i,
    {
        let x = clone_row(&rows[i]);
        assert(row_view(x).len() == x@.len());
        assert(row_view(rows@[i as int]).len() == rows@[i as int]@.len());
        let ghost rv = rows_view(res@);
        let mut p: usize = 0;
        while p < res.len() && row_le_exec(&res[p], &x, j, numeric, asc)
            invariant
                p <= res@.len(),
                j < x@.len(),
                j < w,
                forall|q: int| 0 <= q < res@.len() ==> (#[trigger] res@[q])@.len() == w,
                rv == rows_view(res@),
                forall|q: int| 0 <= q < p ==> row_le(#[trigger] rv[q], row_view(x), j as int, numeric, asc),
            decreases res@.len() - p,
        {
            p = p + 1;
        }
        let ghost xv = row_view(x);
        proof {
            if p < res@.len() {
                assert(!row_le(rv[p as int], xv, j as int, numeric, asc));
            }
            assert forall|q: int| p <= q < rv.len() implies row_le(xv, #[trigger] rv[q], j as int, numeric, asc) by {
                lemma_cell_total(rv[p as int][j as int], xv[j as int], numeric);
                if q > p {
                    assert(row_le(rv[p as int], rv[q], j as int, numeric, asc));
                    if asc {
                        lemma_cell_trans(xv[j as int], rv[p as int][j as int], rv[q][j as int], numeric);
                    } else {
                        lemma_cell_trans(rv[q][j as int], rv[p as int][j as int], xv[j as int], numeric);
                    }
                }
            }
        }
        let ghost old_res = res@;
        res.insert(p, x);
        proof {
            assert(rows_view(res@) =~= rv.insert(p as int, xv));
            vstd::seq_lib::to_multiset_insert(rv, p as int, xv);
            let pre = rows@.subrange(0, i as int);
            let nxt = rows@.subrange(0, i + 1);
            assert(nxt =~= pre.push(rows@[i as int]));
            assert(rows_view(nxt) =~= rows_view(pre).push(xv));
            vstd::seq_lib::to_multiset_build(rows_view(pre), xv);
            let nv = rows_view(res@);
            assert forall|a: int, b: int| 0 <= a < b < nv.len() implies row_le(#[trigger] nv[a], #[trigger] nv[b], j as int, numeric, asc) by {
                if b < p {
                    assert(nv[a] == rv[a] && nv[b] == rv[b]);
                } else if b == p {
                    assert(nv[a] == rv[a] && nv[b] == xv);
                } else if a == p {
                    assert(nv[a] == xv && nv[b] == rv[b - 1]);
                } else if a < p {
                    assert(nv[a] == rv[a] && nv[b] == rv[b - 1]);
                } else {
                    assert(nv[a] == rv[a - 1] && nv[b] == rv[b - 1]);
                }
            }
            assert forall|q: int| 0 <= q < res@.len() implies (#[trigger] res@[q])@.len() == w by {
                if q < p {
                    assert(res@[q] == old_res[q]);
                } else if q == p {
                    assert(res@[q]@.len() == rows@[i as int]@.len());
                } else {
                    assert(res@[q] == old_res[q - 1]);
                }
            }
        }
        i = i + 1;
    }
    assert(rows@.subrange(0, i as int) =~= rows@);
    res
}


/// The mathematical content of an execution error.
pub enum ErrView {
    UnknownColumn(Seq<char>),
    NotNumeric(Seq<char>),
    Overflow(Seq<char>),
}

pub open spec fn err_view(e: ExecutionError) -> ErrView {
    match e {
        ExecutionError::UnknownColumn(c) => ErrView::UnknownColumn(c@),
        ExecutionError::NotNumeric(c) => ErrView::NotNumeric(c@),
        ExecutionError::Overflow(c) => ErrView::Overflow(c@),
    }
}

/// `r` is the outcome `w`.
pub open spec fn result_is(r: Result<Table, ExecutionError>, w: Result<TableView, ErrView>) -> bool {
    match r {
        Ok(s) => w == Ok::<TableView, ErrView>(s@) && s.wf(),
        Err(e) => w == Err::<TableView, ErrView>(err_view(e)),
    }
}

pub open spec fn result_view(r: Result<Table, ExecutionError>) -> Result<TableView, ErrView> {
    match r {
        Ok(s) => Ok(s@),
        Err(e) => Err(err_view(e)),
    }
}

pub open spec fn agg_error(k: AggError, c: Seq<char>) -> ErrView {
    match k {
        AggError::UnknownColumn => ErrView::UnknownColumn(c),
        AggError::NotNumeric => ErrView::NotNumeric(c),
        AggError::Overflow => ErrView::Overflow(c),
    }
}

/// One aggregate operation: it replaces the table with its result; other
/// operations leave the table as it is.
pub open spec fn agg_step(t: TableView, op: OpView) -> Result<TableView, ErrView> {
    match op {
        OpView::Mean(c) => match numeric_error(t, c) {
            Some(k) => Err(agg_error(k, c)),
            None => Ok(mean_view(c, t.column(col_of(t.columns, c)))),
        },
        OpView::Sum(c) => match numeric_error(t, c) {
            Some(k) => Err(agg_error(k, c)),
            None => Ok(sum_view(c, t.dtypes[col_of(t.columns, c)], t.column(col_of(t.columns, c)))),
        },
        OpView::Count(c) => if t.columns.contains(c) {
            Ok(count_view(c, t.column(col_of(t.columns, c))))
        } else {
            Err(ErrView::UnknownColumn(c))
        },
        OpView::GroupBy(c) => if t.columns.contains(c) {
            Ok(group_view(c, t.dtypes[col_of(t.columns, c)], t.column(col_of(t.columns, c))))
        } else {
            Err(ErrView::UnknownColumn(c))
        },
        _ => Ok(t),
    }
}

/// The aggregate operations applied in order, each to the previous result.
pub open spec fn aggregates(t: TableView, ops: Seq<OpView>) -> Result<TableView, ErrView>
    decreases ops.len(),
{
    if ops.len() == 0 {
        Ok(t)
    } else {
        match aggregates(t, ops.drop_last()) {
            Ok(t2) => agg_step(t2, ops.last()),
            Err(e) => Err(e),
        }
    }
}

/// The filter operations applied in order; other operations are ignored.
pub open spec fn filters(t: TableView, ops: Seq<OpView>) -> Result<TableView, ErrView>
    decreases ops.len(),
{
    if ops.len() == 0 {
        Ok(t)
    } else {
        match filters(t, ops.drop_last()) {
            Ok(t2) => match ops.last() {
                OpView::Filter(c, o, v) => match filter_step(t2, c, o, v) {
                    Ok(t3) => Ok(t3),
                    Err(c) => Err(ErrView::UnknownColumn(c)),
                },
                _ => Ok(t2),
            },
            Err(e) => Err(e),
        }
    }
}

/// `k` is the first of `names` that `cols` lacks.
pub open spec fn missing_at(cols: Seq<Seq<char>>, names: Seq<Seq<char>>, k: int) -> bool {
    0 <= k < names.len() && !cols.contains(names[k]) && forall|q: int| 0 <= q < k ==> cols.contains(names[q])
}

/// The requested columns of a table (all of them, if none is requested).
pub open spec fn project(t: TableView, names: Seq<Seq<char>>) -> Result<TableView, ErrView> {
    if names.len() == 0 {
        Ok(t)
    } else if has_all(t.columns, names) {
        Ok(select_view(t, names))
    } else {
        Err(ErrView::UnknownColumn(names[choose|k: int| missing_at(t.columns, names, k)]))
    }
}

/// The first sort operation, from `from` on, whose column the table lacks.
pub open spec fn sort_missing(cols: Seq<Seq<char>>, ops: Seq<OpView>) -> Option<Seq<char>>
    decreases ops.len(),
{
    if ops.len() == 0 {
        None
    } else {
        match ops[0] {
            OpView::SortBy(c, _) => if !cols.contains(c) { Some(c) } else { sort_missing(cols, ops.drop_first()) },
            _ => sort_missing(cols, ops.drop_first()),
        }
    }
}

/// The last sort operation: a later sort overrides an earlier one.
pub open spec fn last_sort(ops: Seq<OpView>) -> Option<(Seq<char>, bool)>
    decreases ops.len(),
{
    if ops.len() == 0 {
        None
    } else {
        match ops.last() {
            OpView::SortBy(c, a) => Some((c, a)),
            _ => last_sort(ops.drop_last()),
        }
    }
}

/// `s` holds the rows of `t`, ordered by column `c`.
pub open spec fn sorted_version(t: TableView, s: TableView, c: Seq<char>, asc: bool) -> bool {
    let j = col_of(t.columns, c);
    &&& s.columns == t.columns
    &&& s.dtypes == t.dtypes
    &&& s.rows.to_multiset() == t.rows.to_multiset()
    &&& s.rows.len() == t.rows.len()
    &&& sorted_by(s.rows, j, is_numeric_type(t.dtypes[j]), asc)
}

/// Rows shown by a description.
pub const DESCRIBE_ROWS: usize = 10;

/// Rows handed to a chart at most.
pub const VISUALIZE_ROWS: usize = 100;

/// The outcome of a query on a table, by intent: a description is the first
/// rows; aggregates replace the table in turn; filters apply in turn, then
/// the requested columns are kept; a sort orders the rows by the last sort
/// operation, then keeps the requested columns; a chart request keeps the
/// requested columns of the first rows.
pub open spec fn query_result(t: TableView, q: crate::query::QueryView, r: Result<TableView, ErrView>) -> bool {
    match q.intent {
        QueryIntent::Describe => r == Ok::<TableView, ErrView>(head_view(t, DESCRIBE_ROWS as nat)),
        QueryIntent::Aggregate => r == aggregates(t, q.operations),
        QueryIntent::Filter => r == match filters(t, q.operations) {
            Ok(t2) => project(t2, q.columns),
            Err(e) => Err(e),
        },
        QueryIntent::Sort => match sort_missing(t.columns, q.operations) {
            Some(c) => r == Err::<TableView, ErrView>(ErrView::UnknownColumn(c)),
            None => match last_sort(q.operations) {
                None => r == project(t, q.columns),
                Some((c, asc)) => exists|s: TableView| sorted_version(t, s, c, asc) && r == project(s, q.columns),
            },
        },
        QueryIntent::Visualize => r == match project(t, q.columns) {
            Ok(t2) => Ok(head_view(t2, VISUALIZE_ROWS as nat)),
            Err(e) => Err(e),
        },
    }
}


proof fn lemma_missing_unique(cols: Seq<Seq<char>>, names: Seq<Seq<char>>, k: int)
    requires
        missing_at(cols, names, k),
    ensures
        (choose|q: int| missing_at(cols, names, q)) == k,
{
    let q = choose|q: int| missing_at(cols, names, q);
    assert(missing_at(cols, names, q));
    if q < k {
        assert(cols.contains(names[q]));
    } else if q > k {
        assert(cols.contains(names[k]));
    }
}

/// The requested columns (see `project`).
pub fn project_exec(t: Table, names: &Vec<String>) -> (r: Result<Table, ExecutionError>)
    requires
        t.wf(),
    ensures
        result_is(r, project(t@, names_view(names@))),
{
    if names.len() == 0 {
        return Ok(t);
    }
    let r = select(&t, names);
    match &r {
        Ok(s) => {},
        Err(e) => {
            proof {
                let k = choose|k: int| missing_at(t@.columns, names_view(names@), k) && names_view(names@)[k] == err_view(*e)->UnknownColumn_0;
                lemma_missing_unique(t@.columns, names_view(names@), k);
                assert(!has_all(t@.columns, names_view(names@)));
            }
        },
    }
    r
}

/// Applies the filter operations in order (see `filters`).
pub fn apply_filters(t: Table, ops: &Vec<ColumnOperation>) -> (r: Result<Table, ExecutionError>)
    requires
        t.wf(),
    ensures
        result_is(r, filters(t@, ops_view(ops@))),
{
    let ghost t0 = t@;
    let mut cur = t;
    let mut i: usize = 0;
    while i < ops.len()
        invariant
            i <= ops@.len(),
            cur.wf(),
            t0 == t@,
            filters(t0, ops_view(ops@).subrange(0, i as int)) == Ok::<TableView, ErrView>(cur@),
        decreases ops@.len() - i,
    {
        let ghost pre = ops_view(ops@).subrange(0, i as int);
        let ghost nxt = ops_view(ops@).subrange(0, i + 1);
        assert(nxt.drop_last() =~= pre);
        assert(nxt.last() == ops@[i as int]@);
        match &ops[i] {
            ColumnOperation::Filter(c, o, v) => {
                match apply_filter(cur, c.as_str(), o.as_str(), v.as_str()) {
                    Ok(s) => {
                        cur = s;
                    },
                    Err(e) => {
                        assert(nxt.last() == OpView::Filter(c@, o@, v@));
                        assert(filters(t0, nxt) == Err::<TableView, ErrView>(err_view(e)));
                        proof {
                            lemma_filters_err(t0, ops_view(ops@), i as int + 1);
                            assert(filters(t0, ops_view(ops@)) == Err::<TableView, ErrView>(err_view(e)));
                        }
                        return Err(e);
                    },
                }
            },
            _ => {},
        }
        i = i + 1;
    }
    assert(ops_view(ops@).subrange(0, i as int) =~= ops_view(ops@));
    Ok(cur)
}

proof fn lemma_filters_err(t: TableView, ops: Seq<OpView>, i: int)
    requires
        0 <= i <= ops.len(),
        filters(t, ops.subrange(0, i)) is Err,
    ensures
        filters(t, ops) == filters(t, ops.subrange(0, i)),
    decreases ops.len() - i,
{
    if i < ops.len() {
        assert(ops.subrange(0, i + 1).drop_last() =~= ops.subrange(0, i));
        lemma_filters_err(t, ops, i + 1);
    } else {
        assert(ops.subrange(0, i) =~= ops);
    }
}

proof fn lemma_aggregates_err(t: TableView, ops: Seq<OpView>, i: int)
    requires
        0 <= i <= ops.len(),
        aggregates(t, ops.subrange(0, i)) is Err,
    ensures
        aggregates(t, ops) == aggregates(t, ops.subrange(0, i)),
    decreases ops.len() - i,
{
    if i < ops.len() {
        assert(ops.subrange(0, i + 1).drop_last() =~= ops.subrange(0, i));
        lemma_aggregates_err(t, ops, i + 1);
    } else {
        assert(ops.subrange(0, i) =~= ops);
    }
}

/// One aggregate operation (see `agg_step`).
pub fn apply_aggregate(t: Table, op: &ColumnOperation) -> (r: Result<Table, ExecutionError>)
    requires
        t.wf(),
    ensures
        result_is(r, agg_step(t@, op@)),
{
    match op {
        ColumnOperation::Mean(c) => aggregate_numeric(&t, c.as_str(), true),
        ColumnOperation::Sum(c) => aggregate_numeric(&t, c.as_str(), false),
        ColumnOperation::Count(c) => aggregate_count(&t, c.as_str()),
        ColumnOperation::GroupBy(c) => aggregate_group(&t, c.as_str()),
        _ => Ok(t),
    }
}

/// Applies the aggregate operations in order (see `aggregates`).
pub fn apply_aggregates(t: Table, ops: &Vec<ColumnOperation>) -> (r: Result<Table, ExecutionError>)
    requires
        t.wf(),
    ensures
        result_is(r, aggregates(t@, ops_view(ops@))),
{
    let ghost t0 = t@;
    let mut cur = t;
    let mut i: usize = 0;
    while i < ops.len()
        invariant
            i <= ops@.len(),
            cur.wf(),
            t0 == t@,
            aggregates(t0, ops_view(ops@).subrange(0, i as int)) == Ok::<TableView, ErrView>(cur@),
        decreases ops@.len() - i,
    {
        let ghost pre = ops_view(ops@).subrange(0, i as int);
        let ghost nxt = ops_view(ops@).subrange(0, i + 1);
        assert(nxt.drop_last() =~= pre);
        assert(nxt.last() == ops@[i as int]@);
        match apply_aggregate(cur, &ops[i]) {
            Ok(s) => {
                cur = s;
            },
            Err(e) => {
                assert(aggregates(t0, nxt) == Err::<TableView, ErrView>(err_view(e)));
                proof {
                    lemma_aggregates_err(t0, ops_view(ops@), i as int + 1);
                    assert(aggregates(t0, ops_view(ops@)) == Err::<TableView, ErrView>(err_view(e)));
                }
                return Err(e);
            },
        }
        i = i + 1;
    }
    assert(ops_view(ops@).subrange(0, i as int) =~= ops_view(ops@));
    Ok(cur)
}


/// Orders the rows by the last sort operation, after checking that every
/// sort operation names a column of the table.
fn apply_sorts(t: Table, ops: &Vec<ColumnOperation>) -> (r: Result<Table, ExecutionError>)
    requires
        t.wf(),
    ensures
        match sort_missing(t@.columns, ops_view(ops@)) {
            Some(c) => (r matches Err(ExecutionError::UnknownColumn(n)) && n@ == c),
            None => (r matches Ok(s) && s.wf() && match last_sort(ops_view(ops@)) {
                None => s@ == t@,
                Some((c, asc)) => sorted_version(t@, s@, c, asc),
            }),
        },
{
    let ghost ov = ops_view(ops@);
    let mut i: usize = 0;
    assert(ov.subrange(0, ov.len() as int) =~= ov);
    while i < ops.len()
        invariant
            i <= ops@.len(),
            ov == ops_view(ops@),
            sort_missing(t@.columns, ov) == sort_missing(t@.columns, ov.subrange(i as int, ov.len() as int)),
        decreases ops@.len() - i,
    {
        let ghost rest = ov.subrange(i as int, ov.len() as int);
        assert(rest.drop_first() =~= ov.subrange(i + 1, ov.len() as int));
        assert(rest[0] == ops@[i as int]@);
        match &ops[i] {
            ColumnOperation::SortBy(c, _) => {
                if find_column(&t, c.as_str()).is_none() {
                    return Err(ExecutionError::UnknownColumn(c.clone()));
                }
            },
            _ => {},
        }
        i = i + 1;
    }
    assert(sort_missing(t@.columns, ov.subrange(i as int, ov.len() as int)) is None);
    let mut last: Option<usize> = None;
    let mut k: usize = 0;
    while k < ops.len()
        invariant
            k <= ops@.len(),
            ov == ops_view(ops@),
            match last {
                None => last_sort(ov.subrange(0, k as int)) is None,
                Some(p) => p < k && (ops@[p as int] matches ColumnOperation::SortBy(c, a)
                    && last_sort(ov.subrange(0, k as int)) == Some((c@, a))),
            },
        decreases ops@.len() - k,
    {
        let ghost nxt = ov.subrange(0, k + 1);
        assert(nxt.drop_last() =~= ov.subrange(0, k as int));
        assert(nxt.last() == ops@[k as int]@);
        match &ops[k] {
            ColumnOperation::SortBy(_, _) => {
                last = Some(k);
            },
            _ => {},
        }
        k = k + 1;
    }
    assert(ov.subrange(0, k as int) =~= ov);
    match last {
        None => Ok(t),
        Some(p) => {
            match &ops[p] {
                ColumnOperation::SortBy(c, asc) => {
                    let j = match find_column(&t, c.as_str()) {
                        Some(j) => j,
                        None => {
                            proof {
                                lemma_sort_present(t@.columns, ov, p as int);
                            }
                            return Err(ExecutionError::UnknownColumn(c.clone()));
                        },
                    };
                    let numeric = t.dtypes[j] == DataType::Integer || t.dtypes[j] == DataType::Float;
                    let w = t.columns.len();
                    proof {
                        assert forall|q: int| 0 <= q < t.rows@.len() implies (#[trigger] t.rows@[q])@.len() == w by {
                            assert(t@.rows[q] == row_view(t.rows@[q]));
                        }
                    }
                    let rows = sort_rows(&t.rows, j, w, numeric, *asc);
                    let s = Table { columns: t.columns, dtypes: t.dtypes, rows };
                    proof {
                        assert forall|q: int| 0 <= q < s@.rows.len() implies #[trigger] s@.rows[q].len() == s@.columns.len() by {
                            assert(s@.rows[q] == row_view(s.rows@[q]));
                        }
                    }
                    Ok(s)
                },
                _ => {
                    assert(false);
                    Ok(t)
                },
            }
        },
    }
}

proof fn lemma_sort_present(cols: Seq<Seq<char>>, ops: Seq<OpView>, p: int)
    requires
        sort_missing(cols, ops) is None,
        0 <= p < ops.len(),
        ops[p] is SortBy,
    ensures
        cols.contains(ops[p]->SortBy_0),
    decreases ops.len(),
{
    if p > 0 {
        assert(ops.drop_first()[p - 1] == ops[p]);
        lemma_sort_present(cols, ops.drop_first(), p - 1);
    }
}

/// Runs a structured query on a table (see `query_result`).
pub fn apply_operations(t: Table, q: &StructuredQuery) -> (r: Result<Table, ExecutionError>)
    requires
        t.wf(),
    ensures
        match r {
            Ok(s) => s.wf() && query_result(t@, q@, Ok(s@)),
            Err(e) => query_result(t@, q@, Err(err_view(e))),
        },
{
    match q.intent {
        QueryIntent::Describe => Ok(head(&t, DESCRIBE_ROWS)),
        QueryIntent::Aggregate => apply_aggregates(t, &q.operations),
        QueryIntent::Filter => {
            match apply_filters(t, &q.operations) {
                Ok(f) => project_exec(f, &q.columns),
                Err(e) => Err(e),
            }
        },
        QueryIntent::Sort => {
            let ghost tv = t@;
            match apply_sorts(t, &q.operations) {
                Ok(s) => {
                    let ghost sv = s@;
                    let r = project_exec(s, &q.columns);
                    proof {
                        if last_sort(q@.operations) is Some {
                            let w = result_view(r);
                            let (c, a) = last_sort(q@.operations)->0;
                            assert(sorted_version(tv, sv, c, a) && w == project(sv, q@.columns));
                        }
                    }
                    r
                },
                Err(e) => Err(e),
            }
        },
        QueryIntent::Visualize => {
            match project_exec(t, &q.columns) {
                Ok(p) => Ok(head(&p, VISUALIZE_ROWS)),
                Err(e) => Err(e),
            }
        },
    }
}


/// A filter that orders against a value that is not a numeral is skipped:
/// the other filters of the query apply as if it were not there.
pub proof fn lemma_unparsable_filter_skipped(t: TableView, ops: Seq<OpView>, k: int)
    requires
        0 <= k < ops.len(),
        ops[k] matches OpView::Filter(c, o, v) && filter_op_of(o) matches Some(op) && is_ordering(op)
            && !is_num_text(v),
    ensures
        filters(t, ops) == filters(t, ops.remove(k)),
    decreases ops.len(),
{
    if k == ops.len() - 1 {
        assert(ops.remove(k) =~= ops.drop_last());
    } else {
        lemma_unparsable_filter_skipped(t, ops.drop_last(), k);
        assert(ops.remove(k).drop_last() =~= ops.drop_last().remove(k));
        assert(ops.remove(k).last() == ops.last());
    }
}

/// A description depends on the table alone: two runs of the same
/// description query on the same data give the same first rows.
pub proof fn lemma_describe_repeatable(
    t: TableView,
    q: crate::query::QueryView,
    r1: Result<TableView, ErrView>,
    r2: Result<TableView, ErrView>,
)
    requires
        q.intent == QueryIntent::Describe,
        query_result(t, q, r1),
        query_result(t, q, r2),
    ensures
        r1 == r2,
        r1 == Ok::<TableView, ErrView>(head_view(t, DESCRIBE_ROWS as nat)),
{
}


/// A filter operation that takes effect: a known operator, and for an
/// ordering a value that is a numeral.
pub open spec fn effective(op: OpView) -> bool {
    op matches OpView::Filter(c, o, v) && filter_op_of(o) is Some && !(is_ordering(filter_op_of(o)->0) && !is_num_text(v))
}

/// A row passes every effective filter of `ops` on table `t`.
pub open spec fn passes(t: TableView, ops: Seq<OpView>, r: Seq<Option<Seq<char>>>) -> bool {
    forall|k: int| 0 <= k < ops.len() && effective(#[trigger] ops[k]) ==> {
        let j = col_of(t.columns, ops[k]->Filter_0);
        keep(r[j], filter_op_of(ops[k]->Filter_1)->0, ops[k]->Filter_2, is_numeric_type(t.dtypes[j]))
    }
}

proof fn lemma_filter_and(s: Seq<Seq<Option<Seq<char>>>>, p: spec_fn(Seq<Option<Seq<char>>>) -> bool, q: spec_fn(Seq<Option<Seq<char>>>) -> bool)
    ensures
        s.filter(p).filter(q) == s.filter(|r: Seq<Option<Seq<char>>>| p(r) && q(r)),
    decreases s.len(),
{
    reveal(Seq::filter);
    if s.len() > 0 {
        lemma_filter_and(s.drop_last(), p, q);
        let pq = |r: Seq<Option<Seq<char>>>| p(r) && q(r);
        if p(s.last()) {
            assert(s.filter(p) == s.drop_last().filter(p).push(s.last()));
            assert(s.filter(p).drop_last() =~= s.drop_last().filter(p));
        }
    }
}

/// The filters of a query, where every effective filter names a column of
/// the table, keep exactly the rows that pass all effective filters, in
/// their order; the other filters have no effect.
pub proof fn lemma_filters_conjunction(t: TableView, ops: Seq<OpView>)
    requires
        forall|k: int| 0 <= k < ops.len() && effective(#[trigger] ops[k]) ==> t.columns.contains(ops[k]->Filter_0),
    ensures
        filters(t, ops) == Ok::<TableView, ErrView>(
            TableView { rows: t.rows.filter(|r: Seq<Option<Seq<char>>>| passes(t, ops, r)), ..t },
        ),
    decreases ops.len(),
{
    reveal(Seq::filter);
    if ops.len() == 0 {
        let f = |r: Seq<Option<Seq<char>>>| passes(t, ops, r);
        lemma_filter_all(t.rows, f);
    } else {
        let pre = ops.drop_last();
        assert forall|k: int| 0 <= k < pre.len() && effective(#[trigger] pre[k]) implies t.columns.contains(pre[k]->Filter_0) by {
            assert(pre[k] == ops[k]);
        }
        lemma_filters_conjunction(t, pre);
        let p1 = |r: Seq<Option<Seq<char>>>| passes(t, pre, r);
        let full = |r: Seq<Option<Seq<char>>>| passes(t, ops, r);
        let t2 = TableView { rows: t.rows.filter(p1), ..t };
        let last = ops.last();
        if effective(last) {
            let c = last->Filter_0;
            let o = last->Filter_1;
            let v = last->Filter_2;
            let j = col_of(t.columns, c);
            let op = filter_op_of(o)->0;
            let numeric = is_numeric_type(t.dtypes[j]);
            let p2 = |r: Seq<Option<Seq<char>>>| keep(r[j], op, v, numeric);
            assert(t.columns.contains(c)) by {
                assert(effective(ops[ops.len() - 1]));
            }
            lemma_filter_and(t.rows, p1, p2);
            let both = |r: Seq<Option<Seq<char>>>| p1(r) && p2(r);
            assert(both =~= full) by {
                assert forall|r: Seq<Option<Seq<char>>>| #[trigger] both(r) == full(r) by {
                    if both(r) {
                        assert forall|k: int| 0 <= k < ops.len() && effective(#[trigger] ops[k]) implies {
                            let jj = col_of(t.columns, ops[k]->Filter_0);
                            keep(r[jj], filter_op_of(ops[k]->Filter_1)->0, ops[k]->Filter_2, is_numeric_type(t.dtypes[jj]))
                        } by {
                            if k < pre.len() {
                                assert(pre[k] == ops[k]);
                            }
                        }
                    }
                    if full(r) {
                        assert(effective(ops[ops.len() - 1]));
                        assert forall|k: int| 0 <= k < pre.len() && effective(#[trigger] pre[k]) implies {
                            let jj = col_of(t.columns, pre[k]->Filter_0);
                            keep(r[jj], filter_op_of(pre[k]->Filter_1)->0, pre[k]->Filter_2, is_numeric_type(t.dtypes[jj]))
                        } by {
                            assert(pre[k] == ops[k]);
                        }
                    }
                }
            }
        } else {
            assert(p1 =~= full) by {
                assert forall|r: Seq<Option<Seq<char>>>| #[trigger] p1(r) == full(r) by {
                    if p1(r) {
                        assert forall|k: int| 0 <= k < ops.len() && effective(#[trigger] ops[k]) implies {
                            let jj = col_of(t.columns, ops[k]->Filter_0);
                            keep(r[jj], filter_op_of(ops[k]->Filter_1)->0, ops[k]->Filter_2, is_numeric_type(t.dtypes[jj]))
                        } by {
                            if k < pre.len() {
                                assert(pre[k] == ops[k]);
                            }
                        }
                    }
                    if full(r) {
                        assert forall|k: int| 0 <= k < pre.len() && effective(#[trigger] pre[k]) implies {
                            let jj = col_of(t.columns, pre[k]->Filter_0);
                            keep(r[jj], filter_op_of(pre[k]->Filter_1)->0, pre[k]->Filter_2, is_numeric_type(t.dtypes[jj]))
                        } by {
                            assert(pre[k] == ops[k]);
                        }
                    }
                }
            }
        }
    }
}

proof fn lemma_filter_all(s: Seq<Seq<Option<Seq<char>>>>, p: spec_fn(Seq<Option<Seq<char>>>) -> bool)
    requires
        forall|r: Seq<Option<Seq<char>>>| #[trigger] p(r),
    ensures
        s.filter(p) == s,
    decreases s.len(),
{
    reveal(Seq::filter);
    if s.len() > 0 {
        lemma_filter_all(s.drop_last(), p);
        assert(s.drop_last().push(s.last()) =~= s);
    }
}

} // verus!
