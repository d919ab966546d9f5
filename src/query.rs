use vstd::prelude::*;
use crate::table::names_view;
use crate::text::{contains_text, has_part, lower_of, lowercase};

verus! {

/// What a query asks for.
#[derive(PartialEq, Eq, Structural, Clone, Copy, Debug)]
pub enum QueryIntent {
    Aggregate,
    Filter,
    Sort,
    Describe,
    Visualize,
}

/// One operation on a column.
#[derive(Clone, Debug)]
pub enum ColumnOperation {
    Mean(String),
    Sum(String),
    Count(String),
    GroupBy(String),
    /// Column, ascending.
    SortBy(String, bool),
    /// Column, operator, value.
    Filter(String, String, String),
}

/// The mathematical content of a column operation.
pub enum OpView {
    Mean(Seq<char>),
    Sum(Seq<char>),
    Count(Seq<char>),
    GroupBy(Seq<char>),
    SortBy(Seq<char>, bool),
    Filter(Seq<char>, Seq<char>, Seq<char>),
}

impl View for ColumnOperation {
    type V = OpView;

    open spec fn view(&self) -> OpView {
        match self {
            ColumnOperation::Mean(c) => OpView::Mean(c@),
            ColumnOperation::Sum(c) => OpView::Sum(c@),
            ColumnOperation::Count(c) => OpView::Count(c@),
            ColumnOperation::GroupBy(c) => OpView::GroupBy(c@),
            ColumnOperation::SortBy(c, a) => OpView::SortBy(c@, *a),
            ColumnOperation::Filter(c, o, v) => OpView::Filter(c@, o@, v@),
        }
    }
}

/// An intent, the columns to show, and the operations to apply in order.
#[derive(Clone, Debug)]
pub struct StructuredQuery {
    pub intent: QueryIntent,
    pub columns: Vec<String>,
    pub operations: Vec<ColumnOperation>,
}

pub struct QueryView {
    pub intent: QueryIntent,
    pub columns: Seq<Seq<char>>,
    pub operations: Seq<OpView>,
}

pub open spec fn ops_view(v: Seq<ColumnOperation>) -> Seq<OpView> {
    v.map_values(|o: ColumnOperation| o@)
}

impl View for StructuredQuery {
    type V = QueryView;

    open spec fn view(&self) -> QueryView {
        QueryView { intent: self.intent, columns: names_view(self.columns@), operations: ops_view(self.operations@) }
    }
}

/// The column that a keyword rule aims at: the first column of the dataset,
/// or `column1` for a dataset without columns.
pub open spec fn first_column(cols: Seq<Seq<char>>) -> Seq<char> {
    if cols.len() > 0 { cols[0] } else { "column1"@ }
}

/// The keyword rules, on an already case-folded question: `average` or
/// `mean` asks for a mean, then `sum` for a sum, then `count` for a count,
/// each of the first column; anything else describes every column.
pub open spec fn rule_query(q: Seq<char>, cols: Seq<Seq<char>>) -> QueryView {
    let c = first_column(cols);
    if has_part(q, "average"@) || has_part(q, "mean"@) {
        QueryView { intent: QueryIntent::Aggregate, columns: seq![c], operations: seq![OpView::Mean(c)] }
    } else if has_part(q, "sum"@) {
        QueryView { intent: QueryIntent::Aggregate, columns: seq![c], operations: seq![OpView::Sum(c)] }
    } else if has_part(q, "count"@) {
        QueryView { intent: QueryIntent::Aggregate, columns: seq![c], operations: seq![OpView::Count(c)] }
    } else {
        QueryView { intent: QueryIntent::Describe, columns: cols, operations: seq![] }
    }
}

fn first_column_exec(cols: &Vec<String>) -> (r: String)
    ensures
        r@ == first_column(names_view(cols@)),
{
    if cols.len() > 0 {
        cols[0].clone()
    } else {
        String::from_str("column1")
    }
}

/// Applies the keyword rules to a question that is already case-folded.
pub fn translate_folded(folded: &str, columns: &Vec<String>) -> (r: StructuredQuery)
    ensures
        r@ == rule_query(folded@, names_view(columns@)),
{
    let c = first_column_exec(columns);
    let kind: u8 = if contains_text(folded, "average") || contains_text(folded, "mean") {
        0
    } else if contains_text(folded, "sum") {
        1
    } else if contains_text(folded, "count") {
        2
    } else {
        3
    };
    if kind == 3 {
        let r = StructuredQuery { intent: QueryIntent::Describe, columns: columns.clone(), operations: Vec::new() };
        assert(r@.operations =~= seq![]);
        return r;
    }
    let op = if kind == 0 {
        ColumnOperation::Mean(c.clone())
    } else if kind == 1 {
        ColumnOperation::Sum(c.clone())
    } else {
        ColumnOperation::Count(c.clone())
    };
    let r = StructuredQuery { intent: QueryIntent::Aggregate, columns: vec![c], operations: vec![op] };
    assert(r@.columns =~= seq![first_column(names_view(columns@))]);
    assert(r@.operations =~= rule_query(folded@, names_view(columns@)).operations);
    r
}

/// Translates a question by keyword rules, ignoring case.
pub fn rule_based_translation(query: &str, columns: &Vec<String>) -> (r: StructuredQuery)
    ensures
        r@ == rule_query(lower_of(query@), names_view(columns@)),
{
    let folded = lowercase(query);
    translate_folded(folded.as_str(), columns)
}

} // verus!
