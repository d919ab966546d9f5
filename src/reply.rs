use vstd::prelude::*;
use crate::query::{ops_view, ColumnOperation, OpView, QueryIntent, StructuredQuery};
use crate::table::names_view;
use crate::text::same_text;

verus! {

/// One operation as the language service writes it.
pub struct RawOperation {
    pub op_type: String,
    pub column: String,
    pub operator: Option<String>,
    pub value: Option<String>,
    pub ascending: Option<bool>,
}

/// A translation as the language service writes it.
pub struct RawQueryReply {
    pub intent: String,
    pub columns: Vec<String>,
    pub operations: Vec<RawOperation>,
}

/// Why a translation was refused.
#[derive(Clone, Debug)]
pub enum TranslationError {
    UnknownIntent(String),
    UnknownColumn(String),
    UnknownOperation(String),
    /// A filter without its operator or value.
    MissingField(String),
}

pub enum TErrView {
    UnknownIntent(Seq<char>),
    UnknownColumn(Seq<char>),
    UnknownOperation(Seq<char>),
    MissingField(Seq<char>),
}

pub open spec fn terr_view(e: TranslationError) -> TErrView {
    match e {
        TranslationError::UnknownIntent(s) => TErrView::UnknownIntent(s@),
        TranslationError::UnknownColumn(s) => TErrView::UnknownColumn(s@),
        TranslationError::UnknownOperation(s) => TErrView::UnknownOperation(s@),
        TranslationError::MissingField(s) => TErrView::MissingField(s@),
    }
}

/// The text of a translation error.
pub open spec fn translation_text(e: TErrView) -> Seq<char> {
    match e {
        TErrView::UnknownIntent(s) => "unknown intent: "@ + s,
        TErrView::UnknownColumn(s) => "unknown column: "@ + s,
        TErrView::UnknownOperation(s) => "unknown operation: "@ + s,
        TErrView::MissingField(s) => "operation without operator or value: "@ + s,
    }
}

impl TranslationError {
    /// A sentence that says what went wrong.
    pub fn message(&self) -> (r: String)
        ensures
            r@ == translation_text(terr_view(*self)),
    {
        match self {
            TranslationError::UnknownIntent(s) => crate::text::join2("unknown intent: ", s.as_str()),
            TranslationError::UnknownColumn(s) => crate::text::join2("unknown column: ", s.as_str()),
            TranslationError::UnknownOperation(s) => crate::text::join2("unknown operation: ", s.as_str()),
            TranslationError::MissingField(s) => crate::text::join2("operation without operator or value: ", s.as_str()),
        }
    }
}

pub open spec fn intent_named(s: Seq<char>) -> Option<QueryIntent> {
    if s == "Aggregate"@ {
        Some(QueryIntent::Aggregate)
    } else if s == "Filter"@ {
        Some(QueryIntent::Filter)
    } else if s == "Sort"@ {
        Some(QueryIntent::Sort)
    } else if s == "Describe"@ {
        Some(QueryIntent::Describe)
    } else if s == "Visualize"@ {
        Some(QueryIntent::Visualize)
    } else {
        None
    }
}

pub open spec fn opt_view(o: Option<String>) -> Option<Seq<char>> {
    match o {
        Some(s) => Some(s@),
        None => None,
    }
}

/// One operation of a reply, against the dataset's columns: its type
/// names a known operation, its column exists, and a filter has an
/// operator and a value; a sort without direction is ascending.
pub open spec fn op_named(o: RawOperation, schema: Seq<Seq<char>>) -> Result<OpView, TErrView> {
    let t = o.op_type@;
    let c = o.column@;
    if !(t == "Mean"@ || t == "Sum"@ || t == "Count"@ || t == "GroupBy"@ || t == "SortBy"@ || t == "Filter"@) {
        Err(TErrView::UnknownOperation(t))
    } else if !schema.contains(c) {
        Err(TErrView::UnknownColumn(c))
    } else if t == "Mean"@ {
        Ok(OpView::Mean(c))
    } else if t == "Sum"@ {
        Ok(OpView::Sum(c))
    } else if t == "Count"@ {
        Ok(OpView::Count(c))
    } else if t == "GroupBy"@ {
        Ok(OpView::GroupBy(c))
    } else if t == "SortBy"@ {
        Ok(OpView::SortBy(c, match o.ascending { Some(a) => a, None => true }))
    } else {
        match (opt_view(o.operator), opt_view(o.value)) {
            (Some(op), Some(v)) => Ok(OpView::Filter(c, op, v)),
            _ => Err(TErrView::MissingField(t)),
        }
    }
}

/// The operations of a reply in order, or the error of the first bad one.
pub open spec fn ops_named(ops: Seq<RawOperation>, schema: Seq<Seq<char>>) -> Result<Seq<OpView>, TErrView>
    decreases ops.len(),
{
    if ops.len() == 0 {
        Ok(seq![])
    } else {
        match ops_named(ops.drop_last(), schema) {
            Err(e) => Err(e),
            Ok(p) => match op_named(ops.last(), schema) {
                Err(e) => Err(e),
                Ok(o) => Ok(p.push(o)),
            },
        }
    }
}

/// The first of `cols` that the dataset lacks.
pub open spec fn first_unknown(cols: Seq<Seq<char>>, schema: Seq<Seq<char>>) -> Option<Seq<char>>
    decreases cols.len(),
{
    if cols.len() == 0 {
        None
    } else {
        match first_unknown(cols.drop_last(), schema) {
            Some(c) => Some(c),
            None => if schema.contains(cols.last()) { None } else { Some(cols.last()) },
        }
    }
}

/// A reply read against the dataset's columns: the intent must be known,
/// then every listed column must exist, then every operation must be valid.
pub open spec fn reply_query(
    intent: Seq<char>,
    cols: Seq<Seq<char>>,
    ops: Seq<RawOperation>,
    schema: Seq<Seq<char>>,
) -> Result<crate::query::QueryView, TErrView> {
    match intent_named(intent) {
        None => Err(TErrView::UnknownIntent(intent)),
        Some(i) => match first_unknown(cols, schema) {
            Some(c) => Err(TErrView::UnknownColumn(c)),
            None => match ops_named(ops, schema) {
                Err(e) => Err(e),
                Ok(o) => Ok(crate::query::QueryView { intent: i, columns: cols, operations: o }),
            },
        },
    }
}

fn intent_exec(s: &str) -> (r: Option<QueryIntent>)
    ensures
        r == intent_named(s@),
{
    if same_text(s, "Aggregate") {
        Some(QueryIntent::Aggregate)
    } else if same_text(s, "Filter") {
        Some(QueryIntent::Filter)
    } else if same_text(s, "Sort") {
        Some(QueryIntent::Sort)
    } else if same_text(s, "Describe") {
        Some(QueryIntent::Describe)
    } else if same_text(s, "Visualize") {
        Some(QueryIntent::Visualize)
    } else {
        None
    }
}

fn has_column(schema: &Vec<String>, c: &str) -> (r: bool)
    ensures
        r == names_view(schema@).contains(c@),
{
    let mut i: usize = 0;
    while i < schema.len()
        invariant
            i <= schema@.len(),
            forall|k: int| 0 <= k < i ==> names_view(schema@)[k] != c@,
        decreases schema@.len() - i,
    {
        if same_text(schema[i].as_str(), c) {
            assert(names_view(schema@)[i as int] == c@);
            return true;
        }
        i = i + 1;
    }
    false
}

fn op_exec(o: &RawOperation, schema: &Vec<String>) -> (r: Result<ColumnOperation, TranslationError>)
    ensures
        match r {
            Ok(op) => op_named(*o, names_view(schema@)) == Ok::<OpView, TErrView>(op@),
            Err(e) => op_named(*o, names_view(schema@)) == Err::<OpView, TErrView>(terr_view(e)),
        },
{
    let t = o.op_type.as_str();
    let is_mean = same_text(t, "Mean");
    let is_sum = same_text(t, "Sum");
    let is_count = same_text(t, "Count");
    let is_group = same_text(t, "GroupBy");
    let is_sort = same_text(t, "SortBy");
    let is_filter = same_text(t, "Filter");
    if !(is_mean || is_sum || is_count || is_group || is_sort || is_filter) {
        return Err(TranslationError::UnknownOperation(o.op_type.clone()));
    }
    if !has_column(schema, o.column.as_str()) {
        return Err(TranslationError::UnknownColumn(o.column.clone()));
    }
    let c = o.column.clone();
    if is_mean {
        Ok(ColumnOperation::Mean(c))
    } else if is_sum {
        Ok(ColumnOperation::Sum(c))
    } else if is_count {
        Ok(ColumnOperation::Count(c))
    } else if is_group {
        Ok(ColumnOperation::GroupBy(c))
    } else if is_sort {
        let asc = match o.ascending {
            Some(a) => a,
            None => true,
        };
        Ok(ColumnOperation::SortBy(c, asc))
    } else {
        match (&o.operator, &o.value) {
            (Some(op), Some(v)) => Ok(ColumnOperation::Filter(c, op.clone(), v.clone())),
            _ => Err(TranslationError::MissingField(o.op_type.clone())),
        }
    }
}

/// Reads a reply of the language service into a structured query (see
/// `reply_query`).
pub fn parse_translation_reply(reply: &RawQueryReply, schema: &Vec<String>) -> (r: Result<StructuredQuery, TranslationError>)
    ensures
        match r {
            Ok(q) => reply_query(reply.intent@, names_view(reply.columns@), reply.operations@, names_view(schema@))
                == Ok::<crate::query::QueryView, TErrView>(q@),
            Err(e) => reply_query(reply.intent@, names_view(reply.columns@), reply.operations@, names_view(schema@))
                == Err::<crate::query::QueryView, TErrView>(terr_view(e)),
        },
{
    let ghost sv = names_view(schema@);
    let intent = match intent_exec(reply.intent.as_str()) {
        None => return Err(TranslationError::UnknownIntent(reply.intent.clone())),
        Some(i) => i,
    };
    let ghost cv = names_view(reply.columns@);
    let mut k: usize = 0;
    while k < reply.columns.len()
        invariant
            k <= reply.columns@.len(),
            cv == names_view(reply.columns@),
            sv == names_view(schema@),
            intent_named(reply.intent@) == Some(intent),
            first_unknown(cv.subrange(0, k as int), sv) is None,
        decreases reply.columns@.len() - k,
    {
        assert(cv.subrange(0, k + 1).drop_last() =~= cv.subrange(0, k as int));
        assert(cv[k as int] == reply.columns@[k as int]@);
        if !has_column(schema, reply.columns[k].as_str()) {
            assert(first_unknown(cv.subrange(0, k + 1), sv) == Some(cv[k as int]));
            proof {
                lemma_first_unknown_prefix(cv, sv, k as int + 1);
            }
            return Err(TranslationError::UnknownColumn(reply.columns[k].clone()));
        }
        k = k + 1;
    }
    assert(cv.subrange(0, k as int) =~= cv);
    let mut ops: Vec<ColumnOperation> = Vec::new();
    let mut i: usize = 0;
    assert(ops_view(ops@) =~= seq![]);
    assert(reply.operations@.subrange(0, 0) =~= Seq::<RawOperation>::empty());
    while i < reply.operations.len()
        invariant
            i <= reply.operations@.len(),
            sv == names_view(schema@),
            cv == names_view(reply.columns@),
            intent_named(reply.intent@) == Some(intent),
            first_unknown(cv, sv) is None,
            ops_named(reply.operations@.subrange(0, i as int), sv) == Ok::<Seq<OpView>, TErrView>(ops_view(ops@)),
        decreases reply.operations@.len() - i,
    {
        let ghost pre = reply.operations@.subrange(0, i as int);
        let ghost nxt = reply.operations@.subrange(0, i + 1);
        assert(nxt.drop_last() =~= pre);
        match op_exec(&reply.operations[i], schema) {
            Err(e) => {
                proof {
                    lemma_ops_prefix(reply.operations@, sv, i as int + 1);
                }
                return Err(e);
            },
            Ok(op) => {
                let ghost prev = ops@;
                ops.push(op);
                assert(ops_view(ops@) =~= ops_view(prev).push(op@));
            },
        }
        i = i + 1;
    }
    assert(reply.operations@.subrange(0, i as int) =~= reply.operations@);
    let q = StructuredQuery { intent, columns: crate::table::clone_names(&reply.columns), operations: ops };
    Ok(q)
}

proof fn lemma_first_unknown_prefix(cols: Seq<Seq<char>>, schema: Seq<Seq<char>>, k: int)
    requires
        0 <= k <= cols.len(),
        first_unknown(cols.subrange(0, k), schema) is Some,
    ensures
        first_unknown(cols, schema) == first_unknown(cols.subrange(0, k), schema),
    decreases cols.len() - k,
{
    if k < cols.len() {
        assert(cols.subrange(0, k + 1).drop_last() =~= cols.subrange(0, k));
        lemma_first_unknown_prefix(cols, schema, k + 1);
    } else {
        assert(cols.subrange(0, k) =~= cols);
    }
}

proof fn lemma_ops_prefix(ops: Seq<RawOperation>, schema: Seq<Seq<char>>, k: int)
    requires
        0 <= k <= ops.len(),
        ops_named(ops.subrange(0, k), schema) is Err,
    ensures
        ops_named(ops, schema) == ops_named(ops.subrange(0, k), schema),
    decreases ops.len() - k,
{
    if k < ops.len() {
        assert(ops.subrange(0, k + 1).drop_last() =~= ops.subrange(0, k));
        lemma_ops_prefix(ops, schema, k + 1);
    } else {
        assert(ops.subrange(0, k) =~= ops);
    }
}

} // verus!
