use vstd::prelude::*;
use crate::exec::{apply_operations, err_view, error_text, query_result, ErrView};
use crate::insights::{type_label, type_text};
use crate::pipeline::{dataset_of, load_dataset, parse_dataset, DataLoadError, DatasetError};
use crate::table::{csv_ok, csv_table};
use vstd::utf8::{decode_utf8, valid_utf8};
use crate::query::{rule_based_translation, rule_query, QueryIntent, StructuredQuery};
use crate::storage::S3ServiceTrait;
use crate::table::{names_view, Table, TableView};
use crate::text::{count_text, join2, lower_of, nat_text, same_text};
use crate::viz::{chart_of, chart_overflows, synthesize_chart, ChartSpec};
use crate::reply::{terr_view, translation_text, TranslationError};

verus! {

/// The schema of a dataset: its columns, how many rows it has, and the
/// reported type of each column.
pub struct DatasetMetadata {
    pub columns: Vec<String>,
    pub row_count: usize,
    pub data_types: Vec<(String, String)>,
}

/// The schema of a table.
pub fn dataset_metadata(t: &Table) -> (r: DatasetMetadata)
    requires
        t.wf(),
    ensures
        names_view(r.columns@) == t@.columns,
        r.row_count == t@.rows.len(),
        r.data_types@.len() == t@.columns.len(),
        forall|k: int| 0 <= k < t@.columns.len() ==> (#[trigger] r.data_types@[k]).0@ == t@.columns[k]
            && r.data_types@[k].1@ == type_label(t@.dtypes[k]),
{
    let columns = crate::table::clone_names(&t.columns);
    let mut data_types: Vec<(String, String)> = Vec::new();
    let mut k: usize = 0;
    while k < t.columns.len()
        invariant
            t.wf(),
            k <= t@.columns.len(),
            data_types@.len() == k,
            forall|q: int| 0 <= q < k ==> (#[trigger] data_types@[q]).0@ == t@.columns[q]
                && data_types@[q].1@ == type_label(t@.dtypes[q]),
        decreases t@.columns.len() - k,
    {
        assert(t@.columns[k as int] == t.columns@[k as int]@);
        data_types.push((t.columns[k].clone(), type_text(t.dtypes[k])));
        k = k + 1;
    }
    DatasetMetadata { columns, row_count: t.rows.len(), data_types }
}

/// One question and its answer, with the instant in seconds.
pub struct ConversationTurn {
    pub query: String,
    pub response: String,
    pub timestamp: u64,
}

/// A conversation about the dataset of a job.
pub struct ConversationContext {
    pub id: String,
    pub job_id: String,
    pub history: Vec<ConversationTurn>,
    pub dataset_metadata: DatasetMetadata,
    pub created_at: u64,
    pub updated_at: u64,
}

pub open spec fn turns_view(h: Seq<ConversationTurn>) -> Seq<(Seq<char>, Seq<char>)> {
    h.map_values(|t: ConversationTurn| (t.query@, t.response@))
}

/// What the store keeps of a conversation.
pub struct ContextView {
    pub job_id: Seq<char>,
    pub columns: Seq<Seq<char>>,
    pub turns: Seq<(Seq<char>, Seq<char>)>,
}

impl ConversationContext {
    pub open spec fn view(&self) -> ContextView {
        ContextView {
            job_id: self.job_id@,
            columns: names_view(self.dataset_metadata.columns@),
            turns: turns_view(self.history@),
        }
    }

    /// A conversation without turns, begun at `now`.
    pub fn new(id: String, job_id: String, dataset_metadata: DatasetMetadata, now: u64) -> (r: Self)
        ensures
            r.id@ == id@,
            r.job_id@ == job_id@,
            r.history@.len() == 0,
            names_view(r.dataset_metadata.columns@) == names_view(dataset_metadata.columns@),
            r.created_at == now && r.updated_at == now,
    {
        ConversationContext { id, job_id, history: Vec::new(), dataset_metadata, created_at: now, updated_at: now }
    }

    /// Appends a turn at instant `now`.
    pub fn add_turn(&mut self, query: String, response: String, now: u64)
        ensures
            final(self).id@ == old(self).id@,
            final(self)@ == (ContextView { turns: old(self)@.turns.push((query@, response@)), ..old(self)@ }),
            final(self).updated_at == now,
            final(self).created_at == old(self).created_at,
    {
        let ghost q = query@;
        let ghost a = response@;
        self.history.push(ConversationTurn { query, response, timestamp: now });
        self.updated_at = now;
        assert(turns_view(self.history@) =~= turns_view(old(self).history@).push((q, a)));
    }
}

/// The conversations of this process, by id.
pub struct InMemoryStore {
    conversations: Vec<ConversationContext>,
}

impl InMemoryStore {
    pub closed spec fn view(&self) -> Map<Seq<char>, ContextView> {
        Map::new(
            |k: Seq<char>| exists|i: int| 0 <= i < self.conversations@.len() && self.conversations@[i].id@ == k,
            |k: Seq<char>| {
                let i = choose|i: int| 0 <= i < self.conversations@.len() && self.conversations@[i].id@ == k;
                self.conversations@[i].view()
            },
        )
    }

    pub closed spec fn wf(&self) -> bool {
        forall|i: int, j: int| 0 <= i < j < self.conversations@.len() ==> self.conversations@[i].id@ != self.conversations@[j].id@
    }

    proof fn lemma_view_at(&self, i: int)
        requires
            self.wf(),
            0 <= i < self.conversations@.len(),
        ensures
            self@.contains_key(self.conversations@[i].id@),
            self@[self.conversations@[i].id@] == self.conversations@[i].view(),
    {
        let k = self.conversations@[i].id@;
        assert(exists|i: int| 0 <= i < self.conversations@.len() && self.conversations@[i].id@ == k);
        let j = choose|j: int| 0 <= j < self.conversations@.len() && self.conversations@[j].id@ == k;
        assert(i == j);
    }

    /// No conversations.
    pub fn new() -> (r: Self)
        ensures
            r.wf(),
            r@ == Map::<Seq<char>, ContextView>::empty(),
    {
        let r = InMemoryStore { conversations: Vec::new() };
        assert(r@ =~= Map::<Seq<char>, ContextView>::empty());
        r
    }

    fn position(&self, id: &str) -> (r: Option<usize>)
        requires
            self.wf(),
        ensures
            match r {
                Some(i) => i < self.conversations@.len() && self.conversations@[i as int].id@ == id@,
                None => !self@.contains_key(id@),
            },
    {
        let mut i: usize = 0;
        while i < self.conversations.len()
            invariant
                i <= self.conversations@.len(),
                forall|j: int| 0 <= j < i ==> self.conversations@[j].id@ != id@,
            decreases self.conversations@.len() - i,
        {
            if same_text(self.conversations[i].id.as_str(), id) {
                return Some(i);
            }
            i = i + 1;
        }
        None
    }

    /// Stores a conversation under its id, replacing the one it had.
    pub fn store(&mut self, context: ConversationContext)
        requires
            old(self).wf(),
        ensures
            final(self).wf(),
            final(self)@ == old(self)@.insert(context.id@, context.view()),
    {
        let ghost key = context.id@;
        let ghost cv = context.view();
        let ghost before = self.conversations@;
        match self.position(context.id.as_str()) {
            Some(i) => {
                self.conversations.set(i, context);
                assert forall|k: Seq<char>| #[trigger] self@.contains_key(k) == old(self)@.insert(key, cv).contains_key(k) by {
                    if old(self)@.contains_key(k) && k != key {
                        let j = choose|j: int| 0 <= j < before.len() && before[j].id@ == k;
                        assert(self.conversations@[j] == before[j]);
                    }
                    if self@.contains_key(k) && k != key {
                        let j = choose|j: int| 0 <= j < self.conversations@.len() && self.conversations@[j].id@ == k;
                        assert(before[j] == self.conversations@[j]);
                    }
                    if k == key {
                        assert(self.conversations@[i as int].id@ == k);
                    }
                }
                assert forall|k: Seq<char>| #[trigger] self@.contains_key(k) implies self@[k] == old(self)@.insert(key, cv)[k] by {
                    let j = choose|j: int| 0 <= j < self.conversations@.len() && self.conversations@[j].id@ == k;
                    self.lemma_view_at(j);
                    if k != key {
                        old(self).lemma_view_at(j);
                    }
                }
            },
            None => {
                self.conversations.push(context);
                assert forall|k: Seq<char>| #[trigger] self@.contains_key(k) == old(self)@.insert(key, cv).contains_key(k) by {
                    if old(self)@.contains_key(k) {
                        let j = choose|j: int| 0 <= j < before.len() && before[j].id@ == k;
                        assert(self.conversations@[j] == before[j]);
                    }
                    if self@.contains_key(k) && k != key {
                        let j = choose|j: int| 0 <= j < self.conversations@.len() && self.conversations@[j].id@ == k;
                        assert(j < before.len());
                        assert(before[j] == self.conversations@[j]);
                    }
                    if k == key {
                        assert(self.conversations@[before.len() as int].id@ == k);
                    }
                }
                assert forall|k: Seq<char>| #[trigger] self@.contains_key(k) implies self@[k] == old(self)@.insert(key, cv)[k] by {
                    let j = choose|j: int| 0 <= j < self.conversations@.len() && self.conversations@[j].id@ == k;
                    self.lemma_view_at(j);
                    if k != key {
                        assert(j < before.len());
                        old(self).lemma_view_at(j);
                    }
                }
            },
        }
        assert(self@ =~= old(self)@.insert(key, cv));
    }

    /// The conversation with id `id`, if stored.
    pub fn get(&self, id: &str) -> (r: Option<&ConversationContext>)
        requires
            self.wf(),
        ensures
            match r {
                Some(c) => self@.contains_key(id@) && c.view() == self@[id@] && c.id@ == id@,
                None => !self@.contains_key(id@),
            },
    {
        match self.position(id) {
            Some(i) => {
                proof {
                    self.lemma_view_at(i as int);
                }
                Some(&self.conversations[i])
            },
            None => None,
        }
    }

    /// Appends a turn to the stored conversation `id`, if there is one.
    pub fn record_turn(&mut self, id: &str, query: String, response: String, now: u64) -> (r: bool)
        requires
            old(self).wf(),
        ensures
            final(self).wf(),
            r == old(self)@.contains_key(id@),
            r ==> final(self)@ == old(self)@.insert(
                id@,
                ContextView { turns: old(self)@[id@].turns.push((query@, response@)), ..old(self)@[id@] },
            ),
            !r ==> final(self)@ == old(self)@,
    {
        match self.position(id) {
            Some(i) => {
                proof {
                    old(self).lemma_view_at(i as int);
                }
                let ghost before = self.conversations@;
                let mut ctx = self.conversations.remove(i);
                ctx.add_turn(query, response, now);
                self.conversations.insert(i, ctx);
                let ghost cv = ctx.view();
                assert(self.conversations@ =~= before.update(i as int, ctx));
                assert forall|k: Seq<char>| #[trigger] self@.contains_key(k) == old(self)@.insert(id@, cv).contains_key(k) by {
                    if old(self)@.contains_key(k) {
                        let j = choose|j: int| 0 <= j < before.len() && before[j].id@ == k;
                        if j != i {
                            assert(self.conversations@[j] == before[j]);
                        } else {
                            assert(self.conversations@[j].id@ == k);
                        }
                    }
                    if self@.contains_key(k) && k != id@ {
                        let j = choose|j: int| 0 <= j < self.conversations@.len() && self.conversations@[j].id@ == k;
                        assert(before[j] == self.conversations@[j]);
                    }
                    if k == id@ {
                        assert(self.conversations@[i as int].id@ == k);
                    }
                }
                assert forall|k: Seq<char>| #[trigger] self@.contains_key(k) implies self@[k] == old(self)@.insert(id@, cv)[k] by {
                    let j = choose|j: int| 0 <= j < self.conversations@.len() && self.conversations@[j].id@ == k;
                    self.lemma_view_at(j);
                    if k != id@ {
                        old(self).lemma_view_at(j);
                    }
                }
                assert(self@ =~= old(self)@.insert(id@, cv));
                true
            },
            None => false,
        }
    }
}


/// A question about the dataset of a job, in a conversation if it names one.
pub struct QueryRequest {
    pub job_id: String,
    pub query: String,
    pub conversation_id: Option<String>,
}

/// The answer: the conversation it belongs to, a sentence, the result
/// table if the query ran, and a chart for a chart request.
pub struct QueryResponse {
    pub conversation_id: String,
    pub response: String,
    pub data: Option<Table>,
    pub visualization_data: Option<ChartSpec>,
}

/// Why no conversation could be had.
#[derive(PartialEq, Eq, Structural, Clone, Copy, Debug)]
pub enum ConversationError {
    DataLoad(DataLoadError),
    Dataset(DatasetError),
}

/// The table of a job's stored file, if it can be read.
pub open spec fn job_table(objects: Map<Seq<char>, Seq<u8>>, job_id: Seq<char>, bucket: Seq<char>) -> Option<TableView> {
    match dataset_of(objects, job_id, bucket) {
        Ok(b) => if valid_utf8(b) && csv_ok(decode_utf8(b)) { Some(csv_table(decode_utf8(b))) } else { None },
        Err(_) => None,
    }
}

pub open spec fn results_text() -> Seq<char> {
    "Here are the results for your query."@
}

pub open spec fn no_data_text() -> Seq<char> {
    "No data found for your query."@
}

pub open spec fn failure_prefix() -> Seq<char> {
    "I couldn't execute your query: "@
}

pub open spec fn unreadable_text() -> Seq<char> {
    "the dataset could not be read"@
}

/// Conversations about datasets in the object store.
pub struct ConversationService {
    pub store: InMemoryStore,
    pub bucket: String,
}

impl ConversationService {
    /// No conversations yet; datasets are looked up in `bucket` among others.
    pub fn new(bucket: String) -> (r: Self)
        ensures
            r.store.wf(),
            r.store@ == Map::<Seq<char>, ContextView>::empty(),
            r.bucket@ == bucket@,
    {
        ConversationService { store: InMemoryStore::new(), bucket }
    }

    /// The conversation a request continues: the one it names, if stored;
    /// else a new one under `new_id`, with the schema read afresh from the
    /// job's file.
    pub fn resolve_context<S: S3ServiceTrait>(&mut self, s3: &S, request: &QueryRequest, new_id: String, now: u64) -> (r: Result<String, ConversationError>)
        requires
            old(self).store.wf(),
            s3.ready(),
            !old(self).store@.contains_key(new_id@),
        ensures
            final(self).store.wf(),
            final(self).bucket == old(self).bucket,
            (request.conversation_id matches Some(c) && old(self).store@.contains_key(c@)) ==> (r matches Ok(id)
                && Some(id) == request.conversation_id && final(self).store@ == old(self).store@),
            !(request.conversation_id matches Some(c) && old(self).store@.contains_key(c@)) ==> match job_table(
                s3.objects(),
                request.job_id@,
                old(self).bucket@,
            ) {
                Some(tv) => (r matches Ok(id) && id@ == new_id@) && final(self).store@ == old(self).store@.insert(
                    new_id@,
                    ContextView { job_id: request.job_id@, columns: tv.columns, turns: seq![] },
                ),
                None => r is Err && final(self).store@ == old(self).store@,
            },
    {
        match &request.conversation_id {
            Some(c) => {
                if self.store.get(c.as_str()).is_some() {
                    return Ok(c.clone());
                }
            },
            None => {},
        }
        let bytes = match load_dataset(s3, request.job_id.as_str(), self.bucket.as_str()) {
            Ok(b) => b,
            Err(e) => return Err(ConversationError::DataLoad(e)),
        };
        let t = match parse_dataset(bytes.as_slice()) {
            Ok(t) => t,
            Err(e) => return Err(ConversationError::Dataset(e)),
        };
        let md = dataset_metadata(&t);
        let ctx = ConversationContext::new(new_id.clone(), request.job_id.clone(), md, now);
        assert(turns_view(ctx.history@) =~= seq![]);
        self.store.store(ctx);
        Ok(new_id)
    }

    /// Runs a structured query in a stored conversation. A question that
    /// could not be translated, or a query that cannot run, is answered with
    /// a sentence that says why; one that finds no rows says so; in these
    /// cases no turn is recorded. Otherwise the results come with a chart for
    /// a chart request, and the turn is recorded (see `answered`).
    pub fn answer_structured<S: S3ServiceTrait>(
        &mut self,
        s3: &S,
        conversation_id: &str,
        query: &str,
        translated: Result<StructuredQuery, TranslationError>,
        now: u64,
    ) -> (r: Option<QueryResponse>)
        requires
            old(self).store.wf(),
            s3.ready(),
        ensures
            final(self).store.wf(),
            final(self).bucket == old(self).bucket,
            !old(self).store@.contains_key(conversation_id@) ==> r is None && final(self).store@ == old(self).store@,
            old(self).store@.contains_key(conversation_id@) ==> (r matches Some(resp) && match translated {
                Err(e) => {
                    &&& resp.conversation_id@ == conversation_id@
                    &&& resp.response@ == not_understood_prefix() + translation_text(terr_view(e))
                    &&& resp.data is None && resp.visualization_data is None
                    &&& final(self).store@ == old(self).store@
                },
                Ok(sq) => answered(
                    old(self).store@,
                    final(self).store@,
                    s3.objects(),
                    old(self).bucket@,
                    conversation_id@,
                    query@,
                    sq@,
                    resp,
                ),
            }),
    {
        let job_id = match self.store.get(conversation_id) {
            None => return None,
            Some(c) => c.job_id.clone(),
        };
        let cid = String::from_str(conversation_id);
        let sq = match translated {
            Err(e) => {
                let msg = join2("I couldn't understand your query: ", e.message().as_str());
                return Some(QueryResponse { conversation_id: cid, response: msg, data: None, visualization_data: None });
            },
            Ok(sq) => sq,
        };
        let table = match load_dataset(s3, job_id.as_str(), self.bucket.as_str()) {
            Ok(b) => match parse_dataset(b.as_slice()) {
                Ok(t) => Some(t),
                Err(_) => None,
            },
            Err(_) => None,
        };
        let t = match table {
            None => {
                let msg = join2("I couldn't execute your query: ", "the dataset could not be read");
                return Some(QueryResponse { conversation_id: cid, response: msg, data: None, visualization_data: None });
            },
            Some(t) => t,
        };
        let intent = sq.intent;
        match apply_operations(t, &sq) {
            Err(e) => {
                let msg = join2("I couldn't execute your query: ", e.message().as_str());
                Some(QueryResponse { conversation_id: cid, response: msg, data: None, visualization_data: None })
            },
            Ok(res) => {
                if res.rows.len() == 0 {
                    return Some(QueryResponse {
                        conversation_id: cid,
                        response: String::from_str("No data found for your query."),
                        data: Some(res),
                        visualization_data: None,
                    });
                }
                let chart = if intent == QueryIntent::Visualize {
                    match synthesize_chart(&res) {
                        Ok(c) => c,
                        Err(_) => None,
                    }
                } else {
                    None
                };
                let text = String::from_str("Here are the results for your query.");
                self.store.record_turn(conversation_id, String::from_str(query), text.clone(), now);
                Some(QueryResponse { conversation_id: cid, response: text, data: Some(res), visualization_data: chart })
            },
        }
    }

    /// Runs a question in a stored conversation, translated by the keyword
    /// rules over the conversation's columns (see `answered`).
    pub fn answer_in_context<S: S3ServiceTrait>(&mut self, s3: &S, conversation_id: &str, query: &str, now: u64) -> (r: Option<QueryResponse>)
        requires
            old(self).store.wf(),
            s3.ready(),
        ensures
            final(self).store.wf(),
            final(self).bucket == old(self).bucket,
            !old(self).store@.contains_key(conversation_id@) ==> r is None && final(self).store@ == old(self).store@,
            old(self).store@.contains_key(conversation_id@) ==> (r matches Some(resp) && answered(
                old(self).store@,
                final(self).store@,
                s3.objects(),
                old(self).bucket@,
                conversation_id@,
                query@,
                rule_query(lower_of(query@), old(self).store@[conversation_id@].columns),
                resp,
            )),
    {
        let columns = match self.store.get(conversation_id) {
            None => return None,
            Some(c) => crate::table::clone_names(&c.dataset_metadata.columns),
        };
        let sq = rule_based_translation(query, &columns);
        self.answer_structured(s3, conversation_id, query, Ok(sq), now)
    }

    /// Answers a question with the keyword rules and the templated sentence:
    /// resolves the conversation (a new one under `new_id`, with no turns, if
    /// needed), then answers in it (see `resolved_store` and `answered`).
    pub fn process_query<S: S3ServiceTrait>(&mut self, s3: &S, request: &QueryRequest, new_id: String, now: u64) -> (r: Result<QueryResponse, ConversationError>)
        requires
            old(self).store.wf(),
            s3.ready(),
            !old(self).store@.contains_key(new_id@),
        ensures
            final(self).store.wf(),
            r is Err <==> (!resumes(old(self).store@, *request) && job_table(s3.objects(), request.job_id@, old(self).bucket@) is None),
            r is Err ==> final(self).store@ == old(self).store@,
            r matches Ok(resp) ==> answered(
                resolved_store(old(self).store@, s3.objects(), old(self).bucket@, *request, new_id@),
                final(self).store@,
                s3.objects(),
                old(self).bucket@,
                resolved_id(old(self).store@, *request, new_id@),
                request.query@,
                rule_query(
                    lower_of(request.query@),
                    resolved_store(old(self).store@, s3.objects(), old(self).bucket@, *request, new_id@)[resolved_id(
                        old(self).store@,
                        *request,
                        new_id@,
                    )].columns,
                ),
                resp,
            ),
    {
        let ghost id = new_id@;
        let cid = match self.resolve_context(s3, request, new_id, now) {
            Ok(c) => c,
            Err(e) => return Err(e),
        };
        assert(cid@ == resolved_id(old(self).store@, *request, id));
        match self.answer_in_context(s3, cid.as_str(), request.query.as_str(), now) {
            Some(resp) => Ok(resp),
            None => {
                assert(false);
                Err(ConversationError::DataLoad(DataLoadError::NotFound))
            },
        }
    }
}

/// The request names a stored conversation.
pub open spec fn resumes(store: Map<Seq<char>, ContextView>, request: QueryRequest) -> bool {
    request.conversation_id matches Some(c) && store.contains_key(c@)
}

/// The conversation a request is answered in.
pub open spec fn resolved_id(store: Map<Seq<char>, ContextView>, request: QueryRequest, new_id: Seq<char>) -> Seq<char> {
    if resumes(store, request) { request.conversation_id->0@ } else { new_id }
}

/// The conversations once a request is resolved: unchanged if it names a
/// stored one; else with a new one under `new_id` that holds the columns of
/// the job's table and no turns.
pub open spec fn resolved_store(
    store: Map<Seq<char>, ContextView>,
    objects: Map<Seq<char>, Seq<u8>>,
    bucket: Seq<char>,
    request: QueryRequest,
    new_id: Seq<char>,
) -> Map<Seq<char>, ContextView> {
    if resumes(store, request) {
        store
    } else {
        match job_table(objects, request.job_id@, bucket) {
            Some(tv) => store.insert(new_id, ContextView { job_id: request.job_id@, columns: tv.columns, turns: seq![] }),
            None => store,
        }
    }
}

/// The chart that comes with a result: none unless the query asks for a
/// chart; then the chart of the result, if it can be built.
pub open spec fn chart_for(intent: QueryIntent, d: TableView, vis: Option<ChartSpec>) -> bool {
    if intent != QueryIntent::Visualize || chart_overflows(d) {
        vis is None
    } else {
        match vis {
            Some(c) => chart_of(d) == Some(c@),
            None => chart_of(d) is None,
        }
    }
}

/// How a query `q` for `question` is answered in conversation `cid`, the
/// conversations going from `before` to `after`: a dataset that cannot be
/// read, or a query that cannot run, gets a sentence that says why, with no
/// data and no chart; a result without rows gets "No data found"; a result
/// with rows gets the results sentence, its chart, and one more turn in the
/// conversation. Only the last case changes the conversations.
pub open spec fn answered(
    before: Map<Seq<char>, ContextView>,
    after: Map<Seq<char>, ContextView>,
    objects: Map<Seq<char>, Seq<u8>>,
    bucket: Seq<char>,
    cid: Seq<char>,
    question: Seq<char>,
    q: crate::query::QueryView,
    resp: QueryResponse,
) -> bool {
    let c = before[cid];
    &&& resp.conversation_id@ == cid
    &&& match job_table(objects, c.job_id, bucket) {
        None => resp.response@ == failure_prefix() + unreadable_text() && resp.data is None
            && resp.visualization_data is None && after == before,
        Some(tv) => match resp.data {
            None => (exists|e: ErrView| query_result(tv, q, Err(e)) && resp.response@ == failure_prefix() + error_text(e))
                && resp.visualization_data is None && after == before,
            Some(d) => query_result(tv, q, Ok(d@)) && d.wf() && if d@.rows.len() == 0 {
                resp.response@ == no_data_text() && resp.visualization_data is None && after == before
            } else {
                &&& resp.response@ == results_text()
                &&& chart_for(q.intent, d@, resp.visualization_data)
                &&& after == before.insert(cid, ContextView { turns: c.turns.push((question, results_text())), ..c })
            },
        },
    }
}

pub open spec fn not_understood_prefix() -> Seq<char> {
    "I couldn't understand your query: "@
}

/// A templated sentence for the result of a query, by intent; a
/// description names the shape of the result.
pub open spec fn intent_sentence(query: Seq<char>, intent: QueryIntent, rows: nat, cols: nat) -> Seq<char> {
    match intent {
        QueryIntent::Aggregate => "Here are the aggregated results for your query: '"@ + query + "'"@,
        QueryIntent::Filter => "Here are the filtered results for your query: '"@ + query + "'"@,
        QueryIntent::Sort => "Here are the sorted results for your query: '"@ + query + "'"@,
        QueryIntent::Describe => "The dataset has "@ + nat_text(rows) + " rows and "@ + nat_text(cols)
            + " columns. Here's a summary of the data."@,
        QueryIntent::Visualize => "Here's a visualization for your query: '"@ + query + "'"@,
    }
}

/// The templated sentence for a result table (see `intent_sentence`).
pub fn generate_nl_response(query: &str, intent: QueryIntent, result: &Table) -> (r: String)
    ensures
        r@ == intent_sentence(query@, intent, result@.rows.len(), result@.columns.len()),
{
    let quoted = |prefix: &str| -> (s: String)
        ensures
            s@ == prefix@ + query@ + "'"@,
    {
        let a = join2(prefix, query);
        join2(a.as_str(), "'")
    };
    match intent {
        QueryIntent::Aggregate => quoted("Here are the aggregated results for your query: '"),
        QueryIntent::Filter => quoted("Here are the filtered results for your query: '"),
        QueryIntent::Sort => quoted("Here are the sorted results for your query: '"),
        QueryIntent::Visualize => quoted("Here's a visualization for your query: '"),
        QueryIntent::Describe => {
            let mut s = String::from_str("The dataset has ");
            s.append(count_text(result.rows.len()).as_str());
            s.append(" rows and ");
            s.append(count_text(result.columns.len()).as_str());
            s.append(" columns. Here's a summary of the data.");
            assert(s@ =~= intent_sentence(query@, intent, result@.rows.len(), result@.columns.len()));
            s
        },
    }
}

} // verus!
