use data_insights::{after_cache_read, generate_nl_response, insights_step, not_found_response, pending_message, upload_response, ErrorResponse, InsightsStep};
use data_insights::cache::MemoryRedisService;
use data_insights::conversation::{ConversationService, QueryRequest};
use data_insights::exec::{apply_operations, ExecutionError};
use data_insights::insights::{correlation_candidates, generate_insights, paired_values};
use data_insights::jobs::{JobStatus, MemoryDatabaseService};
use data_insights::pipeline::{
    finish_job, load_dataset, parse_dataset, start_job, upload_csv, validate_upload, DataLoadError,
    DatasetError, ProcessError, ValidationError,
};
use data_insights::query::{rule_based_translation, ColumnOperation, QueryIntent, StructuredQuery};
use data_insights::reply::{parse_translation_reply, RawOperation, RawQueryReply, TranslationError};
use data_insights::storage::MemoryS3Service;
use data_insights::table::{parse_csv, DataType, ParseError, Table};
use data_insights::viz::{synthesize_chart, ChartSpec};

const JOB: &str = "550e8400-e29b-41d4-a716-446655440000";

fn strings(v: &[&str]) -> Vec<String> {
    v.iter().map(|s| s.to_string()).collect()
}

fn table(text: &str) -> Table {
    parse_csv(text).expect("well-formed table")
}

fn query(intent: QueryIntent, columns: &[&str], operations: Vec<ColumnOperation>) -> StructuredQuery {
    StructuredQuery { intent, columns: strings(columns), operations }
}

fn cell(t: &Table, i: usize, j: usize) -> Option<&str> {
    t.rows[i][j].as_deref()
}

#[test]
fn parse_infers_types_and_nulls() {
    let t = table("id,name,score,flag,day\n1,ann,2.5,true,2024-01-02\n2,,3,false,2024-02-03\n");
    assert_eq!(t.columns, strings(&["id", "name", "score", "flag", "day"]));
    assert_eq!(t.dtypes, vec![DataType::Integer, DataType::Text, DataType::Float, DataType::Boolean, DataType::Date]);
    assert_eq!(t.rows.len(), 2);
    assert_eq!(cell(&t, 1, 1), None);
    assert_eq!(cell(&t, 0, 2), Some("2.5"));
}

#[test]
fn parse_reads_crlf_and_times() {
    let t = table("at,when\r\n2024-01-02 10:11:12,10:11:12\r\n");
    assert_eq!(t.dtypes, vec![DataType::Datetime, DataType::Time]);
    assert_eq!(cell(&t, 0, 1), Some("10:11:12"));
}

#[test]
fn parse_rejects_malformed_text() {
    assert!(matches!(parse_csv(""), Err(ParseError::Empty)));
    assert!(matches!(parse_csv("a,b\n1\n"), Err(ParseError::Ragged)));
    let mut text = String::from("n\n");
    for i in 0..100 {
        text.push_str(&format!("{}\n", i));
    }
    text.push_str("oops\n");
    assert!(matches!(parse_csv(&text), Err(ParseError::Mistyped)));
}

#[test]
fn parse_dataset_rejects_bytes_that_are_not_text() {
    assert!(matches!(parse_dataset(&[0xff, 0xfe, 0x41]), Err(DatasetError::NotText)));
    assert!(parse_dataset(b"a\n1\n").is_ok());
}

#[test]
fn null_and_present_counts_cover_every_row() {
    let t = table("a,b,c\n1,,x\n,2,\n3,4,y\n,,\n");
    let ins = generate_insights(&t);
    for (j, stats) in ins.column_statistics.iter().enumerate() {
        let present = t.rows.iter().filter(|r| r[j].is_some()).count();
        assert_eq!(stats.null_count + present, t.rows.len());
    }
    assert_eq!(ins.column_statistics[0].null_count, 2);
    assert_eq!(ins.column_statistics[1].null_count, 2);
}

#[test]
fn summary_groups_columns_by_type() {
    let t = table("n,x,city,day\n1,1.5,Oslo,2024-01-01\n2,2.5,Rome,2024-01-02\n");
    let ins = generate_insights(&t);
    let s = &ins.data_summary;
    assert_eq!(s.numeric_columns, strings(&["n", "x"]));
    assert_eq!(s.categorical_columns, strings(&["city"]));
    assert_eq!(s.date_columns, strings(&["day"]));
    assert_eq!(s.summary_text, "Dataset has 2 rows and 4 columns (2 numeric, 1 categorical, 1 date).");
}

#[test]
fn numeric_statistics_report_min_and_max() {
    let t = table("v\n3\n-1.25\n10\n\n");
    let ins = generate_insights(&t);
    let s = &ins.column_statistics[0];
    assert_eq!(s.data_type, "float");
    assert_eq!(s.min.as_deref(), Some("-1.25"));
    assert_eq!(s.max.as_deref(), Some("10"));
    assert_eq!(s.unique_count, 4);
    assert!(s.frequent_values.is_none());
}

#[test]
fn numeric_statistics_report_mean_and_quartiles() {
    let t = table("v,w\n1,-1\n2,-2\n3,\n4,\n");
    let ins = generate_insights(&t);
    let s = &ins.column_statistics[0];
    assert_eq!(s.mean.as_deref(), Some("2.50"));
    assert_eq!(s.median.as_deref(), Some("2.50"));
    assert_eq!(s.percentile_25.as_deref(), Some("1.75"));
    assert_eq!(s.percentile_75.as_deref(), Some("3.25"));
    assert!(s.std_dev.is_none());
    let w = &ins.column_statistics[1];
    assert_eq!(w.mean.as_deref(), Some("-1.50"));
    assert_eq!(w.median.as_deref(), Some("-1.50"));
    assert_eq!(w.percentile_25.as_deref(), Some("-1.75"));
    let text = &ins.column_statistics;
    assert!(text.iter().all(|c| c.frequent_values.is_none()));
    let names = generate_insights(&table("n\nx\n"));
    assert!(names.column_statistics[0].mean.is_none());
}

#[test]
fn frequent_values_are_the_ten_most_common() {
    let mut text = String::from("k\n");
    for (name, n) in [("a", 1), ("b", 3), ("c", 2), ("d", 3), ("e", 1), ("f", 1), ("g", 1), ("h", 1), ("i", 1), ("j", 1), ("k", 5), ("l", 1)] {
        for _ in 0..n {
            text.push_str(name);
            text.push('\n');
        }
    }
    let t = table(&text);
    let ins = generate_insights(&t);
    let f = ins.column_statistics[0].frequent_values.clone().unwrap();
    assert_eq!(f.len(), 10);
    assert_eq!(f[0], ("k".to_string(), 5));
    assert_eq!(f[1], ("b".to_string(), 3));
    assert_eq!(f[2], ("d".to_string(), 3));
    assert_eq!(f[3], ("c".to_string(), 2));
    assert_eq!(f[4], ("a".to_string(), 1));
}

#[test]
fn constant_series_have_no_correlation() {
    let t = table("x,y,z\n1,5,2\n2,5,4\n3,5,7\n");
    let pairs = correlation_candidates(&t);
    assert_eq!(pairs, vec![(0, 2)]);
    let ins = generate_insights(&t);
    assert_eq!(ins.correlated_columns, Some(vec![("x".to_string(), "z".to_string())]));
}

#[test]
fn too_few_pairs_have_no_correlation() {
    let t = table("x,y\n1,\n2,4\n,5\n");
    assert!(correlation_candidates(&t).is_empty());
    let one = table("x,name\n1,a\n2,b\n");
    assert!(generate_insights(&one).correlated_columns.is_none());
}

#[test]
fn linear_columns_correlate_perfectly() {
    let mut text = String::from("x,y\n");
    for x in 1..=10 {
        text.push_str(&format!("{},{}\n", x, 2 * x + 1));
    }
    let t = table(&text);
    assert_eq!(correlation_candidates(&t), vec![(0, 1)]);
    let (xs, ys) = paired_values(&t, 0, 1);
    let xs: Vec<f64> = xs.iter().map(|v| *v as f64 / 1e18).collect();
    let ys: Vec<f64> = ys.iter().map(|v| *v as f64 / 1e18).collect();
    let n = xs.len() as f64;
    let (mx, my) = (xs.iter().sum::<f64>() / n, ys.iter().sum::<f64>() / n);
    let cov: f64 = xs.iter().zip(&ys).map(|(x, y)| (x - mx) * (y - my)).sum();
    let vx: f64 = xs.iter().map(|x| (x - mx) * (x - mx)).sum();
    let vy: f64 = ys.iter().map(|y| (y - my) * (y - my)).sum();
    let r = cov / (vx.sqrt() * vy.sqrt());
    assert!((r - 1.0).abs() < 1e-9);
}

#[test]
fn cached_insights_come_back_unchanged() {
    let mut cache = MemoryRedisService::new();
    let encoded = "{\"data_summary\":{\"row_count\":3}}";
    cache.cache_insights(JOB, encoded, 1_000);
    assert_eq!(cache.get_insights(JOB, 2_000).as_deref(), Some(encoded));
    assert_eq!(cache.get(&format!("insights:{}", JOB), 1_000 + 86_400).as_deref(), Some(encoded));
    assert!(cache.get_insights("other", 1_000).is_none());
    assert!(cache.get_insights(JOB, 1_001 + 86_400).is_none());
}

#[test]
fn cache_entries_expire() {
    let mut cache = MemoryRedisService::new();
    cache.set_with_expiry("k", "v", 10, 100);
    assert_eq!(cache.get("k", 110).as_deref(), Some("v"));
    assert_eq!(cache.get("k", 111), None);
    assert_eq!(cache.get("k", 50), None);
    cache.set_with_expiry("p", "q", 0, 100);
    assert_eq!(cache.get_value("p", u64::MAX).as_deref(), Some("q"));
    cache.delete("p");
    assert_eq!(cache.get_value("p", 0), None);
    cache.set_value("p", "r");
    cache.set_value("p", "s");
    assert_eq!(cache.get_value("p", 0).as_deref(), Some("s"));
}

#[test]
fn non_csv_upload_is_refused_and_creates_no_job() {
    let mut store = MemoryS3Service::new();
    let mut db = MemoryDatabaseService::new();
    let r = upload_csv(&mut store, &mut db, "data.txt", b"a,b\n1,2\n".to_vec(), JOB.to_string(), 7);
    assert_eq!(r, Err(ValidationError::NotCsv));
    assert_eq!(ValidationError::NotCsv.message(), "File must be a CSV");
    assert!(db.get_job(JOB).is_none());
    assert!(store.list_files().is_empty());
}

#[test]
fn empty_upload_is_refused() {
    let mut store = MemoryS3Service::new();
    let mut db = MemoryDatabaseService::new();
    let r = upload_csv(&mut store, &mut db, "data.csv", Vec::new(), JOB.to_string(), 7);
    assert_eq!(r, Err(ValidationError::NoFile));
    assert_eq!(r.unwrap_err().message(), "No file uploaded");
    assert!(db.get_job(JOB).is_none());
}

#[test]
fn upload_name_check_ignores_case() {
    assert_eq!(validate_upload("REPORT.CSV", 3), Ok(()));
    assert_eq!(validate_upload("report.csv.txt", 3), Err(ValidationError::NotCsv));
}

#[test]
fn rule_translation_of_average_question() {
    let q = rule_based_translation("what's the average?", &strings(&["col1", "col2"]));
    assert_eq!(q.intent, QueryIntent::Aggregate);
    assert_eq!(q.columns, strings(&["col1"]));
    assert_eq!(q.operations.len(), 1);
    assert!(matches!(&q.operations[0], ColumnOperation::Mean(c) if c == "col1"));
}

#[test]
fn rule_translation_ignores_case_and_falls_back() {
    let q = rule_based_translation("TOTAL SUM please", &strings(&["a", "b"]));
    assert!(matches!(&q.operations[0], ColumnOperation::Sum(c) if c == "a"));
    let q = rule_based_translation("How many? COUNT them", &Vec::new());
    assert!(matches!(&q.operations[0], ColumnOperation::Count(c) if c == "column1"));
    let q = rule_based_translation("show me everything", &strings(&["a", "b"]));
    assert_eq!(q.intent, QueryIntent::Describe);
    assert_eq!(q.columns, strings(&["a", "b"]));
    assert!(q.operations.is_empty());
}

#[test]
fn unparsable_ordering_filter_is_skipped() {
    let t = table("name,age\nann,30\nbob,40\ncid,50\n");
    let q = query(
        QueryIntent::Filter,
        &["name"],
        vec![
            ColumnOperation::Filter("age".into(), ">".into(), "abc".into()),
            ColumnOperation::Filter("age".into(), ">=".into(), "40".into()),
        ],
    );
    let r = apply_operations(t, &q).unwrap();
    assert_eq!(r.columns, strings(&["name"]));
    assert_eq!(r.rows.len(), 2);
    assert_eq!(cell(&r, 0, 0), Some("bob"));
    assert_eq!(cell(&r, 1, 0), Some("cid"));
}

#[test]
fn filters_compare_text_and_skip_unknown_operators() {
    let t = table("name,age\nann,30\nbob,40\n");
    let q = query(
        QueryIntent::Filter,
        &[],
        vec![
            ColumnOperation::Filter("name".into(), "!=".into(), "ann".into()),
            ColumnOperation::Filter("age".into(), "~".into(), "1".into()),
        ],
    );
    let r = apply_operations(t, &q).unwrap();
    assert_eq!(r.rows.len(), 1);
    assert_eq!(cell(&r, 0, 0), Some("bob"));
    let t = table("name,age\nann,30\n");
    let bad = query(QueryIntent::Filter, &[], vec![ColumnOperation::Filter("nope".into(), "=".into(), "1".into())]);
    assert!(matches!(apply_operations(t, &bad), Err(ExecutionError::UnknownColumn(c)) if c == "nope"));
}

#[test]
fn chart_of_single_numeric_column_is_its_average() {
    let t = table("score\n1\n2\n3\n");
    let q = query(QueryIntent::Visualize, &["score"], vec![]);
    let r = apply_operations(t, &q).unwrap();
    match synthesize_chart(&r).unwrap() {
        Some(ChartSpec::Averages { labels, values }) => {
            assert_eq!(labels, strings(&["score"]));
            assert_eq!(values.len(), 1);
            assert_eq!(values[0] as f64 / 1e18, 2.0);
        }
        other => panic!("unexpected chart {:?}", other),
    }
}

#[test]
fn chart_of_text_column_counts_values() {
    let t = table("city,n\nOslo,x\nRome,y\nOslo,\n");
    match synthesize_chart(&t).unwrap() {
        Some(ChartSpec::Counts { column, labels, counts }) => {
            assert_eq!(column, "city");
            assert_eq!(labels, strings(&["Oslo", "Rome"]));
            assert_eq!(counts, vec![2, 1]);
        }
        other => panic!("unexpected chart {:?}", other),
    }
    let empty = table("a,b\n,\n");
    assert!(matches!(synthesize_chart(&empty).unwrap(), Some(ChartSpec::Grid { .. })));
}

#[test]
fn repeated_descriptions_are_identical() {
    let mut text = String::from("a,b\n");
    for i in 0..15 {
        text.push_str(&format!("{},{}\n", i, i * 2));
    }
    let data = text.as_bytes().to_vec();
    let q = query(QueryIntent::Describe, &[], vec![]);
    let first = apply_operations(parse_dataset(&data).unwrap(), &q).unwrap();
    let second = apply_operations(parse_dataset(&data).unwrap(), &q).unwrap();
    assert_eq!(first.rows.len(), 10);
    assert_eq!(first.rows, second.rows);
    assert_eq!(first.columns, second.columns);
    assert_eq!(cell(&first, 9, 1), Some("18"));
}

#[test]
fn aggregates_replace_the_table() {
    let t = table("g,v\na,1\nb,2.5\na,\n");
    let q = query(QueryIntent::Aggregate, &[], vec![ColumnOperation::Sum("v".into())]);
    let r = apply_operations(t, &q).unwrap();
    assert_eq!(r.columns, strings(&["sum_v"]));
    assert_eq!(cell(&r, 0, 0), Some("3.5"));
    let t = table("g,v\na,1\nb,2\na,4\n");
    let q = query(QueryIntent::Aggregate, &[], vec![ColumnOperation::Mean("v".into())]);
    let r = apply_operations(t, &q).unwrap();
    assert_eq!(r.columns, strings(&["mean_v"]));
    assert_eq!(cell(&r, 0, 0), Some("2.333333333333333333"));
    let t = table("g,v\na,1\nb,\na,4\n");
    let q = query(QueryIntent::Aggregate, &[], vec![ColumnOperation::Count("v".into())]);
    let r = apply_operations(t, &q).unwrap();
    assert_eq!(cell(&r, 0, 0), Some("2"));
    let t = table("g,v\na,1\nb,2\na,4\n");
    let q = query(QueryIntent::Aggregate, &[], vec![ColumnOperation::GroupBy("g".into())]);
    let r = apply_operations(t, &q).unwrap();
    assert_eq!(r.columns, strings(&["g", "count_g"]));
    assert_eq!(r.rows, vec![vec![Some("a".to_string()), Some("2".to_string())], vec![Some("b".to_string()), Some("1".to_string())]]);
    let t = table("g,v\na,1\n");
    let q = query(QueryIntent::Aggregate, &[], vec![ColumnOperation::Mean("g".into())]);
    assert!(matches!(apply_operations(t, &q), Err(ExecutionError::NotNumeric(c)) if c == "g"));
}

#[test]
fn sort_orders_by_last_sort_operation() {
    let t = table("name,age\nbob,40\nann,30\ncid,35\n");
    let q = query(
        QueryIntent::Sort,
        &["name"],
        vec![ColumnOperation::SortBy("name".into(), true), ColumnOperation::SortBy("age".into(), false)],
    );
    let r = apply_operations(t, &q).unwrap();
    let names: Vec<_> = (0..3).map(|i| cell(&r, i, 0).unwrap().to_string()).collect();
    assert_eq!(names, strings(&["bob", "cid", "ann"]));
    let t = table("name,age\nbob,40\n");
    let q = query(QueryIntent::Sort, &[], vec![ColumnOperation::SortBy("zzz".into(), true)]);
    assert!(matches!(apply_operations(t, &q), Err(ExecutionError::UnknownColumn(_))));
}

#[test]
fn dataset_is_found_through_fallback_keys() {
    let mut store = MemoryS3Service::new();
    store.upload_file(&format!("{}.csv", JOB), b"a\n1\n".to_vec());
    let upper = JOB.to_uppercase();
    assert_eq!(load_dataset(&store, &upper, "bucket").unwrap(), b"a\n1\n".to_vec());
    assert_eq!(load_dataset(&store, "not-a-uuid", "bucket"), Err(DataLoadError::InvalidJobId));
    let other = "123e4567-e89b-12d3-a456-426614174000";
    assert_eq!(load_dataset(&store, other, "bucket"), Err(DataLoadError::NotFound));
    store.upload_file(&format!("bucket/uploads/{}.csv", other), b"b\n2\n".to_vec());
    assert_eq!(load_dataset(&store, other, "bucket").unwrap(), b"b\n2\n".to_vec());
}

#[test]
fn job_runs_from_queued_to_completed() {
    let mut store = MemoryS3Service::new();
    let mut db = MemoryDatabaseService::new();
    let mut cache = MemoryRedisService::new();
    let id = upload_csv(&mut store, &mut db, "d.csv", b"x,y\n1,2\n2,5\n".to_vec(), JOB.to_string(), 1).unwrap();
    assert_eq!(db.get_job(&id).unwrap().status, JobStatus::Queued);
    assert_eq!(db.get_job(&id).unwrap().status.to_string(), "queued");
    let ins = start_job(&mut db, &store, "bucket", &id, 2).unwrap();
    assert_eq!(ins.data_summary.row_count, 2);
    assert_eq!(db.get_job(&id).unwrap().status, JobStatus::Processing);
    finish_job(&mut db, &mut cache, &id, "{}", 3).unwrap();
    assert_eq!(db.get_job(&id).unwrap().status, JobStatus::Completed);
    assert_eq!(db.get_job(&id).unwrap().updated_at, 3);
    assert_eq!(cache.get_insights(&id, 3).as_deref(), Some("{}"));
    assert!(matches!(start_job(&mut db, &store, "bucket", "missing", 4), Err(ProcessError::JobNotFound)));
}

#[test]
fn object_store_lists_and_locates_files() {
    let mut store = MemoryS3Service::new();
    store.upload_file("a", vec![1]);
    store.upload_file("b", vec![2]);
    store.upload_file("a", vec![3]);
    assert_eq!(store.list_files(), strings(&["a", "b"]));
    assert_eq!(store.download_file("a").unwrap(), vec![3]);
    assert_eq!(store.get_file_path("x/y.csv"), "./storage/x/y.csv");
}

#[test]
fn conversation_records_successful_turns() {
    let mut store = MemoryS3Service::new();
    let mut db = MemoryDatabaseService::new();
    upload_csv(&mut store, &mut db, "d.csv", b"col1,col2\n1,2\n3,4\n".to_vec(), JOB.to_string(), 1).unwrap();
    let mut svc = ConversationService::new("bucket".to_string());
    let req = QueryRequest { job_id: JOB.to_string(), query: "what's the average?".to_string(), conversation_id: None };
    let resp = svc.process_query(&store, &req, "c1".to_string(), 5).unwrap();
    assert_eq!(resp.conversation_id, "c1");
    assert_eq!(resp.response, "Here are the results for your query.");
    let data = resp.data.unwrap();
    assert_eq!(data.columns, strings(&["mean_col1"]));
    assert_eq!(cell(&data, 0, 0), Some("2"));
    let ctx = svc.store.get("c1").unwrap();
    assert_eq!(ctx.history.len(), 1);
    assert_eq!(ctx.dataset_metadata.row_count, 2);
    assert_eq!(ctx.dataset_metadata.data_types[0], ("col1".to_string(), "integer".to_string()));
    let again = QueryRequest { conversation_id: Some("c1".to_string()), ..req };
    let resp = svc.process_query(&store, &again, "c2".to_string(), 6).unwrap();
    assert_eq!(resp.conversation_id, "c1");
    assert_eq!(svc.store.get("c1").unwrap().history.len(), 2);
    assert!(svc.store.get("c2").is_none());
}

#[test]
fn conversation_without_dataset_fails() {
    let store = MemoryS3Service::new();
    let mut svc = ConversationService::new("bucket".to_string());
    let req = QueryRequest { job_id: JOB.to_string(), query: "sum".to_string(), conversation_id: None };
    assert!(svc.process_query(&store, &req, "c1".to_string(), 5).is_err());
    assert!(svc.store.get("c1").is_none());
}

#[test]
fn translation_reply_is_checked_against_the_schema() {
    let schema = strings(&["column1", "column2"]);
    let op = |t: &str, c: &str, o: Option<&str>, v: Option<&str>| RawOperation {
        op_type: t.to_string(),
        column: c.to_string(),
        operator: o.map(|s| s.to_string()),
        value: v.map(|s| s.to_string()),
        ascending: None,
    };
    let reply = RawQueryReply {
        intent: "Filter".to_string(),
        columns: strings(&["column1", "column2"]),
        operations: vec![op("Filter", "column1", Some(">"), Some("10")), op("SortBy", "column2", None, None)],
    };
    let q = parse_translation_reply(&reply, &schema).unwrap();
    assert_eq!(q.intent, QueryIntent::Filter);
    assert!(matches!(&q.operations[0], ColumnOperation::Filter(c, o, v) if c == "column1" && o == ">" && v == "10"));
    assert!(matches!(&q.operations[1], ColumnOperation::SortBy(c, true) if c == "column2"));
    let bad_intent = RawQueryReply { intent: "Guess".to_string(), columns: vec![], operations: vec![] };
    assert!(matches!(parse_translation_reply(&bad_intent, &schema), Err(TranslationError::UnknownIntent(_))));
    let bad_col = RawQueryReply { intent: "Sort".to_string(), columns: strings(&["nope"]), operations: vec![] };
    assert!(matches!(parse_translation_reply(&bad_col, &schema), Err(TranslationError::UnknownColumn(c)) if c == "nope"));
    let missing = RawQueryReply { intent: "Filter".to_string(), columns: vec![], operations: vec![op("Filter", "column1", None, Some("1"))] };
    assert!(matches!(parse_translation_reply(&missing, &schema), Err(TranslationError::MissingField(_))));
    let unknown = RawQueryReply { intent: "Aggregate".to_string(), columns: vec![], operations: vec![op("Median", "column1", None, None)] };
    assert!(matches!(parse_translation_reply(&unknown, &schema), Err(TranslationError::UnknownOperation(_))));
}

#[test]
fn templated_sentences_follow_the_intent() {
    let t = table("a,b\n1,2\n3,4\n5,6\n");
    assert_eq!(generate_nl_response("q?", QueryIntent::Describe, &t), "The dataset has 3 rows and 2 columns. Here's a summary of the data.");
    assert_eq!(generate_nl_response("q?", QueryIntent::Sort, &t), "Here are the sorted results for your query: 'q?'");
}

#[test]
fn insights_requests_follow_the_job_status() {
    assert_eq!(insights_step(None), InsightsStep::NotFound);
    assert_eq!(insights_step(Some(JobStatus::Processing)), InsightsStep::Pending(JobStatus::Processing));
    assert_eq!(insights_step(Some(JobStatus::Completed)), InsightsStep::ReadCache);
    assert_eq!(after_cache_read(true, false), InsightsStep::Serve);
    assert_eq!(after_cache_read(false, false), InsightsStep::Process);
    assert_eq!(after_cache_read(false, true), InsightsStep::Missing);
    let nf = not_found_response(JOB);
    assert_eq!(nf.status_code, 404);
    assert_eq!(nf.error, format!("Job with ID {} not found", JOB));
    assert_eq!(pending_message(JobStatus::Failed), "Job is failed");
    let r = upload_response(JOB.to_string());
    assert_eq!(r.status, "queued");
    assert_eq!(r.message.as_deref(), Some("File uploaded and job queued for processing. Status: queued"));
    let e = ErrorResponse::from_validation(ValidationError::NoFile);
    assert_eq!((e.error.as_str(), e.status_code), ("No file uploaded", 400));
}

fn service_with_dataset(text: &[u8]) -> (MemoryS3Service, ConversationService) {
    let mut store = MemoryS3Service::new();
    let mut db = MemoryDatabaseService::new();
    upload_csv(&mut store, &mut db, "d.csv", text.to_vec(), JOB.to_string(), 1).unwrap();
    let mut svc = ConversationService::new("bucket".to_string());
    let req = QueryRequest { job_id: JOB.to_string(), query: "show".to_string(), conversation_id: None };
    svc.resolve_context(&store, &req, "c1".to_string(), 2).unwrap();
    (store, svc)
}

#[test]
fn chart_request_through_a_conversation() {
    let (store, mut svc) = service_with_dataset(b"score\n1\n2\n3\n");
    let q = query(QueryIntent::Visualize, &["score"], vec![]);
    let resp = svc.answer_structured(&store, "c1", "chart it", Ok(q), 3).unwrap();
    match resp.visualization_data {
        Some(ChartSpec::Averages { labels, values }) => {
            assert_eq!(labels, strings(&["score"]));
            assert_eq!(values[0] as f64 / 1e18, 2.0);
        }
        other => panic!("unexpected chart {:?}", other),
    }
    assert_eq!(svc.store.get("c1").unwrap().history.len(), 1);
    let q = query(QueryIntent::Describe, &[], vec![]);
    let resp = svc.answer_structured(&store, "c1", "describe", Ok(q), 4).unwrap();
    assert!(resp.visualization_data.is_none());
}

#[test]
fn failed_queries_are_answered_without_a_turn() {
    let (store, mut svc) = service_with_dataset(b"a,b\n1,2\n");
    assert_eq!(svc.store.get("c1").unwrap().history.len(), 0);
    let bad = query(QueryIntent::Filter, &["zzz"], vec![]);
    let resp = svc.answer_structured(&store, "c1", "q", Ok(bad), 3).unwrap();
    assert_eq!(resp.response, "I couldn't execute your query: column not found: zzz");
    assert!(resp.data.is_none() && resp.visualization_data.is_none());
    let resp = svc.answer_structured(&store, "c1", "q", Err(TranslationError::UnknownIntent("Guess".to_string())), 3).unwrap();
    assert_eq!(resp.response, "I couldn't understand your query: unknown intent: Guess");
    let empty = query(QueryIntent::Filter, &[], vec![ColumnOperation::Filter("a".into(), ">".into(), "5".into())]);
    let resp = svc.answer_structured(&store, "c1", "q", Ok(empty), 3).unwrap();
    assert_eq!(resp.response, "No data found for your query.");
    assert_eq!(svc.store.get("c1").unwrap().history.len(), 0);
}

#[test]
fn frequent_value_ties_keep_first_appearance() {
    let t = table("k\nb\na\nc\na\nb\n");
    let f = generate_insights(&t).column_statistics[0].frequent_values.clone().unwrap();
    assert_eq!(f, vec![("b".to_string(), 2), ("a".to_string(), 2), ("c".to_string(), 1)]);
}
