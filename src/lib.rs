//! Verified core of a tabular-data insights service: a CSV reader with type
//! inference, per-column statistics, a natural-language query translator, a
//! query executor, a chart synthesizer, a conversation manager, and the
//! in-memory backing services (object store, job store, cache).
pub mod cache;
pub mod conversation;
pub mod exec;
pub mod insights;
pub mod jobs;
pub mod models;
pub mod numeric;
pub mod pipeline;
pub mod quantile;
pub mod query;
pub mod reply;
pub mod storage;
pub mod table;
pub mod text;
pub mod viz;

pub use cache::{CacheEntry, MemoryRedisService, INSIGHTS_TTL_SECS};
pub use conversation::{
    dataset_metadata, generate_nl_response, ConversationContext, ConversationError, ConversationService, ConversationTurn,
    DatasetMetadata, InMemoryStore, QueryRequest, QueryResponse,
};
pub use exec::{apply_operations, ExecutionError, FilterOp};
pub use insights::{generate_insights, ColumnStatistics, DataSummary, Insights};
pub use jobs::{Job, JobError, JobStatus, MemoryDatabaseService, NewJob};
pub use models::{
    after_cache_read, insights_step, not_found_response, pending_message, upload_response, AISummary, ActionableRecommendation, Config, ErrorResponse,
    InsightsStep, UploadResponse, VisualizationRecommendation,
};
pub use numeric::parse_num;
pub use pipeline::{
    finish_job, load_dataset, parse_dataset, start_job, upload_csv, validate_upload, validate_upload_folded,
    DataLoadError, DatasetError, ProcessError, ValidationError,
};
pub use query::{rule_based_translation, translate_folded, ColumnOperation, QueryIntent, StructuredQuery};
pub use reply::{parse_translation_reply, RawOperation, RawQueryReply, TranslationError};
pub use storage::{MemoryS3Service, S3ServiceTrait, StorageError};
pub use table::{parse_csv, Cell, DataType, ParseError, Table};
pub use viz::{synthesize_chart, ChartSpec};
