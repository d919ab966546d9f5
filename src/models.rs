use vstd::prelude::*;
use crate::jobs::{status_label, JobStatus};
use crate::pipeline::ValidationError;
use crate::text::join2;

verus! {

/// Settings of the service.
pub struct Config {
    pub database_url: String,
    pub redis_url: String,
    pub aws_region: String,
    pub s3_bucket: String,
    pub server_port: u16,
}

/// An error as shown to a client, with its HTTP status code.
pub struct ErrorResponse {
    pub error: String,
    pub status_code: u16,
}

impl ErrorResponse {
    /// A refused upload: status 400 with the refusal's message.
    pub fn from_validation(e: ValidationError) -> (r: Self)
        ensures
            r.status_code == 400,
            e == ValidationError::NoFile ==> r.error@ == "No file uploaded"@,
            e == ValidationError::NotCsv ==> r.error@ == "File must be a CSV"@,
    {
        ErrorResponse { error: e.message(), status_code: 400 }
    }
}

/// The reply to an accepted upload.
pub struct UploadResponse {
    pub job_id: String,
    pub status: String,
    pub message: Option<String>,
}

/// The reply to an accepted upload of job `job_id`.
pub fn upload_response(job_id: String) -> (r: UploadResponse)
    ensures
        r.job_id@ == job_id@,
        r.status@ == "queued"@,
        r.message matches Some(m) && m@ == "File uploaded and job queued for processing. Status: queued"@,
{
    let status = JobStatus::Queued.to_string();
    let message = join2("File uploaded and job queued for processing. Status: ", status.as_str());
    proof {
        reveal_strlit("File uploaded and job queued for processing. Status: ");
        reveal_strlit("queued");
        reveal_strlit("File uploaded and job queued for processing. Status: queued");
        assert(message@ =~= "File uploaded and job queued for processing. Status: queued"@);
    }
    UploadResponse { job_id, status, message: Some(message) }
}

/// A chart the language service recommends.
pub struct VisualizationRecommendation {
    pub chart_type: String,
    pub title: String,
    pub description: String,
    pub columns: Vec<String>,
}

/// A recommendation of the language service, with its reason.
pub struct ActionableRecommendation {
    pub recommendation: String,
    pub rationale: String,
}

/// The language service's summary of a dataset.
pub struct AISummary {
    pub summary: String,
    pub key_insights: Vec<String>,
    pub actionable_recommendations: Vec<ActionableRecommendation>,
    pub visualization_recommendations: Vec<VisualizationRecommendation>,
}

/// What a request for the insights of a job gets.
#[derive(PartialEq, Eq, Structural, Clone, Copy, Debug)]
pub enum InsightsStep {
    /// No such job: 404.
    NotFound,
    /// The job is not completed yet: 202 with its status.
    Pending(JobStatus),
    /// The job is completed: read the cache.
    ReadCache,
    /// The cached insights are served: 200.
    Serve,
    /// Nothing is cached yet: the job is processed, then the cache read again.
    Process,
    /// Still nothing cached after processing: 500.
    Missing,
}

/// The first decision on a request for a job's insights, from the job's
/// status alone (none if there is no such job): the cache is read only for
/// a completed job.
pub fn insights_step(status: Option<JobStatus>) -> (r: InsightsStep)
    ensures
        status is None ==> r == InsightsStep::NotFound,
        forall|s: JobStatus| status == Some(s) && s != JobStatus::Completed ==> r == InsightsStep::Pending(s),
        status == Some(JobStatus::Completed) ==> r == InsightsStep::ReadCache,
{
    match status {
        None => InsightsStep::NotFound,
        Some(s) => if s != JobStatus::Completed { InsightsStep::Pending(s) } else { InsightsStep::ReadCache },
    }
}

/// The decision after the cache of a completed job was read: serve what is
/// cached; else process the job once and read again; else report it missing.
pub fn after_cache_read(cached: bool, processed: bool) -> (r: InsightsStep)
    ensures
        cached ==> r == InsightsStep::Serve,
        !cached && !processed ==> r == InsightsStep::Process,
        !cached && processed ==> r == InsightsStep::Missing,
{
    if cached {
        InsightsStep::Serve
    } else if !processed {
        InsightsStep::Process
    } else {
        InsightsStep::Missing
    }
}

/// The 404 reply for a job that does not exist.
pub fn not_found_response(job_id: &str) -> (r: ErrorResponse)
    ensures
        r.status_code == 404,
        r.error@ == "Job with ID "@ + job_id@ + " not found"@,
{
    let a = join2("Job with ID ", job_id);
    ErrorResponse { error: join2(a.as_str(), " not found"), status_code: 404 }
}

/// The message of a reply for a job that is not completed.
pub fn pending_message(s: JobStatus) -> (r: String)
    ensures
        r@ == "Job is "@ + status_label(s),
{
    join2("Job is ", s.to_string().as_str())
}

} // verus!
