use vstd::prelude::*;
use vstd::utf8::{decode_utf8, valid_utf8};
use crate::cache::{expiry_for, insights_key, MemoryRedisService, INSIGHTS_TTL_SECS};
use crate::insights::{generate_insights, insights_of, Insights};
use crate::jobs::{JobStatus, JobView, MemoryDatabaseService, NewJob};
use crate::storage::{object_at, S3ServiceTrait};
use crate::table::{csv_ok, csv_table, parse_csv, ParseError, Table};
use crate::text::{ends_with_text, has_suffix, join2, lower_of, lowercase};

verus! {

/// The canonical (hyphenated, lower-case) text of a job identifier, if the
/// text is a UUID in one of the forms that the `uuid` crate reads.
pub uninterp spec fn uuid_text(s: Seq<char>) -> Option<Seq<char>>;

/// Relies on `uuid::Uuid::parse_str` and the `Display` of `Uuid`: the result
/// depends on the text alone.
#[verifier::external_body]
fn canonical_uuid(s: &str) -> (r: Option<String>)
    ensures
        match r {
            Some(t) => uuid_text(s@) == Some(t@),
            None => uuid_text(s@) is None,
        },
{
    uuid::Uuid::parse_str(s).ok().map(|u| u.to_string())
}

/// Relies on `std::str::from_utf8`: it accepts exactly the valid UTF-8
/// byte strings, and the text holds the characters they encode.
#[verifier::external_body]
fn utf8_text(b: &[u8]) -> (r: Option<String>)
    ensures
        r is Some <==> valid_utf8(b@),
        r is Some ==> r->0@ == decode_utf8(b@),
{
    std::str::from_utf8(b).ok().map(|s| s.to_string())
}

/// Why an upload is refused.
#[derive(PartialEq, Eq, Structural, Clone, Copy, Debug)]
pub enum ValidationError {
    /// The upload holds no bytes.
    NoFile,
    /// The file name does not end in `.csv`, in any case.
    NotCsv,
}

impl ValidationError {
    /// The message shown to the uploader.
    pub fn message(&self) -> (r: String)
        ensures
            *self == ValidationError::NoFile ==> r@ == "No file uploaded"@,
            *self == ValidationError::NotCsv ==> r@ == "File must be a CSV"@,
    {
        match self {
            ValidationError::NoFile => String::from_str("No file uploaded"),
            ValidationError::NotCsv => String::from_str("File must be a CSV"),
        }
    }
}

/// The check of an upload, given its file name already case-folded: an
/// empty upload is refused first, then a name that does not end in `.csv`.
pub open spec fn upload_check(folded_name: Seq<char>, len: nat) -> Result<(), ValidationError> {
    if len == 0 {
        Err(ValidationError::NoFile)
    } else if !has_suffix(folded_name, ".csv"@) {
        Err(ValidationError::NotCsv)
    } else {
        Ok(())
    }
}

/// Checks an upload whose file name is already case-folded.
pub fn validate_upload_folded(folded_name: &str, content_len: usize) -> (r: Result<(), ValidationError>)
    ensures
        r == upload_check(folded_name@, content_len as nat),
{
    if content_len == 0 {
        Err(ValidationError::NoFile)
    } else if !ends_with_text(folded_name, ".csv") {
        Err(ValidationError::NotCsv)
    } else {
        Ok(())
    }
}

/// Checks an upload: it must hold bytes, and its name must end in `.csv`
/// in any case.
pub fn validate_upload(filename: &str, content_len: usize) -> (r: Result<(), ValidationError>)
    ensures
        r == upload_check(lower_of(filename@), content_len as nat),
{
    let folded = lowercase(filename);
    validate_upload_folded(folded.as_str(), content_len)
}

/// The key under which the upload of a job is stored.
pub open spec fn upload_key(job_id: Seq<char>) -> Seq<char> {
    "uploads/"@ + job_id + ".csv"@
}

/// The owner recorded for uploads.
pub open spec fn default_user() -> Seq<char> {
    "user123"@
}

fn upload_key_exec(job_id: &str) -> (r: String)
    ensures
        r@ == upload_key(job_id@),
{
    let a = join2("uploads/", job_id);
    join2(a.as_str(), ".csv")
}

/// Accepts an upload: checks it, stores the bytes under the job's upload
/// key, and records a queued job for it under the fresh id `job_id`. A
/// refused upload stores nothing and creates no job.
pub fn upload_csv<S: S3ServiceTrait>(
    store: &mut S,
    db: &mut MemoryDatabaseService,
    filename: &str,
    content: Vec<u8>,
    job_id: String,
    now: u64,
) -> (r: Result<String, ValidationError>)
    requires
        old(store).ready(),
        old(db).wf(),
        !old(db)@.contains_key(job_id@),
    ensures
        final(store).ready(),
        final(db).wf(),
        upload_check(lower_of(filename@), content@.len()) is Err ==> {
            &&& r matches Err(e) && upload_check(lower_of(filename@), content@.len()) == Err::<(), ValidationError>(e)
            &&& final(store).objects() == old(store).objects()
            &&& final(db)@ == old(db)@
        },
        upload_check(lower_of(filename@), content@.len()) is Ok ==> {
            &&& r matches Ok(id) && id@ == job_id@
            &&& final(store).objects() == old(store).objects().insert(upload_key(job_id@), content@)
            &&& final(db)@ == old(db)@.insert(
                job_id@,
                JobView {
                    user_id: default_user(),
                    file_key: upload_key(job_id@),
                    status: JobStatus::Queued,
                    created_at: now,
                    updated_at: now,
                },
            )
        },
{
    match validate_upload(filename, content.len()) {
        Err(e) => Err(e),
        Ok(()) => {
            let key = upload_key_exec(job_id.as_str());
            store.upload_file(key.as_str(), content);
            let new_job = NewJob { user_id: String::from_str("user123"), file_key: key };
            let id = db.create_job(new_job, job_id, now);
            Ok(id)
        },
    }
}

/// Why a dataset could not be read.
#[derive(PartialEq, Eq, Structural, Clone, Copy, Debug)]
pub enum DataLoadError {
    /// The job id is no UUID.
    InvalidJobId,
    /// None of the places tried holds the file.
    NotFound,
}

/// The places tried in turn for the file of a job whose canonical id is
/// `id`: its upload key as it stands, in the default bucket, in the
/// configured bucket, then the bare `<id>.csv`.
pub open spec fn dataset_places(id: Seq<char>, bucket: Seq<char>) -> Seq<(Seq<char>, Seq<char>)> {
    seq![
        (""@, upload_key(id)),
        ("default-bucket"@, upload_key(id)),
        (bucket, upload_key(id)),
        (""@, id + ".csv"@),
    ]
}

/// The first of the places that holds an object.
pub open spec fn first_found(objects: Map<Seq<char>, Seq<u8>>, places: Seq<(Seq<char>, Seq<char>)>) -> Option<Seq<u8>>
    decreases places.len(),
{
    if places.len() == 0 {
        None
    } else {
        match object_at(objects, places[0].0, places[0].1) {
            Some(d) => Some(d),
            None => first_found(objects, places.drop_first()),
        }
    }
}

/// The stored file of a job: the job id must be a UUID, and the places of
/// `dataset_places` are tried in order.
pub open spec fn dataset_of(objects: Map<Seq<char>, Seq<u8>>, job_id: Seq<char>, bucket: Seq<char>) -> Result<Seq<u8>, DataLoadError> {
    match uuid_text(job_id) {
        None => Err(DataLoadError::InvalidJobId),
        Some(id) => match first_found(objects, dataset_places(id, bucket)) {
            Some(d) => Ok(d),
            None => Err(DataLoadError::NotFound),
        },
    }
}

/// Reads the stored file of a job (see `dataset_of`).
pub fn load_dataset<S: S3ServiceTrait>(store: &S, job_id: &str, bucket: &str) -> (r: Result<Vec<u8>, DataLoadError>)
    requires
        store.ready(),
    ensures
        match r {
            Ok(d) => dataset_of(store.objects(), job_id@, bucket@) == Ok::<Seq<u8>, DataLoadError>(d@),
            Err(e) => dataset_of(store.objects(), job_id@, bucket@) == Err::<Seq<u8>, DataLoadError>(e),
        },
{
    let id = match canonical_uuid(job_id) {
        None => return Err(DataLoadError::InvalidJobId),
        Some(id) => id,
    };
    let key = upload_key_exec(id.as_str());
    let simple = join2(id.as_str(), ".csv");
    let ghost places = dataset_places(id@, bucket@);
    proof {
        reveal_strlit("");
        assert(places.drop_first().drop_first().drop_first().drop_first() =~= Seq::<(Seq<char>, Seq<char>)>::empty());
    }
    let ghost after_first = places.drop_first();
    let ghost after_second = after_first.drop_first();
    let ghost after_third = after_second.drop_first();
    assert(places[0] == (""@, upload_key(id@)));
    match store.get_object("", key.as_str()) {
        Ok(d) => return Ok(d),
        Err(_) => {},
    }
    assert(first_found(store.objects(), places) == first_found(store.objects(), after_first));
    assert(after_first[0] == ("default-bucket"@, upload_key(id@)));
    match store.get_object("default-bucket", key.as_str()) {
        Ok(d) => return Ok(d),
        Err(_) => {},
    }
    assert(first_found(store.objects(), after_first) == first_found(store.objects(), after_second));
    assert(after_second[0] == (bucket@, upload_key(id@)));
    match store.get_object(bucket, key.as_str()) {
        Ok(d) => return Ok(d),
        Err(_) => {},
    }
    assert(first_found(store.objects(), after_second) == first_found(store.objects(), after_third));
    assert(after_third[0] == (""@, id@ + ".csv"@));
    match store.get_object("", simple.as_str()) {
        Ok(d) => {
            assert(first_found(store.objects(), after_third) == Some(d@));
            Ok(d)
        },
        Err(_) => {
            assert(after_third.drop_first().len() == 0);
            assert(first_found(store.objects(), after_third) == first_found(store.objects(), after_third.drop_first()));
            Err(DataLoadError::NotFound)
        },
    }
}

/// Why a dataset's bytes are no table.
#[derive(PartialEq, Eq, Structural, Clone, Copy, Debug)]
pub enum DatasetError {
    /// The bytes are not UTF-8 text.
    NotText,
    /// The text is not a well-formed table.
    Malformed(ParseError),
}

/// Reads a table from the bytes of a file.
pub fn parse_dataset(bytes: &[u8]) -> (r: Result<Table, DatasetError>)
    ensures
        match r {
            Ok(t) => valid_utf8(bytes@) && csv_ok(decode_utf8(bytes@)) && t@ == csv_table(decode_utf8(bytes@))
                && t.wf(),
            Err(DatasetError::NotText) => !valid_utf8(bytes@),
            Err(DatasetError::Malformed(_)) => valid_utf8(bytes@) && !csv_ok(decode_utf8(bytes@)),
        },
{
    match utf8_text(bytes) {
        None => Err(DatasetError::NotText),
        Some(text) => match parse_csv(text.as_str()) {
            Ok(t) => Ok(t),
            Err(e) => Err(DatasetError::Malformed(e)),
        },
    }
}

/// Why a job could not be processed.
#[derive(PartialEq, Eq, Structural, Clone, Copy, Debug)]
pub enum ProcessError {
    /// No job has that id.
    JobNotFound,
    /// The job's file is not stored.
    FileNotFound,
    /// The job's file is no table.
    Unreadable(DatasetError),
}

/// Runs the computing part of a job: marks it processing, reads its file
/// from `bucket`, parses it and computes its insights. The caller encodes
/// the insights and hands them to `finish_job`.
pub fn start_job<S: S3ServiceTrait>(db: &mut MemoryDatabaseService, store: &S, bucket: &str, job_id: &str, now: u64) -> (r: Result<Insights, ProcessError>)
    requires
        old(db).wf(),
        store.ready(),
    ensures
        final(db).wf(),
        !old(db)@.contains_key(job_id@) ==> r == Err::<Insights, ProcessError>(ProcessError::JobNotFound) && final(db)@ == old(db)@,
        old(db)@.contains_key(job_id@) ==> {
            let job = old(db)@[job_id@];
            let file = object_at(store.objects(), bucket@, job.file_key);
            &&& final(db)@ == old(db)@.insert(job_id@, JobView { status: JobStatus::Processing, updated_at: now, ..job })
            &&& file is None ==> r == Err::<Insights, ProcessError>(ProcessError::FileNotFound)
            &&& forall|b: Seq<u8>| file == Some(b) && !valid_utf8(b) ==> r == Err::<Insights, ProcessError>(
                ProcessError::Unreadable(DatasetError::NotText),
            )
            &&& forall|b: Seq<u8>| file == Some(b) && valid_utf8(b) && !csv_ok(decode_utf8(b)) ==> (r matches Err(
                ProcessError::Unreadable(DatasetError::Malformed(_)),
            ))
            &&& forall|b: Seq<u8>| file == Some(b) && valid_utf8(b) && csv_ok(decode_utf8(b)) ==> (r matches Ok(i) && insights_of(
                csv_table(decode_utf8(b)),
                i,
            ))
        },
{
    match db.update_job_status(job_id, JobStatus::Processing, now) {
        Err(_) => return Err(ProcessError::JobNotFound),
        Ok(()) => {},
    }
    let key = match db.get_job(job_id) {
        None => return Err(ProcessError::JobNotFound),
        Some(job) => job.file_key.clone(),
    };
    let bytes = match store.get_object(bucket, key.as_str()) {
        Err(_) => return Err(ProcessError::FileNotFound),
        Ok(b) => b,
    };
    match parse_dataset(bytes.as_slice()) {
        Err(e) => Err(ProcessError::Unreadable(e)),
        Ok(t) => Ok(generate_insights(&t)),
    }
}

/// Ends a job whose insights were computed: caches their encoding under
/// the job's insights key for one day and marks the job completed.
pub fn finish_job(db: &mut MemoryDatabaseService, cache: &mut MemoryRedisService, job_id: &str, encoded: &str, now: u64) -> (r: Result<(), ProcessError>)
    requires
        old(db).wf(),
        old(cache).wf(),
    ensures
        final(db).wf(),
        final(cache).wf(),
        final(cache)@ == old(cache)@.insert(insights_key(job_id@), (encoded@, expiry_for(now, INSIGHTS_TTL_SECS))),
        old(db)@.contains_key(job_id@) ==> r is Ok && final(db)@ == old(db)@.insert(
            job_id@,
            JobView { status: JobStatus::Completed, updated_at: now, ..old(db)@[job_id@] },
        ),
        !old(db)@.contains_key(job_id@) ==> r == Err::<(), ProcessError>(ProcessError::JobNotFound) && final(db)@ == old(db)@,
{
    cache.cache_insights(job_id, encoded, now);
    match db.update_job_status(job_id, JobStatus::Completed, now) {
        Ok(()) => Ok(()),
        Err(_) => Err(ProcessError::JobNotFound),
    }
}

} // verus!
