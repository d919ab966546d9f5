use vstd::prelude::*;
use crate::text::same_text;

verus! {

/// Where a job is in its lifecycle.
#[derive(PartialEq, Eq, Structural, Clone, Copy, Debug)]
pub enum JobStatus {
    Queued,
    Processing,
    Completed,
    Failed,
}

pub open spec fn status_label(s: JobStatus) -> Seq<char> {
    match s {
        JobStatus::Queued => "queued"@,
        JobStatus::Processing => "processing"@,
        JobStatus::Completed => "completed"@,
        JobStatus::Failed => "failed"@,
    }
}

impl JobStatus {
    /// The lower-case name of the status.
    pub fn to_string(&self) -> (r: String)
        ensures
            r@ == status_label(*self),
    {
        match self {
            JobStatus::Queued => String::from_str("queued"),
            JobStatus::Processing => String::from_str("processing"),
            JobStatus::Completed => String::from_str("completed"),
            JobStatus::Failed => String::from_str("failed"),
        }
    }
}

/// A processing job: who asked for it, which stored file it reads, and its
/// status, with creation and update instants in seconds.
pub struct Job {
    pub id: String,
    pub user_id: String,
    pub file_key: String,
    pub status: JobStatus,
    pub created_at: u64,
    pub updated_at: u64,
}

/// What a new job is made from.
pub struct NewJob {
    pub user_id: String,
    pub file_key: String,
}

pub struct JobView {
    pub user_id: Seq<char>,
    pub file_key: Seq<char>,
    pub status: JobStatus,
    pub created_at: u64,
    pub updated_at: u64,
}

impl Job {
    pub open spec fn view(&self) -> JobView {
        JobView {
            user_id: self.user_id@,
            file_key: self.file_key@,
            status: self.status,
            created_at: self.created_at,
            updated_at: self.updated_at,
        }
    }
}

/// A job that does not exist.
#[derive(PartialEq, Eq, Structural, Clone, Copy, Debug)]
pub enum JobError {
    NotFound,
}

/// The job records, kept in memory.
pub struct MemoryDatabaseService {
    jobs: Vec<Job>,
}

impl MemoryDatabaseService {
    /// The jobs by id.
    pub closed spec fn view(&self) -> Map<Seq<char>, JobView> {
        Map::new(
            |k: Seq<char>| exists|i: int| 0 <= i < self.jobs@.len() && self.jobs@[i].id@ == k,
            |k: Seq<char>| {
                let i = choose|i: int| 0 <= i < self.jobs@.len() && self.jobs@[i].id@ == k;
                self.jobs@[i].view()
            },
        )
    }

    /// No id is used twice.
    pub closed spec fn wf(&self) -> bool {
        forall|i: int, j: int| 0 <= i < j < self.jobs@.len() ==> self.jobs@[i].id@ != self.jobs@[j].id@
    }

    proof fn lemma_view_at(&self, i: int)
        requires
            self.wf(),
            0 <= i < self.jobs@.len(),
        ensures
            self@.contains_key(self.jobs@[i].id@),
            self@[self.jobs@[i].id@] == self.jobs@[i].view(),
    {
        let k = self.jobs@[i].id@;
        assert(exists|i: int| 0 <= i < self.jobs@.len() && self.jobs@[i].id@ == k);
        let j = choose|j: int| 0 <= j < self.jobs@.len() && self.jobs@[j].id@ == k;
        assert(i == j);
    }

    /// No jobs.
    pub fn new() -> (r: Self)
        ensures
            r.wf(),
            r@ == Map::<Seq<char>, JobView>::empty(),
    {
        let r = MemoryDatabaseService { jobs: Vec::new() };
        assert(r@ =~= Map::<Seq<char>, JobView>::empty());
        r
    }

    fn position(&self, id: &str) -> (r: Option<usize>)
        requires
            self.wf(),
        ensures
            match r {
                Some(i) => i < self.jobs@.len() && self.jobs@[i as int].id@ == id@,
                None => !self@.contains_key(id@),
            },
    {
        let mut i: usize = 0;
        while i < self.jobs.len()
            invariant
                i <= self.jobs@.len(),
                forall|j: int| 0 <= j < i ==> self.jobs@[j].id@ != id@,
            decreases self.jobs@.len() - i,
        {
            if same_text(self.jobs[i].id.as_str(), id) {
                return Some(i);
            }
            i = i + 1;
        }
        None
    }

    /// Records a new queued job under `id`, a fresh identifier, at instant `now`.
    pub fn create_job(&mut self, new_job: NewJob, id: String, now: u64) -> (r: String)
        requires
            old(self).wf(),
            !old(self)@.contains_key(id@),
        ensures
            final(self).wf(),
            r@ == id@,
            final(self)@ == old(self)@.insert(
                id@,
                JobView { user_id: new_job.user_id@, file_key: new_job.file_key@, status: JobStatus::Queued, created_at: now, updated_at: now },
            ),
    {
        let r = id.clone();
        let job = Job { id, user_id: new_job.user_id, file_key: new_job.file_key, status: JobStatus::Queued, created_at: now, updated_at: now };
        let ghost before = self.jobs@;
        let ghost jv = job.view();
        assert forall|i: int| 0 <= i < before.len() implies before[i].id@ != r@ by {
            old(self).lemma_view_at(i);
        }
        self.jobs.push(job);
        assert forall|k: Seq<char>| #[trigger] self@.contains_key(k) == old(self)@.insert(r@, jv).contains_key(k) by {
            if old(self)@.contains_key(k) {
                let j = choose|j: int| 0 <= j < before.len() && before[j].id@ == k;
                assert(self.jobs@[j] == before[j]);
            }
            if self@.contains_key(k) && k != r@ {
                let j = choose|j: int| 0 <= j < self.jobs@.len() && self.jobs@[j].id@ == k;
                assert(before[j] == self.jobs@[j]);
            }
            if k == r@ {
                assert(self.jobs@[before.len() as int].id@ == k);
            }
        }
        assert forall|k: Seq<char>| #[trigger] self@.contains_key(k) implies self@[k] == old(self)@.insert(r@, jv)[k] by {
            let j = choose|j: int| 0 <= j < self.jobs@.len() && self.jobs@[j].id@ == k;
            self.lemma_view_at(j);
            if k != r@ {
                old(self).lemma_view_at(j);
            }
        }
        assert(self@ =~= old(self)@.insert(r@, jv));
        r
    }

    /// The job with id `id`, if there is one.
    pub fn get_job(&self, id: &str) -> (r: Option<&Job>)
        requires
            self.wf(),
        ensures
            match r {
                Some(j) => self@.contains_key(id@) && j.view() == self@[id@] && j.id@ == id@,
                None => !self@.contains_key(id@),
            },
    {
        match self.position(id) {
            Some(i) => {
                proof {
                    self.lemma_view_at(i as int);
                }
                Some(&self.jobs[i])
            },
            None => None,
        }
    }

    /// Sets the status of job `id` at instant `now`.
    pub fn update_job_status(&mut self, id: &str, status: JobStatus, now: u64) -> (r: Result<(), JobError>)
        requires
            old(self).wf(),
        ensures
            final(self).wf(),
            old(self)@.contains_key(id@) ==> r is Ok && final(self)@ == old(self)@.insert(
                id@,
                JobView { status, updated_at: now, ..old(self)@[id@] },
            ),
            !old(self)@.contains_key(id@) ==> r == Err::<(), JobError>(JobError::NotFound) && final(self)@ == old(self)@,
    {
        match self.position(id) {
            Some(i) => {
                proof {
                    old(self).lemma_view_at(i as int);
                }
                let ghost before = self.jobs@;
                let old_job = &self.jobs[i];
                let job = Job {
                    id: old_job.id.clone(),
                    user_id: old_job.user_id.clone(),
                    file_key: old_job.file_key.clone(),
                    status,
                    created_at: old_job.created_at,
                    updated_at: now,
                };
                let ghost jv = job.view();
                self.jobs.set(i, job);
                assert forall|k: Seq<char>| #[trigger] self@.contains_key(k) == old(self)@.insert(id@, jv).contains_key(k) by {
                    if old(self)@.contains_key(k) {
                        let j = choose|j: int| 0 <= j < before.len() && before[j].id@ == k;
                        if j != i {
                            assert(self.jobs@[j] == before[j]);
                        } else {
                            assert(self.jobs@[j].id@ == k);
                        }
                    }
                    if self@.contains_key(k) && k != id@ {
                        let j = choose|j: int| 0 <= j < self.jobs@.len() && self.jobs@[j].id@ == k;
                        assert(before[j] == self.jobs@[j]);
                    }
                    if k == id@ {
                        assert(self.jobs@[i as int].id@ == k);
                    }
                }
                assert forall|k: Seq<char>| #[trigger] self@.contains_key(k) implies self@[k] == old(self)@.insert(id@, jv)[k] by {
                    let j = choose|j: int| 0 <= j < self.jobs@.len() && self.jobs@[j].id@ == k;
                    self.lemma_view_at(j);
                    if k != id@ {
                        old(self).lemma_view_at(j);
                    }
                }
                assert(self@ =~= old(self)@.insert(id@, jv));
                Ok(())
            },
            None => Err(JobError::NotFound),
        }
    }
}

} // verus!
