use vstd::prelude::*;
use crate::table::names_view;
use crate::text::{join2, same_text};

verus! {

/// An object that is not stored.
#[derive(PartialEq, Eq, Structural, Clone, Copy, Debug)]
pub enum StorageError {
    NotFound,
}

/// Uploaded files, kept in memory by key.
pub struct MemoryS3Service {
    objects: Vec<(String, Vec<u8>)>,
    storage_dir: String,
}

impl MemoryS3Service {
    /// The stored objects by key.
    pub closed spec fn view(&self) -> Map<Seq<char>, Seq<u8>> {
        Map::new(
            |k: Seq<char>| exists|i: int| 0 <= i < self.objects@.len() && self.objects@[i].0@ == k,
            |k: Seq<char>| {
                let i = choose|i: int| 0 <= i < self.objects@.len() && self.objects@[i].0@ == k;
                self.objects@[i].1@
            },
        )
    }

    /// The directory that copies on disk go to.
    pub closed spec fn dir(&self) -> Seq<char> {
        self.storage_dir@
    }

    /// No key is stored twice.
    pub closed spec fn wf(&self) -> bool {
        forall|i: int, j: int| 0 <= i < j < self.objects@.len() ==> self.objects@[i].0@ != self.objects@[j].0@
    }

    proof fn lemma_view_at(&self, i: int)
        requires
            self.wf(),
            0 <= i < self.objects@.len(),
        ensures
            self@.contains_key(self.objects@[i].0@),
            self@[self.objects@[i].0@] == self.objects@[i].1@,
    {
        let k = self.objects@[i].0@;
        assert(exists|i: int| 0 <= i < self.objects@.len() && self.objects@[i].0@ == k);
        let j = choose|j: int| 0 <= j < self.objects@.len() && self.objects@[j].0@ == k;
        assert(i == j);
    }

    /// An empty store whose disk copies go under `./storage`.
    pub fn new() -> (r: Self)
        ensures
            r.wf(),
            r@ == Map::<Seq<char>, Seq<u8>>::empty(),
            r.dir() == "./storage"@,
    {
        let r = MemoryS3Service { objects: Vec::new(), storage_dir: String::from_str("./storage") };
        assert(r@ =~= Map::<Seq<char>, Seq<u8>>::empty());
        r
    }

    fn position(&self, key: &str) -> (r: Option<usize>)
        requires
            self.wf(),
        ensures
            match r {
                Some(i) => i < self.objects@.len() && self.objects@[i as int].0@ == key@,
                None => !self@.contains_key(key@),
            },
    {
        let mut i: usize = 0;
        while i < self.objects.len()
            invariant
                i <= self.objects@.len(),
                forall|j: int| 0 <= j < i ==> self.objects@[j].0@ != key@,
            decreases self.objects@.len() - i,
        {
            if same_text(self.objects[i].0.as_str(), key) {
                return Some(i);
            }
            i = i + 1;
        }
        None
    }

    /// Stores `data` under `key`, replacing what the key held.
    pub fn upload_file(&mut self, key: &str, data: Vec<u8>)
        requires
            old(self).wf(),
        ensures
            final(self).wf(),
            final(self)@ == old(self)@.insert(key@, data@),
            final(self).dir() == old(self).dir(),
    {
        let ghost dv = data@;
        let entry = (String::from_str(key), data);
        let ghost before = self.objects@;
        match self.position(key) {
            Some(i) => {
                self.objects.set(i, entry);
                assert forall|k: Seq<char>| #[trigger] self@.contains_key(k) == old(self)@.insert(key@, dv).contains_key(k) by {
                    if old(self)@.contains_key(k) && k != key@ {
                        let j = choose|j: int| 0 <= j < before.len() && before[j].0@ == k;
                        assert(self.objects@[j] == before[j]);
                    }
                    if self@.contains_key(k) && k != key@ {
                        let j = choose|j: int| 0 <= j < self.objects@.len() && self.objects@[j].0@ == k;
                        assert(before[j] == self.objects@[j]);
                    }
                    if k == key@ {
                        assert(self.objects@[i as int].0@ == k);
                    }
                }
                assert forall|k: Seq<char>| #[trigger] self@.contains_key(k) implies self@[k] == old(self)@.insert(key@, dv)[k] by {
                    let j = choose|j: int| 0 <= j < self.objects@.len() && self.objects@[j].0@ == k;
                    self.lemma_view_at(j);
                    if k != key@ {
                        old(self).lemma_view_at(j);
                    }
                }
            },
            None => {
                self.objects.push(entry);
                assert forall|k: Seq<char>| #[trigger] self@.contains_key(k) == old(self)@.insert(key@, dv).contains_key(k) by {
                    if old(self)@.contains_key(k) {
                        let j = choose|j: int| 0 <= j < before.len() && before[j].0@ == k;
                        assert(self.objects@[j] == before[j]);
                    }
                    if self@.contains_key(k) && k != key@ {
                        let j = choose|j: int| 0 <= j < self.objects@.len() && self.objects@[j].0@ == k;
                        assert(j < before.len());
                        assert(before[j] == self.objects@[j]);
                    }
                    if k == key@ {
                        assert(self.objects@[before.len() as int].0@ == k);
                    }
                }
                assert forall|k: Seq<char>| #[trigger] self@.contains_key(k) implies self@[k] == old(self)@.insert(key@, dv)[k] by {
                    let j = choose|j: int| 0 <= j < self.objects@.len() && self.objects@[j].0@ == k;
                    self.lemma_view_at(j);
                    if k != key@ {
                        assert(j < before.len());
                        old(self).lemma_view_at(j);
                    }
                }
            },
        }
        assert(self@ =~= old(self)@.insert(key@, dv));
    }

    /// The object under `bucket/key`, or else under `key`.
    pub fn get_object(&self, bucket: &str, key: &str) -> (r: Result<Vec<u8>, StorageError>)
        requires
            self.wf(),
        ensures
            match r {
                Ok(d) => object_at(self@, bucket@, key@) == Some(d@),
                Err(_) => object_at(self@, bucket@, key@) is None,
            },
    {
        let with_slash = join2(bucket, "/");
        let full = join2(with_slash.as_str(), key);
        proof {
            reveal_strlit("/");
        }
        assert(full@ == full_key(bucket@, key@));
        match self.position(full.as_str()) {
            Some(i) => {
                proof {
                    self.lemma_view_at(i as int);
                }
                Ok(self.objects[i].1.clone())
            },
            None => match self.position(key) {
                Some(i) => {
                    proof {
                        self.lemma_view_at(i as int);
                    }
                    Ok(self.objects[i].1.clone())
                },
                None => Err(StorageError::NotFound),
            },
        }
    }

    /// The object under `default-bucket/key`, or else under `key`.
    pub fn download_file(&self, key: &str) -> (r: Result<Vec<u8>, StorageError>)
        requires
            self.wf(),
        ensures
            match r {
                Ok(d) => object_at(self@, "default-bucket"@, key@) == Some(d@),
                Err(_) => object_at(self@, "default-bucket"@, key@) is None,
            },
    {
        self.get_object("default-bucket", key)
    }

    /// Where the disk copy of `key` goes.
    pub fn get_file_path(&self, key: &str) -> (r: String)
        ensures
            r@ == self.dir() + "/"@ + key@,
    {
        let d = join2(self.storage_dir.as_str(), "/");
        join2(d.as_str(), key)
    }

    /// The keys of the stored objects, each once.
    pub fn list_files(&self) -> (r: Vec<String>)
        requires
            self.wf(),
        ensures
            names_view(r@).to_set() == self@.dom(),
            names_view(r@).len() == self@.dom().len(),
    {
        let mut r: Vec<String> = Vec::new();
        let mut i: usize = 0;
        while i < self.objects.len()
            invariant
                self.wf(),
                i <= self.objects@.len(),
                names_view(r@) == self.objects@.subrange(0, i as int).map_values(|e: (String, Vec<u8>)| e.0@),
            decreases self.objects@.len() - i,
        {
            let k = self.objects[i].0.clone();
            let ghost prev = r@;
            r.push(k);
            assert(names_view(r@) =~= names_view(prev).push(k@));
            assert(self.objects@.subrange(0, i + 1).map_values(|e: (String, Vec<u8>)| e.0@) =~= self.objects@.subrange(0, i as int).map_values(|e: (String, Vec<u8>)| e.0@).push(k@));
            i = i + 1;
        }
        let ghost keys = names_view(r@);
        assert(keys =~= self.objects@.map_values(|e: (String, Vec<u8>)| e.0@));
        assert(keys.to_set() =~= self@.dom()) by {
            assert forall|k: Seq<char>| #[trigger] keys.to_set().contains(k) == self@.dom().contains(k) by {
                if keys.contains(k) {
                    let j = choose|j: int| 0 <= j < keys.len() && keys[j] == k;
                    assert(self.objects@[j].0@ == k);
                }
                if self@.dom().contains(k) {
                    let j = choose|j: int| 0 <= j < self.objects@.len() && self.objects@[j].0@ == k;
                    assert(keys[j] == k);
                }
            }
        }
        proof {
            assert forall|a: int, b: int| 0 <= a < keys.len() && 0 <= b < keys.len() && a != b implies keys[a] != keys[b] by {
                if a < b {
                    assert(self.objects@[a].0@ != self.objects@[b].0@);
                } else {
                    assert(self.objects@[b].0@ != self.objects@[a].0@);
                }
            }
            keys.unique_seq_to_set();
        }
        r
    }
}

/// `bucket/key`.
pub open spec fn full_key(bucket: Seq<char>, key: Seq<char>) -> Seq<char> {
    bucket + "/"@ + key
}

/// What a read of `key` in `bucket` finds: the object under `bucket/key`,
/// else the one under `key`.
pub open spec fn object_at(objects: Map<Seq<char>, Seq<u8>>, bucket: Seq<char>, key: Seq<char>) -> Option<Seq<u8>> {
    if objects.contains_key(full_key(bucket, key)) {
        Some(objects[full_key(bucket, key)])
    } else if objects.contains_key(key) {
        Some(objects[key])
    } else {
        None
    }
}


/// A store of uploaded files: memory, or a remote object store.
pub trait S3ServiceTrait {
    /// The stored objects by key.
    spec fn objects(&self) -> Map<Seq<char>, Seq<u8>>;

    /// The store's own invariant.
    spec fn ready(&self) -> bool;

    /// Stores `data` under `key`, replacing what the key held.
    fn upload_file(&mut self, key: &str, data: Vec<u8>)
        requires
            old(self).ready(),
        ensures
            final(self).ready(),
            final(self).objects() == old(self).objects().insert(key@, data@),
    ;

    /// The object under `default-bucket/key`, or else under `key`.
    fn download_file(&self, key: &str) -> (r: Result<Vec<u8>, StorageError>)
        requires
            self.ready(),
        ensures
            match r {
                Ok(d) => object_at(self.objects(), "default-bucket"@, key@) == Some(d@),
                Err(_) => object_at(self.objects(), "default-bucket"@, key@) is None,
            },
    ;

    /// The object under `bucket/key`, or else under `key`.
    fn get_object(&self, bucket: &str, key: &str) -> (r: Result<Vec<u8>, StorageError>)
        requires
            self.ready(),
        ensures
            match r {
                Ok(d) => object_at(self.objects(), bucket@, key@) == Some(d@),
                Err(_) => object_at(self.objects(), bucket@, key@) is None,
            },
    ;
}

impl S3ServiceTrait for MemoryS3Service {
    open spec fn objects(&self) -> Map<Seq<char>, Seq<u8>> {
        self@
    }

    open spec fn ready(&self) -> bool {
        self.wf()
    }

    fn upload_file(&mut self, key: &str, data: Vec<u8>) {
        MemoryS3Service::upload_file(self, key, data)
    }

    fn download_file(&self, key: &str) -> (r: Result<Vec<u8>, StorageError>) {
        MemoryS3Service::download_file(self, key)
    }

    fn get_object(&self, bucket: &str, key: &str) -> (r: Result<Vec<u8>, StorageError>) {
        MemoryS3Service::get_object(self, bucket, key)
    }
}

} // verus!
