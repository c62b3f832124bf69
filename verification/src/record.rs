//! File records and the index that groups paths by content digest.

use std::path::PathBuf;
use vstd::prelude::*;

verus! {

/// `std::path::PathBuf`, carried through as an opaque value: nothing here
/// looks inside a path.
#[verifier::external_type_specification]
#[verifier::external_body]
pub struct ExPathBuf(PathBuf);

/// `PathBuf::clone`: the copy is the same path.
pub assume_specification[ <PathBuf as Clone>::clone ](path: &PathBuf) -> (out: PathBuf)
    ensures
        out == *path,
;

/// What is known of one digest: the paths found with it, in the order in
/// which they were found, and the size of the content in bytes.
pub struct FileRecord {
    pub paths: Seq<PathBuf>,
    pub size: nat,
}

/// The paths that share one digest, and the size they share.
#[derive(Debug)]
pub struct FileInfo {
    paths: Vec<PathBuf>,
    size: usize,
}

impl View for FileInfo {
    type V = FileRecord;

    closed spec fn view(&self) -> FileRecord {
        FileRecord { paths: self.paths@, size: self.size as nat }
    }
}

impl FileInfo {
    /// The record of a digest met for the first time.
    pub fn new(path: PathBuf, size: usize) -> (out: FileInfo)
        ensures
            out@ == (FileRecord { paths: seq![path], size: size as nat }),
    {
        let mut paths: Vec<PathBuf> = Vec::new();
        paths.push(path);
        assert(paths@ =~= seq![path]);
        FileInfo { paths, size }
    }

    /// Adds a path whose content has this record's digest. The size stays.
    pub fn add_path(&mut self, path: PathBuf)
        ensures
            final(self)@ == (FileRecord { paths: old(self)@.paths.push(path), size: old(self)@.size }),
    {
        self.paths.push(path);
    }

    /// The paths, first found first.
    pub fn paths(&self) -> (out: &Vec<PathBuf>)
        ensures
            out@ == self@.paths,
    {
        &self.paths
    }

    /// The size in bytes of the content that the paths share.
    pub fn size(&self) -> (out: usize)
        ensures
            out == self@.size,
    {
        self.size
    }
}

/// The index adds a file: a new record where the digest is new, one more path
/// in the digest's record where it is not. The size of a record is the size
/// of the first file that was found with its digest.
pub open spec fn recorded(
    index: Map<Seq<u8>, FileRecord>,
    digest: Seq<u8>,
    path: PathBuf,
    size: nat,
) -> Map<Seq<u8>, FileRecord> {
    if index.contains_key(digest) {
        index.insert(
            digest,
            FileRecord { paths: index[digest].paths.push(path), size: index[digest].size },
        )
    } else {
        index.insert(digest, FileRecord { paths: seq![path], size })
    }
}

/// Whether the record of a digest holds more than one path.
pub open spec fn holds_duplicates(index: Map<Seq<u8>, FileRecord>) -> spec_fn(Seq<u8>) -> bool {
    |digest: Seq<u8>| index[digest].paths.len() > 1
}

/// The digests of the records that hold more than one path, in the order of
/// `order`.
pub open spec fn duplicate_digests(
    order: Seq<Seq<u8>>,
    index: Map<Seq<u8>, FileRecord>,
) -> Seq<Seq<u8>> {
    order.filter(holds_duplicates(index))
}

/// A mapping from digest to file record, built one file at a time.
///
/// Its view is the mapping. Beside it the index remembers the order in which
/// the digests were first met.
#[derive(Debug)]
pub struct DuplicateIndex {
    entries: Vec<(crate::digest::Hash, FileInfo)>,
}

impl View for DuplicateIndex {
    type V = Map<Seq<u8>, FileRecord>;

    closed spec fn view(&self) -> Map<Seq<u8>, FileRecord> {
        Map::new(
            |digest: Seq<u8>| self.order().contains(digest),
            |digest: Seq<u8>| self.entries@[self.order().index_of(digest)].1@,
        )
    }
}

impl DuplicateIndex {
    /// No digest has two records.
    pub closed spec fn wf(&self) -> bool {
        self.order().no_duplicates()
    }

    /// The digests of the index, in the order in which they were first met.
    pub closed spec fn order(&self) -> Seq<Seq<u8>> {
        Seq::new(self.entries@.len(), |i: int| self.entries@[i].0@)
    }

    /// The order lists each digest of the mapping once.
    pub proof fn lemma_order(&self)
        requires
            self.wf(),
        ensures
            self.order().no_duplicates(),
            forall|digest: Seq<u8>| self@.contains_key(digest) <==> self.order().contains(digest),
            self@.dom().finite(),
            self@.dom().len() == self.order().len(),
    {
        assert(self@.dom() =~= self.order().to_set());
        self.order().unique_seq_to_set();
    }

    proof fn lemma_entry(&self, i: int)
        requires
            self.wf(),
            0 <= i < self.entries@.len(),
        ensures
            self@.contains_key(self.entries@[i].0@),
            self@[self.entries@[i].0@] == self.entries@[i].1@,
            self.order()[i] == self.entries@[i].0@,
    {
        let digest = self.entries@[i].0@;
        assert(self.order()[i] == digest);
        assert(self.order().contains(digest));
        let found = self.order().index_of(digest);
        assert(0 <= found < self.order().len() && self.order()[found] == digest);
    }

    /// An index without records.
    pub fn new() -> (out: DuplicateIndex)
        ensures
            out.wf(),
            out@ == Map::<Seq<u8>, FileRecord>::empty(),
            out.order() == Seq::<Seq<u8>>::empty(),
    {
        let out = DuplicateIndex { entries: Vec::new() };
        assert(out.order() =~= Seq::<Seq<u8>>::empty());
        assert(out@ =~= Map::<Seq<u8>, FileRecord>::empty());
        out
    }

    /// The number of records.
    pub fn len(&self) -> (out: usize)
        requires
            self.wf(),
        ensures
            out == self.order().len(),
            out == self@.dom().len(),
    {
        proof {
            self.lemma_order();
        }
        self.entries.len()
    }

    fn position(&self, hash: &crate::digest::Hash) -> (out: Option<usize>)
        ensures
            match out {
                Some(i) => i < self.entries@.len() && self.entries@[i as int].0@ == hash@,
                None => !self.order().contains(hash@),
            },
    {
        let mut i: usize = 0;
        while i < self.entries.len()
            invariant
                i <= self.entries@.len(),
                forall|k: int| 0 <= k < i ==> self.entries@[k].0@ != hash@,
            decreases self.entries@.len() - i,
        {
            if self.entries[i].0 == *hash {
                return Some(i);
            }
            i += 1;
        }
        None
    }

    /// The record of a digest, if the index has one.
    pub fn get(&self, hash: &crate::digest::Hash) -> (out: Option<&FileInfo>)
        requires
            self.wf(),
        ensures
            match out {
                Some(info) => self@.contains_key(hash@) && info@ == self@[hash@],
                None => !self@.contains_key(hash@),
            },
    {
        match self.position(hash) {
            Some(i) => {
                proof {
                    self.lemma_entry(i as int);
                }
                Some(&self.entries[i].1)
            },
            None => None,
        }
    }

    /// Whether the index has a record for a digest.
    pub fn contains_key(&self, hash: &crate::digest::Hash) -> (out: bool)
        requires
            self.wf(),
        ensures
            out == self@.contains_key(hash@),
    {
        self.get(hash).is_some()
    }

    /// The `i`-th record in the order of first discovery.
    pub fn entry(&self, i: usize) -> (out: (crate::digest::Hash, &FileInfo))
        requires
            self.wf(),
            i < self.order().len(),
        ensures
            out.0@ == self.order()[i as int],
            self@.contains_key(out.0@),
            out.1@ == self@[out.0@],
    {
        proof {
            self.lemma_entry(i as int);
        }
        (self.entries[i].0, &self.entries[i].1)
    }

    /// Adds one file: its digest, its path and its size.
    ///
    /// A digest that the index does not have gets a new record, last in the
    /// order. One that it has gets the path added to its record, whose size
    /// is not looked at again.
    pub fn record(&mut self, hash: crate::digest::Hash, path: PathBuf, size: usize)
        requires
            old(self).wf(),
        ensures
            final(self).wf(),
            final(self)@ == recorded(old(self)@, hash@, path, size as nat),
            final(self).order() == (if old(self)@.contains_key(hash@) {
                old(self).order()
            } else {
                old(self).order().push(hash@)
            }),
    {
        let ghost before = *self;
        match self.position(&hash) {
            Some(i) => {
                self.entries[i].1.add_path(path);
                proof {
                    assert(self.order() =~= before.order());
                    before.lemma_entry(i as int);
                    assert forall|digest: Seq<u8>| #[trigger]
                        self.order().contains(digest) implies self@[digest] == recorded(
                        before@,
                        hash@,
                        path,
                        size as nat,
                    )[digest] by {
                        let k = self.order().index_of(digest);
                        before.lemma_entry(k);
                    }
                    assert(self@ =~= recorded(before@, hash@, path, size as nat));
                }
            },
            None => {
                self.entries.push((hash, FileInfo::new(path, size)));
                proof {
                    assert(self.order() =~= before.order().push(hash@));
                    assert forall|digest: Seq<u8>| #[trigger]
                        self.order().contains(digest) implies self@[digest] == recorded(
                        before@,
                        hash@,
                        path,
                        size as nat,
                    )[digest] by {
                        let k = self.order().index_of(digest);
                        if k < before.entries@.len() {
                            before.lemma_entry(k);
                        }
                    }
                    assert forall|digest: Seq<u8>|
                        self.order().contains(digest) <==> (digest == hash@
                            || before.order().contains(digest)) by {
                        if before.order().contains(digest) {
                            let k = before.order().index_of(digest);
                            assert(self.order()[k] == digest);
                        }
                        if digest == hash@ {
                            assert(self.order()[before.entries@.len() as int] == digest);
                        }
                        if self.order().contains(digest) {
                            let k = self.order().index_of(digest);
                            if k < before.entries@.len() {
                                assert(before.order()[k] == digest);
                            }
                        }
                    }
                    assert(self@ =~= recorded(before@, hash@, path, size as nat));
                }
            },
        }
    }

    /// Hands out the records, each with its digest, in the order of first
    /// discovery.
    pub fn into_entries(self) -> (out: Vec<(crate::digest::Hash, FileInfo)>)
        requires
            self.wf(),
        ensures
            out@.len() == self.order().len(),
            forall|i: int|
                0 <= i < out@.len() ==> {
                    &&& (#[trigger] out@[i]).0@ == self.order()[i]
                    &&& self@.contains_key(self.order()[i])
                    &&& out@[i].1@ == self@[self.order()[i]]
                },
    {
        proof {
            assert forall|i: int| 0 <= i < self.entries@.len() implies {
                &&& (#[trigger] self.entries@[i]).0@ == self.order()[i]
                &&& self@.contains_key(self.order()[i])
                &&& self.entries@[i].1@ == self@[self.order()[i]]
            } by {
                self.lemma_entry(i);
            }
        }
        self.entries
    }
}

} // verus!
