//! Walking a directory tree without touching it: a worklist that says which
//! directory to list or which file to read next, and takes in what the caller
//! found there.
//!
//! The caller lists and reads. On a failure it stops: a scan that cannot be
//! completed yields nothing.

use crate::digest::{hash_file, hashable_len, sha256};
use crate::grouping::{index_of, lemma_index_of_nothing, lemma_index_of_push, order_of, FileSeen};
use crate::record::{recorded, DuplicateIndex};
use std::path::PathBuf;
use vstd::prelude::*;

verus! {

/// What a directory entry is, as far as a scan cares.
#[derive(Debug, Clone, Copy, PartialEq, Eq, Structural)]
pub enum EntryKind {
    /// A directory: it is listed in its turn.
    Directory,
    /// A regular file: it is read and recorded.
    File,
    /// Anything else: it is passed over.
    Other,
}

/// What the caller of a scan is to do next.
#[derive(Debug, PartialEq, Eq)]
pub enum Step {
    /// List this directory and hand its entries to `directory_listed`.
    ListDirectory(PathBuf),
    /// Read this file and hand its bytes to `file_read`.
    ReadFile(PathBuf),
    /// Nothing is left to visit.
    Finished,
}

/// An entry that waits for its visit.
#[derive(Debug)]
pub enum Visit {
    /// A directory to list.
    Directory(PathBuf),
    /// A regular file to read.
    File(PathBuf),
}

/// A scan in progress: the entries still to visit, the index of the files
/// read so far, and the files read so far in the order of the visit.
pub struct Scan {
    pending: Vec<Visit>,
    index: DuplicateIndex,
    visited: Ghost<Seq<FileSeen>>,
}

/// The visits that a listing asks for, in its order: one for each directory
/// and each regular file, none for anything else.
pub open spec fn to_visit(entries: Seq<(PathBuf, EntryKind)>) -> Seq<Visit>
    decreases entries.len(),
{
    if entries.len() == 0 {
        Seq::empty()
    } else {
        let before = to_visit(entries.drop_last());
        match entries.last().1 {
            EntryKind::Directory => before.push(Visit::Directory(entries.last().0)),
            EntryKind::File => before.push(Visit::File(entries.last().0)),
            EntryKind::Other => before,
        }
    }
}

/// What a visit asks of the caller.
pub open spec fn step_for(visit: Visit) -> Step {
    match visit {
        Visit::Directory(path) => Step::ListDirectory(path),
        Visit::File(path) => Step::ReadFile(path),
    }
}

/// The visits of two listings, one after the other, are the visits of the
/// listings joined.
pub proof fn lemma_to_visit_add(a: Seq<(PathBuf, EntryKind)>, b: Seq<(PathBuf, EntryKind)>)
    ensures
        to_visit(a + b) == to_visit(a) + to_visit(b),
    decreases b.len(),
{
    if b.len() == 0 {
        assert(a + b =~= a);
        assert(to_visit(a) + to_visit(b) =~= to_visit(a));
    } else {
        assert((a + b).drop_last() =~= a + b.drop_last());
        assert((a + b).last() == b.last());
        lemma_to_visit_add(a, b.drop_last());
        assert(to_visit(a + b) =~= to_visit(a) + to_visit(b));
    }
}

/// `v` back to front.
pub fn reversed<T>(v: Vec<T>) -> (out: Vec<T>)
    ensures
        out@ == v@.reverse(),
{
    let ghost given = v@;
    let mut v = v;
    let mut out: Vec<T> = Vec::new();
    assert(v@ =~= given.take(given.len() as int));
    loop
        invariant
            v@.len() <= given.len(),
            v@ == given.take(v@.len() as int),
            out@ == given.reverse().take(given.len() - v@.len()),
        ensures
            out@ == given.reverse(),
        decreases v@.len(),
    {
        let ghost left = v@.len();
        match v.pop() {
            None => {
                assert(given.reverse().take(given.len() as int) =~= given.reverse());
                break ;
            },
            Some(item) => {
                out.push(item);
                proof {
                    assert(item == given[left - 1]);
                    assert(given.reverse()[given.len() - left] == item);
                    assert(v@ =~= given.take(left - 1));
                    assert(out@ =~= given.reverse().take(given.len() - left + 1));
                }
            },
        }
    }
    out
}

impl Scan {
    /// The entries still to visit. The last is visited first.
    pub closed spec fn pending(&self) -> Seq<Visit> {
        self.pending@
    }

    /// The files read so far, in the order of the visit.
    pub closed spec fn visited(&self) -> Seq<FileSeen> {
        self.visited@
    }

    /// The index of the files read so far.
    pub closed spec fn found(&self) -> DuplicateIndex {
        self.index
    }

    /// The index is the index of the files read so far.
    pub closed spec fn wf(&self) -> bool {
        &&& self.index.wf()
        &&& self.index@ == index_of(self.visited@)
        &&& self.index.order() == order_of(self.visited@)
    }

    /// What `wf` says, for those who cannot look inside.
    pub proof fn lemma_wf(&self)
        requires
            self.wf(),
        ensures
            self.found().wf(),
            self.found()@ == index_of(self.visited()),
            self.found().order() == order_of(self.visited()),
    {
    }

    /// Begins the scan of the tree under the directory `path`: the directory
    /// itself is the one entry to visit.
    pub fn new(path: PathBuf) -> (out: Scan)
        ensures
            out.wf(),
            out.pending() == seq![Visit::Directory(path)],
            out.visited() == Seq::<FileSeen>::empty(),
            out.found()@ == Map::<Seq<u8>, crate::record::FileRecord>::empty(),
            out.found().order() == Seq::<Seq<u8>>::empty(),
    {
        let mut pending: Vec<Visit> = Vec::new();
        pending.push(Visit::Directory(path));
        proof {
            lemma_index_of_nothing();
            assert(pending@ =~= seq![Visit::Directory(path)]);
        }
        Scan { pending, index: DuplicateIndex::new(), visited: Ghost(Seq::empty()) }
    }

    /// Takes the next entry to visit off the worklist and says what the
    /// visit asks for.
    pub fn next_step(&mut self) -> (out: Step)
        ensures
            old(self).pending().len() == 0 ==> out == Step::Finished && final(self).pending()
                == old(self).pending(),
            old(self).pending().len() > 0 ==> out == step_for(old(self).pending().last())
                && final(self).pending() == old(self).pending().drop_last(),
            final(self).visited() == old(self).visited(),
            final(self).found() == old(self).found(),
            old(self).wf() ==> final(self).wf(),
    {
        let ghost before = self.pending@;
        match self.pending.pop() {
            None => Step::Finished,
            Some(visit) => {
                assert(self.pending@ =~= before.drop_last());
                match visit {
                    Visit::Directory(path) => Step::ListDirectory(path),
                    Visit::File(path) => Step::ReadFile(path),
                }
            },
        }
    }

    /// Takes in the entries of the directory listed last. Its directories
    /// and regular files are visited before anything that was pending, in
    /// the order of the listing, and each directory among them with all that
    /// is under it before the entry after it. Its other entries are passed
    /// over.
    pub fn directory_listed(&mut self, entries: Vec<(PathBuf, EntryKind)>)
        ensures
            final(self).pending() == old(self).pending() + to_visit(entries@).reverse(),
            final(self).visited() == old(self).visited(),
            final(self).found() == old(self).found(),
            old(self).wf() ==> final(self).wf(),
    {
        let ghost listed = entries@;
        let ghost start = self.pending@;
        let mut entries = entries;
        proof {
            assert(entries@ =~= listed.take(listed.len() as int));
            assert(listed.skip(listed.len() as int) =~= Seq::<(PathBuf, EntryKind)>::empty());
            assert(self.pending@ =~= start + to_visit(listed.skip(listed.len() as int)).reverse());
        }
        loop
            invariant
                start == old(self).pending@,
                entries@.len() <= listed.len(),
                entries@ == listed.take(entries@.len() as int),
                self.pending@ == start + to_visit(listed.skip(entries@.len() as int)).reverse(),
                self.index == old(self).index,
                self.visited == old(self).visited,
            ensures
                start == old(self).pending@,
                self.pending@ == start + to_visit(listed).reverse(),
                self.index == old(self).index,
                self.visited == old(self).visited,
            decreases entries@.len(),
        {
            let ghost left = entries@.len() as int;
            match entries.pop() {
                None => {
                    assert(listed.skip(0) =~= listed);
                    break ;
                },
                Some(entry) => {
                    proof {
                        assert(entry == listed[left - 1]);
                        assert(entries@ =~= listed.take(left - 1));
                        assert(listed.skip(left - 1) =~= seq![entry] + listed.skip(left));
                        lemma_to_visit_add(seq![entry], listed.skip(left));
                        assert(seq![entry].drop_last() =~= Seq::<(PathBuf, EntryKind)>::empty());
                        assert(to_visit(seq![entry].drop_last()) =~= Seq::<Visit>::empty());
                    }
                    let ghost rest = to_visit(listed.skip(left));
                    match entry.1 {
                        EntryKind::Directory => {
                            self.pending.push(Visit::Directory(entry.0));
                            assert(to_visit(listed.skip(left - 1)) =~= seq![
                                Visit::Directory(entry.0),
                            ] + rest);
                            assert((seq![Visit::Directory(entry.0)] + rest).reverse()
                                =~= rest.reverse().push(Visit::Directory(entry.0)));
                        },
                        EntryKind::File => {
                            self.pending.push(Visit::File(entry.0));
                            assert(to_visit(listed.skip(left - 1)) =~= seq![Visit::File(entry.0)]
                                + rest);
                            assert((seq![Visit::File(entry.0)] + rest).reverse()
                                =~= rest.reverse().push(Visit::File(entry.0)));
                        },
                        EntryKind::Other => {
                            assert(to_visit(listed.skip(left - 1)) =~= rest);
                        },
                    }
                },
            }
        }
    }

    /// Takes in the bytes of the file at `path`: the file is recorded under
    /// the digest of its bytes, with their number as its size.
    pub fn file_read(&mut self, path: PathBuf, data: &[u8])
        requires
            old(self).wf(),
            hashable_len(data@.len()),
        ensures
            final(self).wf(),
            final(self).pending() == old(self).pending(),
            final(self).visited() == old(self).visited().push(
                FileSeen { path: path, content: data@ },
            ),
            final(self).found()@ == recorded(
                old(self).found()@,
                sha256(data@),
                path,
                data@.len(),
            ),
    {
        let (hash, size) = hash_file(data);
        proof {
            lemma_index_of_push(self.visited@, FileSeen { path: path, content: data@ });
        }
        self.index.record(hash, path, size);
        self.visited = Ghost(self.visited@.push(FileSeen { path: path, content: data@ }));
    }

    /// The index of the files read so far.
    pub fn index(&self) -> (out: &DuplicateIndex)
        ensures
            *out == self.found(),
    {
        &self.index
    }

    /// Ends the scan and hands out the index of the files read.
    pub fn into_index(self) -> (out: DuplicateIndex)
        ensures
            out == self.found(),
    {
        self.index
    }
}

} // verus!
