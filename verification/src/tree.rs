//! A directory tree held in memory, and the scan of one from end to end.

use crate::digest::hashable_len;
use crate::grouping::{index_of, order_of, FileSeen};
use crate::record::DuplicateIndex;
use crate::scan::{lemma_to_visit_add, to_visit, EntryKind, Scan, Step, Visit};
use std::path::PathBuf;
use vstd::prelude::*;

verus! {

/// What a path leads to.
#[derive(Debug)]
pub enum Node {
    /// A directory with its entries, each under its own path, in the order
    /// in which the directory lists them.
    Directory(Vec<(PathBuf, Node)>),
    /// A regular file with its bytes.
    File(Vec<u8>),
    /// Anything else: a link, a socket, a device.
    Other,
}

impl Node {
    /// How a listing shows this node.
    pub open spec fn kind(self) -> EntryKind {
        match self {
            Node::Directory(_) => EntryKind::Directory,
            Node::File(_) => EntryKind::File,
            Node::Other => EntryKind::Other,
        }
    }
}

/// The listing of a directory with these entries.
pub open spec fn listing(entries: Seq<(PathBuf, Node)>) -> Seq<(PathBuf, EntryKind)> {
    Seq::new(entries.len(), |i: int| (entries[i].0, entries[i].1.kind()))
}

/// The regular files in and below a directory with these entries: entry by
/// entry in the order of the listing, with all that is below a directory
/// in the place of the directory.
pub open spec fn files_in(entries: Seq<(PathBuf, Node)>) -> Seq<FileSeen>
    decreases entries,
{
    if entries.len() == 0 {
        Seq::empty()
    } else {
        files_in(entries.drop_last()) + files_under(entries.last().0, entries.last().1)
    }
}

/// The regular files at and below `path`.
pub open spec fn files_under(path: PathBuf, node: Node) -> Seq<FileSeen>
    decreases node,
{
    match node {
        Node::Directory(entries) => files_in(entries@),
        Node::File(data) => seq![FileSeen { path: path, content: data@ }],
        Node::Other => Seq::empty(),
    }
}

/// Each of the files is short enough for its digest to be taken.
pub open spec fn all_hashable(files: Seq<FileSeen>) -> bool {
    forall|k: int| 0 <= k < files.len() ==> hashable_len((#[trigger] files[k]).content.len())
}

/// The files of the first entries, then those of the next.
pub proof fn lemma_files_in_next(entries: Seq<(PathBuf, Node)>, i: int)
    requires
        0 <= i < entries.len(),
    ensures
        files_in(entries.take(i + 1)) == files_in(entries.take(i)) + files_under(
            entries[i].0,
            entries[i].1,
        ),
{
    assert(entries.take(i + 1).drop_last() =~= entries.take(i));
    assert(entries.take(i + 1).last() == entries[i]);
}

/// The files of the first entries are the first of the files of all.
pub proof fn lemma_files_in_prefix(entries: Seq<(PathBuf, Node)>, i: int)
    requires
        0 <= i <= entries.len(),
    ensures
        files_in(entries.take(i)).is_prefix_of(files_in(entries)),
    decreases entries.len() - i,
{
    if i == entries.len() {
        assert(entries.take(i) =~= entries);
    } else {
        lemma_files_in_next(entries, i);
        lemma_files_in_prefix(entries, i + 1);
    }
}

fn kind_of(node: &Node) -> (out: EntryKind)
    ensures
        out == node.kind(),
{
    match node {
        Node::Directory(_) => EntryKind::Directory,
        Node::File(_) => EntryKind::File,
        Node::Other => EntryKind::Other,
    }
}

/// Visits the entries of a directory that the scan has just been told to
/// list, and all below them.
fn walk(scan: &mut Scan, entries: &Vec<(PathBuf, Node)>)
    requires
        old(scan).wf(),
        all_hashable(files_in(entries@)),
    ensures
        final(scan).wf(),
        final(scan).pending() == old(scan).pending(),
        final(scan).visited() == old(scan).visited() + files_in(entries@),
    decreases entries,
{
    let ghost base = scan.pending();
    let ghost seen = scan.visited();
    let count: usize = entries.len();
    let mut listed: Vec<(PathBuf, EntryKind)> = Vec::new();
    let mut i: usize = 0;
    while i < count
        invariant
            i <= count,
            count == entries@.len(),
            listed@ == listing(entries@).take(i as int),
        decreases count - i,
    {
        listed.push((entries[i].0.clone(), kind_of(&entries[i].1)));
        assert(listed@ =~= listing(entries@).take(i + 1));
        i += 1;
    }
    assert(listed@ =~= listing(entries@));
    scan.directory_listed(listed);
    let ghost all = listing(entries@);
    let mut i: usize = 0;
    proof {
        assert(all.skip(0) =~= all);
        assert(entries@.take(0) =~= Seq::<(PathBuf, Node)>::empty());
        assert(seen + files_in(entries@.take(0)) =~= seen);
    }
    while i < count
        invariant
            i <= count,
            count == entries@.len(),
            all == listing(entries@),
            all_hashable(files_in(entries@)),
            scan.wf(),
            scan.pending() == base + to_visit(all.skip(i as int)).reverse(),
            scan.visited() == seen + files_in(entries@.take(i as int)),
        decreases count - i,
    {
        let ghost rest = to_visit(all.skip(i + 1));
        let ghost path = entries@[i as int].0;
        proof {
            assert(all.skip(i as int) =~= seq![all[i as int]] + all.skip(i + 1));
            lemma_to_visit_add(seq![all[i as int]], all.skip(i + 1));
            assert(seq![all[i as int]].drop_last() =~= Seq::<(PathBuf, EntryKind)>::empty());
            assert(to_visit(seq![all[i as int]].drop_last()) =~= Seq::<Visit>::empty());
            lemma_files_in_next(entries@, i as int);
            lemma_files_in_prefix(entries@, i + 1);
        }
        match &entries[i].1 {
            Node::Other => {
                assert(to_visit(all.skip(i as int)) =~= rest);
                assert(seen + files_in(entries@.take(i + 1)) =~= seen + files_in(
                    entries@.take(i as int),
                ));
            },
            Node::File(data) => {
                proof {
                    assert(to_visit(all.skip(i as int)) =~= seq![Visit::File(path)] + rest);
                    assert((seq![Visit::File(path)] + rest).reverse() =~= rest.reverse().push(
                        Visit::File(path),
                    ));
                    assert((base + rest.reverse().push(Visit::File(path))).drop_last() =~= base
                        + rest.reverse());
                    let at = files_in(entries@.take(i as int)).len() as int;
                    assert(files_in(entries@.take(i + 1))[at] == FileSeen {
                        path: path,
                        content: data@,
                    });
                    assert(files_in(entries@)[at] == files_in(entries@.take(i + 1))[at]);
                }
                match scan.next_step() {
                    Step::ReadFile(found) => {
                        scan.file_read(found, data.as_slice());
                    },
                    _ => {},
                }
                assert(scan.visited() =~= seen + files_in(entries@.take(i + 1)));
            },
            Node::Directory(below) => {
                proof {
                    assert(to_visit(all.skip(i as int)) =~= seq![Visit::Directory(path)] + rest);
                    assert((seq![Visit::Directory(path)] + rest).reverse()
                        =~= rest.reverse().push(Visit::Directory(path)));
                    assert((base + rest.reverse().push(Visit::Directory(path))).drop_last()
                        =~= base + rest.reverse());
                    let from = files_in(entries@.take(i as int)).len() as int;
                    assert forall|k: int| 0 <= k < files_in(below@).len() implies hashable_len(
                        (#[trigger] files_in(below@)[k]).content.len(),
                    ) by {
                        assert(files_in(entries@.take(i + 1))[from + k] == files_in(below@)[k]);
                        assert(files_in(entries@)[from + k] == files_in(below@)[k]);
                    }
                }
                let _ = scan.next_step();
                let ghost so_far = scan.visited();
                walk(scan, below);
                assert(scan.visited() =~= seen + files_in(entries@.take(i + 1)));
            },
        }
        i += 1;
    }
    proof {
        assert(all.skip(count as int) =~= Seq::<(PathBuf, EntryKind)>::empty());
        assert(scan.pending() =~= base);
        assert(entries@.take(count as int) =~= entries@);
    }
}

/// Scans the tree under the directory `path`, whose entries are `entries`:
/// every regular file in it, at any depth, is read and recorded, in the order
/// of `files_in`.
pub fn scan_on_directory(path: PathBuf, entries: &Vec<(PathBuf, Node)>) -> (out: DuplicateIndex)
    requires
        all_hashable(files_in(entries@)),
    ensures
        out.wf(),
        out@ == index_of(files_in(entries@)),
        out.order() == order_of(files_in(entries@)),
{
    let mut scan = Scan::new(path);
    let _ = scan.next_step();
    walk(&mut scan, entries);
    proof {
        scan.lemma_wf();
        assert(scan.visited() =~= files_in(entries@));
    }
    scan.into_index()
}

} // verus!
