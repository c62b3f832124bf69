//! The report of the duplicate sets: which records are reported, and the text
//! that heads each set and numbers its paths.

use crate::digest::hex_of;
use crate::grouping::{duplicates_of, index_of};
use crate::record::{duplicate_digests, holds_duplicates, DuplicateIndex, FileInfo, FileRecord};
use crate::scan::reversed;
use crate::text::{decimal, push_decimal};
use crate::tree::{all_hashable, files_in, scan_on_directory, Node};
use std::path::PathBuf;
use vstd::prelude::*;
use vstd::string::StringExecFns;

verus! {

/// The line that heads a duplicate set: the digest in hexadecimal and the
/// size in bytes.
pub open spec fn header_text(digest: Seq<u8>, size: nat) -> Seq<char> {
    "Hash set "@ + hex_of(digest) + " (filesize: "@ + decimal(size) + " bytes):"@
}

/// What stands before the path at `position` in the list of a set: its
/// number, counted from one.
pub open spec fn label_text(position: nat) -> Seq<char> {
    " "@ + decimal(position + 1) + " - "@
}

/// Writes the line that heads a duplicate set.
pub fn header_line(hash: &crate::digest::Hash, size: usize) -> (out: String)
    ensures
        out@ == header_text(hash@, size as nat),
{
    let mut out = String::new();
    out.append("Hash set ");
    let hex = hash.to_hex();
    out.append(hex.as_str());
    out.append(" (filesize: ");
    push_decimal(&mut out, size);
    out.append(" bytes):");
    assert(out@ =~= header_text(hash@, size as nat));
    out
}

/// Writes what stands before the path at `position` in the list of a set.
pub fn entry_label(position: usize) -> (out: String)
    requires
        position < usize::MAX,
    ensures
        out@ == label_text(position as nat),
{
    let mut out = String::new();
    out.append(" ");
    push_decimal(&mut out, position + 1);
    out.append(" - ");
    assert(out@ =~= label_text(position as nat));
    out
}

/// One duplicate set, ready to be shown: the record with its digest, the
/// line that heads it, a label for each of its paths, and whether the set is
/// then to be resolved.
#[derive(Debug)]
pub struct DuplicateSet {
    pub hash: crate::digest::Hash,
    pub info: FileInfo,
    pub header: String,
    pub labels: Vec<String>,
    pub resolve: bool,
}

impl DuplicateSet {
    /// This is the report of the record `record` of the digest `digest`.
    pub open spec fn reports(&self, digest: Seq<u8>, record: FileRecord, do_fix: bool) -> bool {
        &&& self.hash@ == digest
        &&& self.info@ == record
        &&& self.header@ == header_text(digest, record.size)
        &&& self.labels@.len() == record.paths.len()
        &&& forall|k: int|
            0 <= k < self.labels@.len() ==> (#[trigger] self.labels@[k])@ == label_text(k as nat)
        &&& self.resolve == do_fix
    }
}

fn report_of(hash: crate::digest::Hash, info: FileInfo, do_fix: bool) -> (out: DuplicateSet)
    ensures
        out.reports(hash@, info@, do_fix),
{
    let header = header_line(&hash, info.size());
    let count: usize = info.paths().len();
    let mut labels: Vec<String> = Vec::new();
    let mut k: usize = 0;
    while k < count
        invariant
            k <= count,
            labels@.len() == k,
            forall|j: int| 0 <= j < k ==> (#[trigger] labels@[j])@ == label_text(j as nat),
        decreases count - k,
    {
        labels.push(entry_label(k));
        k += 1;
    }
    DuplicateSet { hash, info, header, labels, resolve: do_fix }
}

/// Reports the duplicate sets of an index: its records with more than one
/// path, in the order of first discovery. With `do_fix` each set is marked to
/// be resolved once it has been shown.
pub fn handle_duplicates(file_map: DuplicateIndex, do_fix: bool) -> (out: Vec<DuplicateSet>)
    requires
        file_map.wf(),
    ensures
        out@.len() == duplicate_digests(file_map.order(), file_map@).len(),
        forall|k: int|
            0 <= k < out@.len() ==> (#[trigger] out@[k]).reports(
                duplicate_digests(file_map.order(), file_map@)[k],
                file_map@[duplicate_digests(file_map.order(), file_map@)[k]],
                do_fix,
            ),
{
    let ghost order = file_map.order();
    let ghost index = file_map@;
    let ghost wanted = holds_duplicates(index);
    let entries = file_map.into_entries();
    let ghost records = entries@;
    let mut rest = reversed(entries);
    let mut out: Vec<DuplicateSet> = Vec::new();
    let ghost mut done: int = 0;
    proof {
        assert(order.take(0) =~= Seq::<Seq<u8>>::empty());
        assert(rest@ =~= records.reverse().take(records.len() - 0));
    }
    loop
        invariant_except_break
            0 <= done <= records.len(),
            records.len() == order.len(),
            wanted == holds_duplicates(index),
            forall|i: int|
                0 <= i < records.len() ==> {
                    &&& (#[trigger] records[i]).0@ == order[i]
                    &&& index.contains_key(order[i])
                    &&& records[i].1@ == index[order[i]]
                },
            rest@ == records.reverse().take(records.len() - done),
            out@.len() == order.take(done).filter(wanted).len(),
            forall|k: int|
                0 <= k < out@.len() ==> (#[trigger] out@[k]).reports(
                    order.take(done).filter(wanted)[k],
                    index[order.take(done).filter(wanted)[k]],
                    do_fix,
                ),
        ensures
            wanted == holds_duplicates(index),
            out@.len() == order.filter(wanted).len(),
            forall|k: int|
                0 <= k < out@.len() ==> (#[trigger] out@[k]).reports(
                    order.filter(wanted)[k],
                    index[order.filter(wanted)[k]],
                    do_fix,
                ),
        decreases records.len() - done,
    {
        match rest.pop() {
            None => {
                assert(order.take(done) =~= order);
                break ;
            },
            Some(entry) => {
                proof {
                    assert(entry == records[done]);
                    assert(rest@ =~= records.reverse().take(records.len() - done - 1));
                    assert(order.take(done + 1) =~= order.take(done).push(order[done]));
                    Seq::lemma_filter_push(order.take(done), order[done], wanted);
                }
                if entry.1.paths().len() > 1 {
                    out.push(report_of(entry.0, entry.1, do_fix));
                }
                proof {
                    done = done + 1;
                }
            },
        }
    }
    out
}

/// Scans the tree under the directory `target_dir`, whose entries are
/// `entries`, and reports its duplicate sets.
pub fn run(target_dir: PathBuf, entries: &Vec<(PathBuf, Node)>, do_fix: bool) -> (out: Vec<
    DuplicateSet,
>)
    requires
        all_hashable(files_in(entries@)),
    ensures
        out@.len() == duplicates_of(files_in(entries@)).len(),
        forall|k: int|
            0 <= k < out@.len() ==> (#[trigger] out@[k]).reports(
                duplicates_of(files_in(entries@))[k],
                index_of(files_in(entries@))[duplicates_of(files_in(entries@))[k]],
                do_fix,
            ),
{
    handle_duplicates(scan_on_directory(target_dir, entries), do_fix)
}

} // verus!
