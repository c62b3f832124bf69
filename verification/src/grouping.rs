//! What a scan makes of the files it visits: the mapping from digest to file
//! record as a function of the files in the order of the visit, and what
//! holds of it for every tree.

use crate::digest::sha256;
use crate::record::{duplicate_digests, holds_duplicates, recorded, FileRecord};
use std::path::PathBuf;
use vstd::multiset::Multiset;
use vstd::prelude::*;
use vstd::seq_lib::{to_multiset_build, to_multiset_contains, to_multiset_len};

verus! {

/// A regular file as a scan meets it: where it is and what it holds.
pub struct FileSeen {
    pub path: PathBuf,
    pub content: Seq<u8>,
}

/// The files whose content has the digest `digest`.
pub open spec fn digest_is(digest: Seq<u8>) -> spec_fn(FileSeen) -> bool {
    |file: FileSeen| sha256(file.content) == digest
}

pub open spec fn path_of() -> spec_fn(FileSeen) -> PathBuf {
    |file: FileSeen| file.path
}

/// Those of `files` whose content has the digest `digest`, in their order.
pub open spec fn files_with(files: Seq<FileSeen>, digest: Seq<u8>) -> Seq<FileSeen> {
    files.filter(digest_is(digest))
}

/// The index of the files visited. A digest has a record where some file has
/// it; the record lists the paths of all files with that digest, in the order
/// of the visit, with the size of the first of them.
pub open spec fn index_of(files: Seq<FileSeen>) -> Map<Seq<u8>, FileRecord> {
    Map::new(
        |digest: Seq<u8>| files_with(files, digest).len() > 0,
        |digest: Seq<u8>|
            FileRecord {
                paths: files_with(files, digest).map_values(path_of()),
                size: files_with(files, digest)[0].content.len(),
            },
    )
}

/// The digests of the files visited, each once, in the order in which they
/// were first met.
pub open spec fn order_of(files: Seq<FileSeen>) -> Seq<Seq<u8>>
    decreases files.len(),
{
    if files.len() == 0 {
        Seq::empty()
    } else {
        let before = order_of(files.drop_last());
        let digest = sha256(files.last().content);
        if before.contains(digest) {
            before
        } else {
            before.push(digest)
        }
    }
}

/// The digests of the duplicate sets among the files visited.
pub open spec fn duplicates_of(files: Seq<FileSeen>) -> Seq<Seq<u8>> {
    duplicate_digests(order_of(files), index_of(files))
}

/// The digest tells these two contents apart if they differ.
pub open spec fn collision_free(a: Seq<u8>, b: Seq<u8>) -> bool {
    sha256(a) == sha256(b) ==> a == b
}

/// No path is visited twice.
pub open spec fn paths_differ(files: Seq<FileSeen>) -> bool {
    forall|a: int, b: int|
        0 <= a < b < files.len() ==> (#[trigger] files[a]).path != (#[trigger] files[b]).path
}

/// No two files have the same content, and the digest tells them all apart.
pub open spec fn contents_unique(files: Seq<FileSeen>) -> bool {
    forall|a: int, b: int|
        0 <= a < b < files.len() ==> (#[trigger] files[a]).content != (#[trigger] files[b]).content
            && collision_free(files[a].content, files[b].content)
}

proof fn lemma_files_with_push(files: Seq<FileSeen>, file: FileSeen, digest: Seq<u8>)
    ensures
        files_with(files.push(file), digest) == (if sha256(file.content) == digest {
            files_with(files, digest).push(file)
        } else {
            files_with(files, digest)
        }),
{
    Seq::lemma_filter_push(files, file, digest_is(digest));
}

/// A file with the digest is among the files with the digest, and so is its
/// path among the paths of the digest's record.
proof fn lemma_member(files: Seq<FileSeen>, i: int)
    requires
        0 <= i < files.len(),
    ensures
        files_with(files, sha256(files[i].content)).contains(files[i]),
        index_of(files).contains_key(sha256(files[i].content)),
        index_of(files)[sha256(files[i].content)].paths.contains(files[i].path),
{
    let digest = sha256(files[i].content);
    let same = files_with(files, digest);
    Seq::lemma_filter_contains(files, digest_is(digest), i);
    let k = choose|k: int| 0 <= k < same.len() && same[k] == files[i];
    assert(same.map_values(path_of())[k] == files[i].path);
}

/// Every path in a record is the path of a visited file with the record's
/// digest.
proof fn lemma_origin(files: Seq<FileSeen>, digest: Seq<u8>, k: int) -> (i: int)
    requires
        0 <= k < files_with(files, digest).len(),
    ensures
        0 <= i < files.len(),
        files[i] == files_with(files, digest)[k],
        sha256(files[i].content) == digest,
{
    let same = files_with(files, digest);
    Seq::lemma_filter_pred(files, digest_is(digest), k);
    broadcast use Seq::lemma_filter_contains_rev;

    assert(same.contains(same[k]));
    assert(files.contains(same[k]));
    choose|i: int| 0 <= i < files.len() && files[i] == same[k]
}

/// Two files with the digest make two entries among the files with the
/// digest.
proof fn lemma_two_members(files: Seq<FileSeen>, digest: Seq<u8>, i: int, j: int)
    requires
        0 <= i < j < files.len(),
        sha256(files[i].content) == digest,
        sha256(files[j].content) == digest,
    ensures
        files_with(files, digest).len() >= 2,
{
    let head = files.take(j);
    let tail = files.skip(j);
    assert(files =~= head + tail);
    Seq::filter_distributes_over_add(head, tail, digest_is(digest));
    assert(head[i] == files[i]);
    Seq::lemma_filter_contains(head, digest_is(digest), i);
    assert(tail[0] == files[j]);
    Seq::lemma_filter_contains(tail, digest_is(digest), 0);
}

/// Where two or more files have the digest, two visited files do.
proof fn lemma_two_origins(files: Seq<FileSeen>, digest: Seq<u8>) -> (pair: (int, int))
    requires
        files_with(files, digest).len() >= 2,
    ensures
        0 <= pair.0 < pair.1 < files.len(),
        sha256(files[pair.0].content) == digest,
        sha256(files[pair.1].content) == digest,
    decreases files.len(),
{
    if files.len() == 0 {
        assert(files =~= Seq::<FileSeen>::empty());
        Seq::lemma_filter_len(files, digest_is(digest));
        (0, 0)
    } else {
        let init = files.drop_last();
        assert(files =~= init.push(files.last()));
        lemma_files_with_push(init, files.last(), digest);
        if sha256(files.last().content) == digest {
            let i = lemma_origin(init, digest, 0);
            (i, files.len() - 1)
        } else {
            lemma_two_origins(init, digest)
        }
    }
}

/// The order of first discovery lists the digests of the index, each once.
pub proof fn lemma_order_of(files: Seq<FileSeen>)
    ensures
        order_of(files).no_duplicates(),
        forall|digest: Seq<u8>|
            #![trigger order_of(files).contains(digest)]
            #![trigger index_of(files).contains_key(digest)]
            order_of(files).contains(digest) <==> index_of(files).contains_key(digest),
    decreases files.len(),
{
    if files.len() == 0 {
        assert forall|digest: Seq<u8>| !index_of(files).contains_key(digest) by {
            Seq::lemma_filter_len(files, digest_is(digest));
        }
    } else {
        let init = files.drop_last();
        let last = files.last();
        let before = order_of(init);
        lemma_order_of(init);
        assert(files =~= init.push(last));
        assert forall|digest: Seq<u8>|
            order_of(files).contains(digest) <==> index_of(files).contains_key(digest) by {
            lemma_files_with_push(init, last, digest);
            if before.contains(sha256(last.content)) {
            } else {
                let after = before.push(sha256(last.content));
                assert(after[before.len() as int] == sha256(last.content));
                if before.contains(digest) {
                    let k = before.index_of(digest);
                    assert(after[k] == digest);
                }
            }
        }
    }
}

/// Visiting one more file changes the index as `recorded` says, and puts a
/// digest that is new last in the order.
pub proof fn lemma_index_of_push(files: Seq<FileSeen>, file: FileSeen)
    ensures
        index_of(files.push(file)) == recorded(
            index_of(files),
            sha256(file.content),
            file.path,
            file.content.len(),
        ),
        order_of(files.push(file)) == (if index_of(files).contains_key(sha256(file.content)) {
            order_of(files)
        } else {
            order_of(files).push(sha256(file.content))
        }),
{
    let more = files.push(file);
    let own = sha256(file.content);
    assert(more.drop_last() =~= files);
    lemma_order_of(files);
    assert forall|digest: Seq<u8>|
        index_of(more).contains_key(digest) <==> recorded(
            index_of(files),
            own,
            file.path,
            file.content.len(),
        ).contains_key(digest) by {
        lemma_files_with_push(files, file, digest);
    }
    assert forall|digest: Seq<u8>| #[trigger]
        index_of(more).contains_key(digest) implies index_of(more)[digest] == recorded(
        index_of(files),
        own,
        file.path,
        file.content.len(),
    )[digest] by {
        lemma_files_with_push(files, file, digest);
        if digest == own {
            let same = files_with(files, digest);
            assert(same.push(file).map_values(path_of()) =~= same.map_values(path_of()).push(
                file.path,
            ));
            if same.len() == 0 {
                assert(same.map_values(path_of()).push(file.path) =~= seq![file.path]);
            }
        }
    }
    assert(index_of(more) =~= recorded(index_of(files), own, file.path, file.content.len()));
}

/// No file visited gives the empty index.
pub proof fn lemma_index_of_nothing()
    ensures
        index_of(Seq::empty()) == Map::<Seq<u8>, FileRecord>::empty(),
        order_of(Seq::empty()) == Seq::<Seq<u8>>::empty(),
{
    assert forall|digest: Seq<u8>| !index_of(Seq::empty()).contains_key(digest) by {
        Seq::lemma_filter_len(Seq::<FileSeen>::empty(), digest_is(digest));
    }
    assert(index_of(Seq::empty()) =~= Map::<Seq<u8>, FileRecord>::empty());
}

/// Every record of the index holds at least one path, and as many paths as
/// files were visited with its digest.
pub proof fn lemma_records_hold_paths(files: Seq<FileSeen>, digest: Seq<u8>)
    requires
        index_of(files).contains_key(digest),
    ensures
        index_of(files)[digest].paths.len() == files_with(files, digest).len(),
        index_of(files)[digest].paths.len() >= 1,
{
}

/// Two files with the same content are in the same record: the record of
/// their digest lists both paths, wherever they are in the tree and whatever
/// they are called. Two such files make a duplicate set.
pub proof fn lemma_same_content_same_record(files: Seq<FileSeen>, i: int, j: int)
    requires
        0 <= i < files.len(),
        0 <= j < files.len(),
        files[i].content == files[j].content,
    ensures
        index_of(files).contains_key(sha256(files[i].content)),
        index_of(files)[sha256(files[i].content)].paths.contains(files[i].path),
        index_of(files)[sha256(files[i].content)].paths.contains(files[j].path),
        i != j ==> index_of(files)[sha256(files[i].content)].paths.len() >= 2,
        i != j ==> duplicates_of(files).contains(sha256(files[i].content)),
{
    let digest = sha256(files[i].content);
    lemma_member(files, i);
    lemma_member(files, j);
    if i != j {
        if i < j {
            lemma_two_members(files, digest, i, j);
        } else {
            lemma_two_members(files, digest, j, i);
        }
        lemma_duplicates_of(files, digest);
    }
}

/// Two files whose contents differ are in different records, as long as the
/// digest tells the two contents apart and no path is visited twice: each
/// path is in the record of its own digest and not in the other's.
pub proof fn lemma_different_content_different_record(files: Seq<FileSeen>, i: int, j: int)
    requires
        0 <= i < files.len(),
        0 <= j < files.len(),
        files[i].content != files[j].content,
        collision_free(files[i].content, files[j].content),
        paths_differ(files),
    ensures
        sha256(files[i].content) != sha256(files[j].content),
        index_of(files)[sha256(files[i].content)].paths.contains(files[i].path),
        index_of(files)[sha256(files[j].content)].paths.contains(files[j].path),
        !index_of(files)[sha256(files[i].content)].paths.contains(files[j].path),
        !index_of(files)[sha256(files[j].content)].paths.contains(files[i].path),
{
    lemma_member(files, i);
    lemma_member(files, j);
    lemma_not_in_other(files, i, j);
    lemma_not_in_other(files, j, i);
}

proof fn lemma_not_in_other(files: Seq<FileSeen>, i: int, j: int)
    requires
        0 <= i < files.len(),
        0 <= j < files.len(),
        sha256(files[i].content) != sha256(files[j].content),
        paths_differ(files),
    ensures
        !index_of(files)[sha256(files[i].content)].paths.contains(files[j].path),
{
    let digest = sha256(files[i].content);
    let paths = index_of(files)[digest].paths;
    lemma_member(files, i);
    assert(paths.len() == files_with(files, digest).len());
    if paths.contains(files[j].path) {
        let k = choose|k: int| 0 <= k < paths.len() && paths[k] == files[j].path;
        let from = lemma_origin(files, digest, k);
        assert(paths[k] == files_with(files, digest)[k].path);
        assert(files[from].path == files[j].path);
        if from < j {
            assert(files[from].path != files[j].path);
        } else if j < from {
            assert(files[j].path != files[from].path);
        }
    }
}

/// A tree without files, or one in which no two files have the same content,
/// has no duplicate set.
pub proof fn lemma_unique_content_no_duplicates(files: Seq<FileSeen>)
    requires
        contents_unique(files),
    ensures
        duplicates_of(files) == Seq::<Seq<u8>>::empty(),
{
    let found = duplicates_of(files);
    if found.len() > 0 {
        let digest = found[0];
        assert(found.contains(digest));
        lemma_duplicates_of(files, digest);
        let pair = lemma_two_origins(files, digest);
        assert(files[pair.0].content != files[pair.1].content);
    }
    assert(found =~= Seq::<Seq<u8>>::empty());
}

proof fn lemma_filter_multiset<A>(s: Seq<A>, pred: spec_fn(A) -> bool)
    ensures
        s.filter(pred).to_multiset() == s.to_multiset().filter(pred),
    decreases s.len(),
{
    broadcast use vstd::multiset::group_multiset_axioms;

    if s.len() == 0 {
        Seq::lemma_filter_len(s, pred);
        assert(s.filter(pred) =~= Seq::<A>::empty());
        assert(s =~= Seq::<A>::empty());
        assert(Seq::<A>::empty().to_multiset() =~= Multiset::<A>::empty()) by {
            to_multiset_len(Seq::<A>::empty());
        }
        assert(s.to_multiset().filter(pred) =~= Multiset::<A>::empty());
    } else {
        let init = s.drop_last();
        let last = s.last();
        assert(s =~= init.push(last));
        lemma_filter_multiset(init, pred);
        Seq::lemma_filter_push(init, last, pred);
        to_multiset_build(init, last);
        if pred(last) {
            to_multiset_build(init.filter(pred), last);
        }
        assert(s.filter(pred).to_multiset() =~= s.to_multiset().filter(pred));
    }
}

/// Scanning the same tree again gives the same duplicate sets, in whatever
/// order the files are visited: the same digests have records, each record
/// holds the same paths, as a set and in number, and the same digests have
/// duplicates.
pub proof fn lemma_rescan_same_sets(first: Seq<FileSeen>, second: Seq<FileSeen>)
    requires
        first.to_multiset() == second.to_multiset(),
    ensures
        index_of(first).dom() == index_of(second).dom(),
        forall|digest: Seq<u8>| #[trigger]
            index_of(first).contains_key(digest) ==> {
                &&& index_of(first)[digest].paths.to_set() == index_of(second)[digest].paths.to_set()
                &&& index_of(first)[digest].paths.len() == index_of(second)[digest].paths.len()
            },
        duplicates_of(first).to_set() == duplicates_of(second).to_set(),
{
    assert forall|digest: Seq<u8>|
        files_with(first, digest).to_multiset() == files_with(second, digest).to_multiset() by {
        lemma_filter_multiset(first, digest_is(digest));
        lemma_filter_multiset(second, digest_is(digest));
    }
    assert forall|digest: Seq<u8>|
        (#[trigger] files_with(first, digest)).len() == files_with(second, digest).len() by {
        to_multiset_len(files_with(first, digest));
        to_multiset_len(files_with(second, digest));
        assert(files_with(first, digest).to_multiset() == files_with(second, digest).to_multiset());
    }
    assert(index_of(first).dom() =~= index_of(second).dom());
    assert forall|digest: Seq<u8>| #[trigger] index_of(first).contains_key(digest) implies {
        &&& index_of(first)[digest].paths.to_set() == index_of(second)[digest].paths.to_set()
        &&& index_of(first)[digest].paths.len() == index_of(second)[digest].paths.len()
    } by {
        assert(files_with(first, digest).len() == files_with(second, digest).len());
        lemma_same_paths(first, second, digest);
        lemma_same_paths(second, first, digest);
        assert(index_of(first)[digest].paths.to_set() =~= index_of(second)[digest].paths.to_set());
    }
    lemma_order_of(first);
    lemma_order_of(second);
    assert forall|digest: Seq<u8>|
        duplicates_of(first).contains(digest) <==> duplicates_of(second).contains(digest) by {
        assert(files_with(first, digest).len() == files_with(second, digest).len());
        lemma_duplicates_of(first, digest);
        lemma_duplicates_of(second, digest);
    }
    assert(duplicates_of(first).to_set() =~= duplicates_of(second).to_set());
}

/// A digest has a duplicate set exactly if two or more files have it.
pub proof fn lemma_duplicates_of(files: Seq<FileSeen>, digest: Seq<u8>)
    ensures
        duplicates_of(files).contains(digest) <==> files_with(files, digest).len() >= 2,
{
    let order = order_of(files);
    let index = index_of(files);
    let found = duplicates_of(files);
    lemma_order_of(files);
    if files_with(files, digest).len() >= 2 {
        assert(index.contains_key(digest));
        assert(order.contains(digest));
        let at = choose|at: int| 0 <= at < order.len() && order[at] == digest;
        assert(index[digest].paths.len() == files_with(files, digest).len());
        assert(holds_duplicates(index)(order[at]));
        Seq::lemma_filter_contains(order, holds_duplicates(index), at);
    }
    if found.contains(digest) {
        let k = choose|k: int| 0 <= k < found.len() && found[k] == digest;
        Seq::lemma_filter_pred(order, holds_duplicates(index), k);
        Seq::lemma_filter_contains_rev(order, holds_duplicates(index), digest);
        assert(order.contains(digest));
        assert(index.contains_key(digest));
        assert(index[digest].paths.len() == files_with(files, digest).len());
    }
}

proof fn lemma_same_paths(first: Seq<FileSeen>, second: Seq<FileSeen>, digest: Seq<u8>)
    requires
        files_with(first, digest).to_multiset() == files_with(second, digest).to_multiset(),
    ensures
        forall|path: PathBuf|
            files_with(first, digest).map_values(path_of()).contains(path) ==> files_with(
                second,
                digest,
            ).map_values(path_of()).contains(path),
{
    let ours = files_with(first, digest);
    let theirs = files_with(second, digest);
    assert forall|path: PathBuf| ours.map_values(path_of()).contains(path) implies theirs.map_values(
        path_of(),
    ).contains(path) by {
        let k = choose|k: int|
            0 <= k < ours.map_values(path_of()).len() && ours.map_values(path_of())[k] == path;
        let file = ours[k];
        assert(ours.contains(file));
        to_multiset_contains(ours, file);
        to_multiset_contains(theirs, file);
        let at = choose|at: int| 0 <= at < theirs.len() && theirs[at] == file;
        assert(theirs.map_values(path_of())[at] == path);
    }
}

} // verus!
