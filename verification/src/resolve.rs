//! Resolving one duplicate set: what a typed answer selects, and which paths
//! are then to be deleted.

use crate::record::FileInfo;
use crate::text::{parse_answer, read_answer};
use std::path::PathBuf;
use vstd::prelude::*;

verus! {

/// Why an answer was turned down. The question is then asked again.
#[derive(Debug, Clone, Copy, PartialEq, Eq, Structural)]
pub enum Rejection {
    /// The answer is not an unsigned number.
    InvalidInput,
    /// The answer is a number above the number of paths in the set.
    InvalidIndex,
}

/// Where one answer takes the resolution of a duplicate set.
#[derive(Debug, Clone, Copy, PartialEq, Eq, Structural)]
pub enum Resolution {
    /// The answer was turned down: ask again, for the same set.
    Retry(Rejection),
    /// Keep every path: nothing is deleted.
    Abstain,
    /// Keep the path at this position, counted from zero, and delete the
    /// others.
    Keep(usize),
}

/// The question put for each duplicate set.
pub const PROMPT: &'static str = "Select one to keep (0 to keep all): ";

/// What an answer selects in a set of `path_count` paths: zero keeps all, a
/// number from one to `path_count` keeps the path it counts, anything else is
/// turned down.
pub open spec fn resolve(answer: Seq<char>, path_count: nat) -> Resolution {
    match parse_answer(answer) {
        None => Resolution::Retry(Rejection::InvalidInput),
        Some(number) => if number == 0 {
            Resolution::Abstain
        } else if number <= path_count {
            Resolution::Keep((number - 1) as usize)
        } else {
            Resolution::Retry(Rejection::InvalidIndex)
        },
    }
}

/// The paths at every position but `keep`, in their order.
pub open spec fn all_but(paths: Seq<PathBuf>, keep: int) -> Seq<PathBuf> {
    if 0 <= keep < paths.len() {
        paths.remove(keep)
    } else {
        paths
    }
}

/// The paths that a resolution has deleted: with `Keep`, all but the one
/// kept; otherwise none.
pub open spec fn removals(paths: Seq<PathBuf>, resolution: Resolution) -> Seq<PathBuf> {
    match resolution {
        Resolution::Keep(index) => all_but(paths, index as int),
        _ => Seq::empty(),
    }
}

/// What is left of `disk` once the deletion of each of `doomed` has been
/// tried, where `failed` holds the positions in `doomed` at which the
/// deletion failed.
pub open spec fn disk_after(disk: Set<PathBuf>, doomed: Seq<PathBuf>, failed: Set<int>) -> Set<
    PathBuf,
> {
    Set::new(
        |path: PathBuf|
            disk.contains(path) && !(exists|k: int|
                0 <= k < doomed.len() && !failed.contains(k) && #[trigger] doomed[k] == path),
    )
}

impl Rejection {
    /// The line that tells the user why the answer was turned down.
    pub fn message(&self) -> (out: &'static str)
        ensures
            out@ == (match *self {
                Rejection::InvalidInput => "Invalid input."@,
                Rejection::InvalidIndex => "Invalid index."@,
            }),
    {
        match self {
            Rejection::InvalidInput => "Invalid input.",
            Rejection::InvalidIndex => "Invalid index.",
        }
    }
}

/// One step of resolving the duplicate set `v`: what the answer typed at the
/// prompt selects.
pub fn fix_duplicates(v: &FileInfo, answer: &str) -> (out: Resolution)
    ensures
        out == resolve(answer@, v@.paths.len()),
{
    match read_answer(answer) {
        None => Resolution::Retry(Rejection::InvalidInput),
        Some(number) => {
            if number == 0 {
                Resolution::Abstain
            } else if number <= v.paths().len() {
                Resolution::Keep(number - 1)
            } else {
                Resolution::Retry(Rejection::InvalidIndex)
            }
        },
    }
}

impl Resolution {
    /// The paths of `v` to delete, in their order.
    pub fn removals<'a>(&self, v: &'a FileInfo) -> (out: Vec<&'a PathBuf>)
        ensures
            out@.unref() == removals(v@.paths, *self),
    {
        let mut out: Vec<&'a PathBuf> = Vec::new();
        match *self {
            Resolution::Keep(keep) => {
                let paths = v.paths();
                let mut i: usize = 0;
                assert(paths@.take(0) =~= Seq::<PathBuf>::empty());
                while i < paths.len()
                    invariant
                        i <= paths@.len(),
                        out@.unref() == all_but(paths@.take(i as int), keep as int),
                    decreases paths@.len() - i,
                {
                    let ghost so_far = out@.unref();
                    if i != keep {
                        out.push(&paths[i]);
                        assert(out@.unref() =~= so_far.push(paths@[i as int]));
                    }
                    assert(out@.unref() =~= all_but(paths@.take(i + 1), keep as int));
                    i += 1;
                }
                assert(paths@.take(i as int) =~= paths@);
            },
            _ => {
                assert(out@.unref() =~= Seq::<PathBuf>::empty());
            },
        }
        out
    }
}

/// Keeping the path at `index` deletes every other path of the set, each
/// once, and no path from elsewhere. Where the paths of the set differ from
/// each other, the path kept is not among them.
pub proof fn lemma_keep_spares_one(paths: Seq<PathBuf>, index: usize)
    requires
        index < paths.len(),
    ensures
        removals(paths, Resolution::Keep(index)).len() == paths.len() - 1,
        forall|k: int|
            0 <= k < index ==> removals(paths, Resolution::Keep(index))[k] == paths[k],
        forall|k: int|
            index <= k < paths.len() - 1 ==> removals(paths, Resolution::Keep(index))[k] == paths[k
                + 1],
        forall|k: int|
            0 <= k < paths.len() && k != index ==> removals(
                paths,
                Resolution::Keep(index),
            ).contains(#[trigger] paths[k]),
        paths.no_duplicates() ==> !removals(paths, Resolution::Keep(index)).contains(
            paths[index as int],
        ),
{
    let doomed = removals(paths, Resolution::Keep(index));
    assert forall|k: int| 0 <= k < paths.len() && k != index implies doomed.contains(
        #[trigger] paths[k],
    ) by {
        if k < index {
            assert(doomed[k] == paths[k]);
        } else {
            assert(doomed[k - 1] == paths[k]);
        }
    }
}

/// After a resolution that keeps the path at `index`, of the paths of the set
/// that were on disk the one kept is still there, and another is still there
/// exactly if its deletion failed. Paths outside the set are untouched.
pub proof fn lemma_keep_on_disk(
    disk: Set<PathBuf>,
    paths: Seq<PathBuf>,
    index: usize,
    failed: Set<int>,
)
    requires
        index < paths.len(),
        paths.no_duplicates(),
        forall|k: int| 0 <= k < paths.len() ==> disk.contains(#[trigger] paths[k]),
    ensures
        disk_after(disk, removals(paths, Resolution::Keep(index)), failed).contains(
            paths[index as int],
        ),
        forall|k: int|
            0 <= k < paths.len() - 1 ==> (disk_after(
                disk,
                removals(paths, Resolution::Keep(index)),
                failed,
            ).contains(#[trigger] removals(paths, Resolution::Keep(index))[k]) <==> failed.contains(
                k,
            )),
        forall|path: PathBuf|
            disk.contains(path) && !paths.contains(path) ==> disk_after(
                disk,
                removals(paths, Resolution::Keep(index)),
                failed,
            ).contains(path),
{
    let doomed = removals(paths, Resolution::Keep(index));
    let left = disk_after(disk, doomed, failed);
    lemma_keep_spares_one(paths, index);
    assert forall|k: int| 0 <= k < paths.len() - 1 implies (left.contains(#[trigger] doomed[k])
        <==> failed.contains(k)) by {
        let at = if k < index {
            k
        } else {
            k + 1
        };
        assert(doomed[k] == paths[at]);
        if failed.contains(k) {
            assert forall|j: int|
                0 <= j < doomed.len() && !failed.contains(j) implies #[trigger] doomed[j]
                != doomed[k] by {
                let from = if j < index {
                    j
                } else {
                    j + 1
                };
                assert(doomed[j] == paths[from]);
            }
        }
    }
    assert forall|path: PathBuf| disk.contains(path) && !paths.contains(path) implies left.contains(
        path,
    ) by {
        assert forall|j: int| 0 <= j < doomed.len() implies #[trigger] doomed[j] != path by {
            let from = if j < index {
                j
            } else {
                j + 1
            };
            assert(doomed[j] == paths[from]);
        }
    }
}

/// Abstaining deletes nothing, and so does an answer that is turned down:
/// whatever was on disk stays.
pub proof fn lemma_abstain_keeps_all(
    disk: Set<PathBuf>,
    paths: Seq<PathBuf>,
    rejection: Rejection,
    failed: Set<int>,
)
    ensures
        removals(paths, Resolution::Abstain).len() == 0,
        removals(paths, Resolution::Retry(rejection)).len() == 0,
        disk_after(disk, removals(paths, Resolution::Abstain), failed) == disk,
{
    assert(disk_after(disk, removals(paths, Resolution::Abstain), failed) =~= disk);
}

/// The answer `0` abstains, whatever the set.
pub proof fn lemma_zero_abstains(path_count: nat)
    ensures
        resolve("0"@, path_count) == Resolution::Abstain,
{
    reveal_strlit("0");
    let zero = "0"@;
    assert(zero.len() == 1 && zero[0] == '0');
    assert(crate::text::trim_start(zero) == zero);
    assert(crate::text::trim_end(zero) == zero);
    assert(zero.drop_last().len() == 0);
    assert(crate::text::digits_value(zero.drop_last()) == 0);
    assert(crate::text::digits_value(zero) == 0);
}

} // verus!
