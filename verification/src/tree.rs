//! A walked tree as a whole, and the totals of a record held against it.

use crate::index::{
    file_hashes, file_sizes, record_of, subdir_descendants, subdir_hashes, subdir_sizes, totals_fit,
    FileEntry, Summary,
};
use std::path::PathBuf;
use vstd::prelude::*;

verus! {

/// A directory as it was walked: the sub-directories that were descended
/// into, and the files.
pub ghost struct Walked {
    pub subdirs: Seq<Walked>,
    pub files: Seq<FileEntry>,
}

/// How many files and directories lie beneath a directory, at any depth.
pub open spec fn entries_beneath(dir: Walked) -> nat
    decreases dir, 0nat,
{
    dir.files.len() + forest_entries(dir.subdirs, dir.subdirs.len())
}

/// What the first `n` directories of a sequence add to their parent's
/// count.
pub open spec fn forest_entries(dirs: Seq<Walked>, n: nat) -> nat
    decreases dirs, n,
{
    if 0 < n <= dirs.len() {
        forest_entries(dirs, (n - 1) as nat) + 1 + entries_beneath(dirs[n - 1])
    } else {
        0
    }
}

/// The sizes of all files beneath a directory, at any depth, added up.
pub open spec fn bytes_beneath(dir: Walked) -> nat
    decreases dir, 0nat,
{
    file_sizes(dir.files) + forest_bytes(dir.subdirs, dir.subdirs.len())
}

/// The sizes of all files beneath the first `n` directories of a sequence.
pub open spec fn forest_bytes(dirs: Seq<Walked>, n: nat) -> nat
    decreases dirs, n,
{
    if 0 < n <= dirs.len() {
        forest_bytes(dirs, (n - 1) as nat) + bytes_beneath(dirs[n - 1])
    } else {
        0
    }
}

/// The summary holds the totals of the directory.
pub open spec fn summarizes(summary: Summary, dir: Walked) -> bool {
    summary.descendant_number == entries_beneath(dir) && summary.disk_size == bytes_beneath(dir)
}

/// The sums over the first `n` summaries are the totals of the first `n`
/// directories, where each summary holds the totals of its directory.
proof fn lemma_forest_totals(subdirs: Seq<Summary>, dirs: Seq<Walked>, n: nat)
    requires
        n <= subdirs.len() == dirs.len(),
        forall|i: int| 0 <= i < subdirs.len() ==> summarizes(#[trigger] subdirs[i], dirs[i]),
    ensures
        subdir_descendants(subdirs.subrange(0, n as int)) == forest_entries(dirs, n),
        subdir_sizes(subdirs.subrange(0, n as int)) == forest_bytes(dirs, n),
    decreases n,
{
    if n > 0 {
        lemma_forest_totals(subdirs, dirs, (n - 1) as nat);
        let front = subdirs.subrange(0, n as int);
        assert(front.drop_last() =~= subdirs.subrange(0, n - 1));
        assert(front.last() == subdirs[n - 1]);
    }
}

/// The totals are built from the bottom up: where the summary of every
/// sub-directory holds the totals of all that lies beneath it, the record
/// assembled from them holds the number of all files and directories beneath
/// the directory, and the sizes of all files beneath it, at any depth. The
/// directories themselves add nothing to the size.
pub proof fn lemma_totals_reach_every_depth(
    path: PathBuf,
    subdirs: Seq<Summary>,
    files: Seq<FileEntry>,
    dir: Walked,
)
    requires
        totals_fit(subdirs, files),
        dir.files == files,
        dir.subdirs.len() == subdirs.len(),
        forall|i: int| 0 <= i < subdirs.len() ==> summarizes(#[trigger] subdirs[i], dir.subdirs[i]),
    ensures
        record_of(path, subdirs, files).descendant_number == entries_beneath(dir),
        record_of(path, subdirs, files).disk_size == bytes_beneath(dir),
{
    lemma_forest_totals(subdirs, dir.subdirs, subdirs.len());
    assert(subdirs.subrange(0, subdirs.len() as int) =~= subdirs);
}

/// Sub-directories add at least one each to their parent's count.
proof fn lemma_each_subdir_counts(subdirs: Seq<Summary>)
    ensures
        subdir_descendants(subdirs) >= subdirs.len(),
    decreases subdirs.len(),
{
    if subdirs.len() > 0 {
        lemma_each_subdir_counts(subdirs.drop_last());
    }
}

/// A record counts no descendant exactly where it has no entry: where the
/// directory is empty.
pub proof fn lemma_empty_iff_no_entries(
    path: PathBuf,
    subdirs: Seq<Summary>,
    files: Seq<FileEntry>,
)
    requires
        totals_fit(subdirs, files),
    ensures
        record_of(path, subdirs, files).descendant_number == 0 <==> record_of(
            path,
            subdirs,
            files,
        ).children.len() == 0,
        record_of(path, subdirs, files).children.len() == subdirs.len() + files.len(),
{
    lemma_each_subdir_counts(subdirs);
    assert(subdir_hashes(subdirs).len() == subdirs.len());
    assert(file_hashes(files).len() == files.len());
    if subdirs.len() == 0 {
        assert(subdir_descendants(subdirs) == 0);
    }
}

} // verus!
