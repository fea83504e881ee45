//! The guard that keeps a physical directory from being walked twice, and the
//! choice of the entries of one directory that are walked.

use std::collections::HashSet;
use vstd::prelude::*;

verus! {

broadcast use vstd::std_specs::hash::group_hash_axioms;

/// The identity of a physical directory: the device it lies on, and its
/// number on that device.
#[derive(Clone, Copy, Debug, PartialEq, Eq, Hash, Structural)]
pub struct Identity {
    pub device: u64,
    pub inode: u64,
}

/// An identity as one number: the device in the upper 64 bits, the inode in
/// the lower.
pub open spec fn identity_code(id: Identity) -> u128 {
    (id.device * 0x1_0000_0000_0000_0000 + id.inode) as u128
}

/// Two identities with one code are the same.
pub proof fn lemma_identity_code_injective(a: Identity, b: Identity)
    requires
        identity_code(a) == identity_code(b),
    ensures
        a == b,
{
}

/// The identities of the directories that have been presented so far, each
/// kept by its code. It only grows, and one guard serves every root of a run.
pub struct InodeGuard {
    pub seen: HashSet<u128>,
}

impl View for InodeGuard {
    type V = Set<Identity>;

    open spec fn view(&self) -> Set<Identity> {
        Set::new(|id: Identity| self.seen@.contains(identity_code(id)))
    }
}

/// Whether a directory of this identity is to be walked, given what has been
/// seen: always where the platform gives no identity, else only the first time.
pub open spec fn first_visit(seen: Set<Identity>, identity: Option<Identity>) -> bool {
    match identity {
        Some(id) => !seen.contains(id),
        None => true,
    }
}

/// What has been seen once a directory of this identity was presented.
pub open spec fn seen_with(seen: Set<Identity>, identity: Option<Identity>) -> Set<Identity> {
    match identity {
        Some(id) => seen.insert(id),
        None => seen,
    }
}

impl InodeGuard {
    /// A guard that has seen nothing.
    pub fn new() -> (guard: InodeGuard)
        ensures
            guard@ == Set::<Identity>::empty(),
    {
        let guard = InodeGuard { seen: HashSet::new() };
        assert(guard@ =~= Set::<Identity>::empty());
        guard
    }

    /// Presents an identity: `true` the first time, `false` ever after.
    pub fn visit(&mut self, id: Identity) -> (first: bool)
        ensures
            first == !old(self)@.contains(id),
            final(self)@ == old(self)@.insert(id),
    {
        let code: u128 = (id.device as u128) * 0x1_0000_0000_0000_0000u128 + (id.inode as u128);
        let first = self.seen.insert(code);
        proof {
            assert forall|other: Identity| #[trigger]
                self@.contains(other) <==> old(self)@.insert(id).contains(other) by {
                if identity_code(other) == identity_code(id) {
                    lemma_identity_code_injective(other, id);
                }
            }
            assert(self@ =~= old(self)@.insert(id));
        }
        first
    }
}

/// Presents a directory to the guard. A directory without an identity is
/// always walked and leaves the guard as it was.
pub fn check_inode(guard: &mut InodeGuard, identity: Option<Identity>) -> (first: bool)
    ensures
        first == first_visit(old(guard)@, identity),
        final(guard)@ == seen_with(old(guard)@, identity),
{
    match identity {
        Some(id) => guard.visit(id),
        None => true,
    }
}

/// What an entry of a directory is.
#[derive(Clone, Copy, Debug, PartialEq, Eq, Structural)]
pub enum EntryKind {
    /// A regular file.
    File,
    /// A directory, with its physical identity where the platform has one.
    Directory(Option<Identity>),
    /// Anything else, a symbolic link for one: it is passed over.
    Other,
}

/// The entries of one directory that are walked, each by its place in the
/// listing.
#[derive(Debug)]
pub struct Selection {
    /// The sub-directories to descend into, in the listing's order.
    pub subdirs: Vec<usize>,
    /// The files, in the listing's order.
    pub files: Vec<usize>,
}

/// The places of the files in a listing.
pub open spec fn files_of(entries: Seq<EntryKind>) -> Seq<usize>
    decreases entries.len(),
{
    if entries.len() == 0 {
        Seq::empty()
    } else {
        let before = files_of(entries.drop_last());
        if entries.last() is File {
            before.push((entries.len() - 1) as usize)
        } else {
            before
        }
    }
}

/// What the guard has seen once a whole listing was presented to it.
pub open spec fn seen_after(entries: Seq<EntryKind>, seen: Set<Identity>) -> Set<Identity>
    decreases entries.len(),
{
    if entries.len() == 0 {
        seen
    } else {
        let before = seen_after(entries.drop_last(), seen);
        match entries.last() {
            EntryKind::Directory(identity) => seen_with(before, identity),
            _ => before,
        }
    }
}

/// The places of the sub-directories of a listing that are walked: each
/// directory whose identity no earlier presentation has shown.
pub open spec fn subdirs_of(entries: Seq<EntryKind>, seen: Set<Identity>) -> Seq<usize>
    decreases entries.len(),
{
    if entries.len() == 0 {
        Seq::empty()
    } else {
        let before = subdirs_of(entries.drop_last(), seen);
        match entries.last() {
            EntryKind::Directory(identity) => if first_visit(
                seen_after(entries.drop_last(), seen),
                identity,
            ) {
                before.push((entries.len() - 1) as usize)
            } else {
                before
            },
            _ => before,
        }
    }
}

/// Goes through the listing of one directory in its order, parts files from
/// sub-directories and presents each sub-directory to the guard. A
/// sub-directory that the guard has seen before is dropped.
pub fn select_entries(entries: &Vec<EntryKind>, guard: &mut InodeGuard) -> (chosen: Selection)
    ensures
        chosen.files@ == files_of(entries@),
        chosen.subdirs@ == subdirs_of(entries@, old(guard)@),
        final(guard)@ == seen_after(entries@, old(guard)@),
{
    let mut subdirs: Vec<usize> = Vec::new();
    let mut files: Vec<usize> = Vec::new();
    let ghost start = guard@;
    let mut i: usize = 0;
    assert(entries@.subrange(0, 0) =~= Seq::<EntryKind>::empty());
    while i < entries.len()
        invariant
            i <= entries.len(),
            files@ == files_of(entries@.subrange(0, i as int)),
            subdirs@ == subdirs_of(entries@.subrange(0, i as int), start),
            guard@ == seen_after(entries@.subrange(0, i as int), start),
        decreases entries.len() - i,
    {
        assert(entries@.subrange(0, i + 1).drop_last() =~= entries@.subrange(0, i as int));
        match entries[i] {
            EntryKind::File => {
                files.push(i);
            },
            EntryKind::Directory(identity) => {
                if check_inode(guard, identity) {
                    subdirs.push(i);
                }
            },
            EntryKind::Other => {},
        }
        i += 1;
    }
    assert(entries@.subrange(0, i as int) =~= entries@);
    Selection { subdirs, files }
}

/// An identity that was presented once is refused the second time.
pub proof fn lemma_second_visit_refused(seen: Set<Identity>, id: Identity)
    ensures
        !first_visit(seen_with(seen, Some(id)), Some(id)),
{
}

/// The guard never forgets: what it had seen before a listing it has seen
/// after it, with the identity of every directory of the listing.
pub proof fn lemma_seen_after_grows(entries: Seq<EntryKind>, seen: Set<Identity>)
    ensures
        seen.subset_of(seen_after(entries, seen)),
        forall|k: int, id: Identity|
            0 <= k < entries.len() && #[trigger] entries[k] == EntryKind::Directory(Some(id))
                ==> #[trigger] seen_after(entries, seen).contains(id),
    decreases entries.len(),
{
    if entries.len() > 0 {
        let front = entries.drop_last();
        lemma_seen_after_grows(front, seen);
        assert forall|k: int, id: Identity|
            0 <= k < entries.len() && #[trigger] entries[k] == EntryKind::Directory(
                Some(id),
            ) implies #[trigger] seen_after(entries, seen).contains(id) by {
            if k < entries.len() - 1 {
                assert(front[k] == entries[k]);
                assert(seen_after(front, seen).contains(id));
            }
        }
    }
}

/// Every place among the walked sub-directories lies in the listing.
pub proof fn lemma_subdirs_in_range(entries: Seq<EntryKind>, seen: Set<Identity>)
    requires
        entries.len() <= usize::MAX,
    ensures
        forall|j: int|
            0 <= j < subdirs_of(entries, seen).len() ==> #[trigger] subdirs_of(entries, seen)[j]
                < entries.len(),
    decreases entries.len(),
{
    if entries.len() > 0 {
        let front = entries.drop_last();
        lemma_subdirs_in_range(front, seen);
        assert forall|j: int| 0 <= j < subdirs_of(entries, seen).len() implies #[trigger] subdirs_of(
            entries,
            seen,
        )[j] < entries.len() by {
            if j < subdirs_of(front, seen).len() {
                assert(subdirs_of(entries, seen)[j] == subdirs_of(front, seen)[j]);
            }
        }
    }
}

/// A directory whose identity the guard had seen before the listing is not
/// among the sub-directories that are walked: it gives its parent no entry.
pub proof fn lemma_seen_directory_dropped(entries: Seq<EntryKind>, seen: Set<Identity>, k: usize, id: Identity)
    requires
        entries.len() <= usize::MAX,
        k < entries.len(),
        entries[k as int] == EntryKind::Directory(Some(id)),
        seen.contains(id),
    ensures
        !subdirs_of(entries, seen).contains(k),
    decreases entries.len(),
{
    let front = entries.drop_last();
    let chosen = subdirs_of(entries, seen);
    lemma_subdirs_in_range(front, seen);
    lemma_seen_after_grows(front, seen);
    if k < entries.len() - 1 {
        assert(front[k as int] == entries[k as int]);
        lemma_seen_directory_dropped(front, seen, k, id);
    }
    assert forall|j: int| 0 <= j < chosen.len() implies chosen[j] != k by {
        if j < subdirs_of(front, seen).len() {
            assert(chosen[j] == subdirs_of(front, seen)[j]);
            if k < entries.len() - 1 {
                assert(subdirs_of(front, seen).contains(subdirs_of(front, seen)[j]));
            }
        } else {
            if k == entries.len() - 1 {
                assert(seen_after(front, seen).contains(id));
            }
        }
    }
}

/// A directory whose identity an earlier directory of the same listing has
/// shown is not among the sub-directories that are walked.
pub proof fn lemma_repeated_directory_dropped(
    entries: Seq<EntryKind>,
    seen: Set<Identity>,
    first: usize,
    k: usize,
    id: Identity,
)
    requires
        entries.len() <= usize::MAX,
        first < k < entries.len(),
        entries[first as int] == EntryKind::Directory(Some(id)),
        entries[k as int] == EntryKind::Directory(Some(id)),
    ensures
        !subdirs_of(entries, seen).contains(k),
    decreases entries.len(),
{
    let front = entries.drop_last();
    let chosen = subdirs_of(entries, seen);
    lemma_subdirs_in_range(front, seen);
    if k < entries.len() - 1 {
        assert(front[k as int] == entries[k as int]);
        assert(front[first as int] == entries[first as int]);
        lemma_repeated_directory_dropped(front, seen, first, k, id);
    } else {
        assert(front[first as int] == entries[first as int]);
        lemma_seen_after_grows(front, seen);
        assert(seen_after(front, seen).contains(id));
    }
    assert forall|j: int| 0 <= j < chosen.len() implies chosen[j] != k by {
        if j < subdirs_of(front, seen).len() {
            assert(chosen[j] == subdirs_of(front, seen)[j]);
            if k < entries.len() - 1 {
                assert(subdirs_of(front, seen).contains(subdirs_of(front, seen)[j]));
            }
        }
    }
}

} // verus!
