//! The index from fingerprint to the directories that share it, and the
//! assembly of one directory's record from its entries.

use crate::fingerprint::{blake2b_digest, file_preimage, name_view, FileHash};
use crate::record::{record_views, DirectoryData, RecordView};
use std::path::PathBuf;
use vstd::prelude::*;

verus! {

/// The directories that share one fingerprint, in the order in which they
/// were inserted.
#[derive(Debug)]
pub struct Bucket {
    pub key: FileHash,
    pub members: Vec<DirectoryData>,
}

/// A bucket as plain values.
pub ghost struct BucketView {
    pub key: Seq<u8>,
    pub members: Seq<RecordView>,
}

impl View for Bucket {
    type V = BucketView;

    open spec fn view(&self) -> BucketView {
        BucketView { key: self.key@, members: record_views(self.members@) }
    }
}

/// The index of one root's walk: a bucket for each fingerprint that occurred,
/// in the order in which the fingerprints first occurred.
#[derive(Debug)]
pub struct FingerprintIndex {
    pub buckets: Vec<Bucket>,
}

impl View for FingerprintIndex {
    type V = Seq<BucketView>;

    open spec fn view(&self) -> Seq<BucketView> {
        self.buckets@.map_values(|b: Bucket| b@)
    }
}

/// No bucket is empty.
pub open spec fn no_bucket_empty(buckets: Seq<BucketView>) -> bool {
    forall|i: int| 0 <= i < buckets.len() ==> (#[trigger] buckets[i]).members.len() > 0
}

/// No fingerprint has two buckets.
pub open spec fn keys_distinct(buckets: Seq<BucketView>) -> bool {
    forall|i: int, j: int|
        0 <= i < buckets.len() && 0 <= j < buckets.len() && i != j ==> (#[trigger] buckets[i]).key
            != (#[trigger] buckets[j]).key
}

/// Every directory lies in the bucket of its own fingerprint.
pub open spec fn members_match_key(buckets: Seq<BucketView>) -> bool {
    forall|i: int, k: int|
        0 <= i < buckets.len() && 0 <= k < buckets[i].members.len() ==> (
        #[trigger] buckets[i].members[k]).hash() == buckets[i].key
}

/// Whether some bucket has this fingerprint.
pub open spec fn has_key(buckets: Seq<BucketView>, key: Seq<u8>) -> bool {
    exists|i: int| 0 <= i < buckets.len() && (#[trigger] buckets[i]).key == key
}

/// The place of the first bucket with this fingerprint, where there is one.
pub open spec fn key_place(buckets: Seq<BucketView>, key: Seq<u8>) -> int {
    choose|i: int| is_first_place(buckets, key, i)
}

/// The bucket at `place` has this fingerprint, and no bucket before it has.
pub open spec fn is_first_place(buckets: Seq<BucketView>, key: Seq<u8>, place: int) -> bool {
    &&& 0 <= place < buckets.len()
    &&& buckets[place].key == key
    &&& forall|j: int| 0 <= j < place ==> (#[trigger] buckets[j]).key != key
}

/// The buckets are well formed: none is empty, no fingerprint has two, and
/// every directory lies in the bucket of its own fingerprint.
pub open spec fn well_formed(buckets: Seq<BucketView>) -> bool {
    no_bucket_empty(buckets) && keys_distinct(buckets) && members_match_key(buckets)
}

/// A first place is the place that `key_place` names.
proof fn lemma_first_place(buckets: Seq<BucketView>, key: Seq<u8>, place: int)
    requires
        is_first_place(buckets, key, place),
    ensures
        has_key(buckets, key),
        key_place(buckets, key) == place,
{
    let chosen = key_place(buckets, key);
    assert(is_first_place(buckets, key, chosen));
    if chosen < place {
        assert(buckets[chosen].key != key);
    }
    if place < chosen {
        assert(buckets[place].key != key);
    }
}

/// Inserting a record under its own fingerprint keeps the buckets well
/// formed.
pub proof fn lemma_insert_keeps_well_formed(buckets: Seq<BucketView>, record: RecordView)
    requires
        well_formed(buckets),
    ensures
        well_formed(insert_record(buckets, record.hash(), record)),
{
    let key = record.hash();
    let after = insert_record(buckets, key, record);
    if has_key(buckets, key) {
        let found = choose|i: int| 0 <= i < buckets.len() && (#[trigger] buckets[i]).key == key;
        assert forall|j: int| 0 <= j < found implies (#[trigger] buckets[j]).key != key by {
            assert(buckets[j].key != buckets[found].key);
        }
        lemma_first_place(buckets, key, found);
        assert forall|a: int, k: int|
            0 <= a < after.len() && 0 <= k < after[a].members.len() implies (
        #[trigger] after[a].members[k]).hash() == after[a].key by {
            if a == found && k < buckets[found].members.len() {
                assert(after[a].members[k] == buckets[a].members[k]);
            } else if a != found {
                assert(after[a].members[k] == buckets[a].members[k]);
            }
        }
        assert forall|a: int, b: int|
            0 <= a < after.len() && 0 <= b < after.len() && a != b implies (
        #[trigger] after[a]).key != (#[trigger] after[b]).key by {
            assert(after[a].key == buckets[a].key);
            assert(after[b].key == buckets[b].key);
        }
        assert forall|a: int| 0 <= a < after.len() implies (#[trigger] after[a]).members.len()
            > 0 by {
            if a != found {
                assert(after[a] == buckets[a]);
            }
        }
    } else {
        assert forall|a: int, k: int|
            0 <= a < after.len() && 0 <= k < after[a].members.len() implies (
        #[trigger] after[a].members[k]).hash() == after[a].key by {
            if a < buckets.len() {
                assert(after[a].members[k] == buckets[a].members[k]);
            }
        }
        assert forall|a: int, b: int|
            0 <= a < after.len() && 0 <= b < after.len() && a != b implies (
        #[trigger] after[a]).key != (#[trigger] after[b]).key by {
            if a < buckets.len() {
                assert(after[a].key == buckets[a].key);
            }
            if b < buckets.len() {
                assert(after[b].key == buckets[b].key);
            }
        }
        assert forall|a: int| 0 <= a < after.len() implies (#[trigger] after[a]).members.len()
            > 0 by {
            if a < buckets.len() {
                assert(after[a] == buckets[a]);
            }
        }
    }
}

/// The buckets once a record was inserted under a fingerprint: it is the
/// last member of the first bucket with that fingerprint, which is a new
/// last bucket where the fingerprint had none.
pub open spec fn insert_record(buckets: Seq<BucketView>, key: Seq<u8>, record: RecordView) -> Seq<
    BucketView,
> {
    if has_key(buckets, key) {
        let i = key_place(buckets, key);
        buckets.update(i, BucketView { key, members: buckets[i].members.push(record) })
    } else {
        buckets.push(BucketView { key, members: seq![record] })
    }
}

/// What a directory's parent keeps of it.
#[derive(Clone, Debug, PartialEq, Eq)]
pub struct Summary {
    pub hash: FileHash,
    pub descendant_number: u64,
    pub disk_size: u64,
}

/// A file of a directory: its base name, where the path yields one, and its
/// size in bytes.
#[derive(Clone, Debug, PartialEq, Eq)]
pub struct FileEntry {
    pub name: Option<Vec<u8>>,
    pub size: u64,
}

impl FingerprintIndex {
    /// The buckets are well formed.
    pub open spec fn wf(&self) -> bool {
        well_formed(self@)
    }

    /// An index without a bucket.
    pub fn new() -> (index: FingerprintIndex)
        ensures
            index@ == Seq::<BucketView>::empty(),
            index.wf(),
    {
        let index = FingerprintIndex { buckets: Vec::new() };
        assert(index@ =~= Seq::<BucketView>::empty());
        index
    }

    /// How many fingerprints the index holds.
    pub fn len(&self) -> (n: usize)
        ensures
            n == self@.len(),
    {
        self.buckets.len()
    }

    /// Inserts a finished record under its own fingerprint, and hands back
    /// what the directory's parent needs of it. A well-formed index stays
    /// well formed.
    pub fn insert(&mut self, record: DirectoryData) -> (summary: Summary)
        ensures
            final(self)@ == insert_record(old(self)@, record@.hash(), record@),
            old(self).wf() ==> final(self).wf(),
            summary.hash@ == record.hash_spec(),
            summary.hash@.len() == 64,
            summary.descendant_number == record.descendant_number,
            summary.disk_size == record.disk_size,
    {
        let hash = record.hash();
        let descendant_number = record.descendant_number;
        let disk_size = record.disk_size;
        let ghost before = self@;
        proof {
            if well_formed(before) {
                lemma_insert_keeps_well_formed(before, record@);
            }
        }
        let mut i: usize = 0;
        while i < self.buckets.len()
            invariant
                i <= self.buckets.len(),
                self@ == before,
                before == old(self)@,
                hash@ == record.hash_spec(),
                hash@.len() == 64,
                descendant_number == record.descendant_number,
                disk_size == record.disk_size,
                well_formed(before) ==> well_formed(insert_record(before, hash@, record@)),
                forall|j: int| 0 <= j < i ==> (#[trigger] before[j]).key != hash@,
            decreases self.buckets.len() - i,
        {
            if self.buckets[i].key.same_as(&hash) {
                let ghost at = i as int;
                assert(before[at] == self.buckets@[at]@);
                proof {
                    lemma_first_place(before, hash@, at);
                }
                let mut bucket = self.buckets.remove(i);
                let ghost held = bucket.members@;
                bucket.members.push(record);
                assert(record_views(bucket.members@) =~= record_views(held).push(record@));
                self.buckets.insert(i, bucket);
                assert(self@ =~= insert_record(before, hash@, record@));
                return Summary { hash, descendant_number, disk_size };
            }
            i += 1;
        }
        let key = hash.copy();
        let mut members: Vec<DirectoryData> = Vec::new();
        members.push(record);
        assert(record_views(members@) =~= seq![record@]);
        self.buckets.push(Bucket { key, members });
        assert(!has_key(before, hash@));
        assert(self@ =~= insert_record(before, hash@, record@));
        Summary { hash, descendant_number, disk_size }
    }

    /// Whether the buckets are well formed.
    pub fn is_wf(&self) -> (yes: bool)
        ensures
            yes == self.wf(),
    {
        let ghost all = self@;
        let mut i: usize = 0;
        while i < self.buckets.len()
            invariant
                i <= self.buckets.len(),
                all == self@,
                forall|a: int| 0 <= a < i ==> (#[trigger] all[a]).members.len() > 0,
                forall|a: int, b: int|
                    0 <= a < i && 0 <= b < a ==> (#[trigger] all[a]).key != (#[trigger] all[b]).key,
                forall|a: int, k: int|
                    0 <= a < i && 0 <= k < all[a].members.len() ==> (
                    #[trigger] all[a].members[k]).hash() == all[a].key,
            decreases self.buckets.len() - i,
        {
            let bucket = &self.buckets[i];
            assert(all[i as int] == bucket@);
            if bucket.members.len() == 0 {
                return false;
            }
            let mut b: usize = 0;
            while b < i
                invariant
                    b <= i < self.buckets.len(),
                    all == self@,
                    all[i as int] == bucket@,
                    forall|c: int| 0 <= c < b ==> all[i as int].key != (#[trigger] all[c]).key,
                decreases i - b,
            {
                assert(all[b as int] == self.buckets@[b as int]@);
                if self.buckets[b].key.same_as(&bucket.key) {
                    assert(all[i as int].key == all[b as int].key);
                    return false;
                }
                b += 1;
            }
            let mut k: usize = 0;
            while k < bucket.members.len()
                invariant
                    k <= bucket.members.len(),
                    i < self.buckets.len(),
                    all == self@,
                    all[i as int] == bucket@,
                    forall|m: int|
                        0 <= m < k ==> (#[trigger] all[i as int].members[m]).hash() == all[i as int].key,
                decreases bucket.members.len() - k,
            {
                let hash = bucket.members[k].hash();
                assert(all[i as int].members[k as int] == bucket.members@[k as int]@);
                if !hash.same_as(&bucket.key) {
                    assert(all[i as int].members[k as int].hash() != all[i as int].key);
                    return false;
                }
                k += 1;
            }
            i += 1;
        }
        assert forall|a: int, b: int|
            0 <= a < all.len() && 0 <= b < all.len() && a != b implies (#[trigger] all[a]).key != (
        #[trigger] all[b]).key by {
            if b < a {
            } else {
                assert(all[b].key != all[a].key);
            }
        }
        true
    }
}

/// The fingerprints of sub-directories that were walked, in their order.
pub open spec fn subdir_hashes(subdirs: Seq<Summary>) -> Seq<Seq<u8>> {
    subdirs.map_values(|s: Summary| s.hash@)
}

/// The fingerprints of files, in their order.
pub open spec fn file_hashes(files: Seq<FileEntry>) -> Seq<Seq<u8>> {
    files.map_values(|f: FileEntry| blake2b_digest(file_preimage(name_view(f.name), f.size)))
}

/// What sub-directories add to their parent's count: each counts for itself
/// and for what lies beneath it.
pub open spec fn subdir_descendants(subdirs: Seq<Summary>) -> nat
    decreases subdirs.len(),
{
    if subdirs.len() == 0 {
        0
    } else {
        (subdir_descendants(subdirs.drop_last()) + 1 + subdirs.last().descendant_number) as nat
    }
}

/// The sizes of sub-directories, added up.
pub open spec fn subdir_sizes(subdirs: Seq<Summary>) -> nat
    decreases subdirs.len(),
{
    if subdirs.len() == 0 {
        0
    } else {
        (subdir_sizes(subdirs.drop_last()) + subdirs.last().disk_size) as nat
    }
}

/// The sizes of files, added up.
pub open spec fn file_sizes(files: Seq<FileEntry>) -> nat
    decreases files.len(),
{
    if files.len() == 0 {
        0
    } else {
        (file_sizes(files.drop_last()) + files.last().size) as nat
    }
}

/// The record of a directory at `path` with these sub-directories and
/// these files: the sub-directories' fingerprints come first, then the
/// files'; every file counts for one and every sub-directory for one more
/// than what lies beneath it; the sizes are added up, and the directories
/// themselves weigh nothing.
pub open spec fn record_of(path: PathBuf, subdirs: Seq<Summary>, files: Seq<FileEntry>) -> RecordView
    recommends
        totals_fit(subdirs, files),
{
    RecordView {
        path,
        children: subdir_hashes(subdirs) + file_hashes(files),
        descendant_number: (files.len() + subdir_descendants(subdirs)) as u64,
        disk_size: (subdir_sizes(subdirs) + file_sizes(files)) as u64,
    }
}

/// The counts and sizes fit the machine's integers.
pub open spec fn totals_fit(subdirs: Seq<Summary>, files: Seq<FileEntry>) -> bool {
    &&& files.len() + subdir_descendants(subdirs) <= u64::MAX
    &&& subdir_sizes(subdirs) + file_sizes(files) <= u64::MAX
}

/// The sums over the first `n` sub-directories are no more than the sums
/// over all of them.
proof fn lemma_subdir_prefix(subdirs: Seq<Summary>, n: int)
    requires
        0 <= n <= subdirs.len(),
    ensures
        subdir_descendants(subdirs.subrange(0, n)) <= subdir_descendants(subdirs),
        subdir_sizes(subdirs.subrange(0, n)) <= subdir_sizes(subdirs),
    decreases subdirs.len(),
{
    if n == subdirs.len() {
        assert(subdirs.subrange(0, n) =~= subdirs);
    } else {
        lemma_subdir_prefix(subdirs.drop_last(), n);
        assert(subdirs.drop_last().subrange(0, n) =~= subdirs.subrange(0, n));
    }
}

/// The sum over the first `n` files is no more than the sum over all.
proof fn lemma_file_prefix(files: Seq<FileEntry>, n: int)
    requires
        0 <= n <= files.len(),
    ensures
        file_sizes(files.subrange(0, n)) <= file_sizes(files),
    decreases files.len(),
{
    if n == files.len() {
        assert(files.subrange(0, n) =~= files);
    } else {
        lemma_file_prefix(files.drop_last(), n);
        assert(files.drop_last().subrange(0, n) =~= files.subrange(0, n));
    }
}

/// Whether the counts and sizes of a directory's entries fit the machine's
/// integers, so that its record can be built.
pub fn check_totals(subdirs: &Vec<Summary>, files: &Vec<FileEntry>) -> (fits: bool)
    ensures
        fits == totals_fit(subdirs@, files@),
{
    let mut count: u64 = 0;
    let mut bytes: u64 = 0;
    let mut i: usize = 0;
    assert(subdirs@.subrange(0, 0) =~= Seq::<Summary>::empty());
    while i < subdirs.len()
        invariant
            i <= subdirs.len(),
            count == subdir_descendants(subdirs@.subrange(0, i as int)),
            bytes == subdir_sizes(subdirs@.subrange(0, i as int)),
        decreases subdirs.len() - i,
    {
        proof {
            lemma_subdir_prefix(subdirs@, i + 1);
            assert(subdirs@.subrange(0, i + 1).drop_last() =~= subdirs@.subrange(0, i as int));
        }
        if count == u64::MAX || subdirs[i].descendant_number > u64::MAX - 1 - count {
            return false;
        }
        if subdirs[i].disk_size > u64::MAX - bytes {
            return false;
        }
        count = count + 1 + subdirs[i].descendant_number;
        bytes = bytes + subdirs[i].disk_size;
        i += 1;
    }
    assert(subdirs@.subrange(0, i as int) =~= subdirs@);
    let mut k: usize = 0;
    assert(files@.subrange(0, 0) =~= Seq::<FileEntry>::empty());
    while k < files.len()
        invariant
            k <= files.len(),
            count == subdir_descendants(subdirs@) + k,
            bytes == subdir_sizes(subdirs@) + file_sizes(files@.subrange(0, k as int)),
        decreases files.len() - k,
    {
        proof {
            lemma_file_prefix(files@, k + 1);
            assert(files@.subrange(0, k + 1).drop_last() =~= files@.subrange(0, k as int));
        }
        if count == u64::MAX || files[k].size > u64::MAX - bytes {
            return false;
        }
        count = count + 1;
        bytes = bytes + files[k].size;
        k += 1;
    }
    assert(files@.subrange(0, k as int) =~= files@);
    true
}

/// Builds the record of a directory from the summaries of its
/// sub-directories, which were walked before, and from its files.
pub fn assemble(path: PathBuf, subdirs: &Vec<Summary>, files: &Vec<FileEntry>) -> (record:
    DirectoryData)
    requires
        totals_fit(subdirs@, files@),
    ensures
        record@ == record_of(path, subdirs@, files@),
{
    let mut dir_data = DirectoryData::new(path);
    let mut i: usize = 0;
    assert(subdirs@.subrange(0, 0) =~= Seq::<Summary>::empty());
    while i < subdirs.len()
        invariant
            i <= subdirs.len(),
            totals_fit(subdirs@, files@),
            dir_data@.path == path,
            dir_data.children_view() == subdir_hashes(subdirs@.subrange(0, i as int)),
            dir_data.descendant_number == subdir_descendants(subdirs@.subrange(0, i as int)),
            dir_data.disk_size == subdir_sizes(subdirs@.subrange(0, i as int)),
        decreases subdirs.len() - i,
    {
        proof {
            lemma_subdir_prefix(subdirs@, i + 1);
            assert(subdirs@.subrange(0, i + 1).drop_last() =~= subdirs@.subrange(0, i as int));
        }
        let hash = subdirs[i].hash.copy();
        dir_data.add_subdirectory(hash, subdirs[i].descendant_number, subdirs[i].disk_size);
        i += 1;
        assert(dir_data.children_view() =~= subdir_hashes(subdirs@.subrange(0, i as int)));
    }
    assert(subdirs@.subrange(0, i as int) =~= subdirs@);
    let mut k: usize = 0;
    assert(files@.subrange(0, 0) =~= Seq::<FileEntry>::empty());
    assert(dir_data.children_view() =~= subdir_hashes(subdirs@) + file_hashes(
        files@.subrange(0, 0),
    ));
    while k < files.len()
        invariant
            k <= files.len(),
            totals_fit(subdirs@, files@),
            dir_data@.path == path,
            dir_data.children_view() == subdir_hashes(subdirs@) + file_hashes(
                files@.subrange(0, k as int),
            ),
            dir_data.descendant_number == subdir_descendants(subdirs@) + k,
            dir_data.disk_size == subdir_sizes(subdirs@) + file_sizes(files@.subrange(0, k as int)),
        decreases files.len() - k,
    {
        proof {
            lemma_file_prefix(files@, k + 1);
            assert(files@.subrange(0, k + 1).drop_last() =~= files@.subrange(0, k as int));
        }
        dir_data.add_file(&files[k].name, files[k].size);
        k += 1;
        assert(dir_data.children_view() =~= subdir_hashes(subdirs@) + file_hashes(
            files@.subrange(0, k as int),
        ));
    }
    assert(files@.subrange(0, k as int) =~= files@);
    dir_data
}

/// Finishes the walk of one directory: builds its record from its
/// sub-directories' summaries and its files, inserts the record into the index
/// under its own fingerprint, and hands back the directory's own summary
/// for its parent. A well-formed index stays well formed.
pub fn crawl_directory(
    path: PathBuf,
    subdirs: &Vec<Summary>,
    files: &Vec<FileEntry>,
    map: &mut FingerprintIndex,
) -> (summary: Summary)
    requires
        totals_fit(subdirs@, files@),
    ensures
        old(map).wf() ==> final(map).wf(),
        final(map)@ == insert_record(
            old(map)@,
            record_of(path, subdirs@, files@).hash(),
            record_of(path, subdirs@, files@),
        ),
        summary.hash@ == record_of(path, subdirs@, files@).hash(),
        summary.hash@.len() == 64,
        summary.descendant_number == files@.len() + subdir_descendants(subdirs@),
        summary.disk_size == subdir_sizes(subdirs@) + file_sizes(files@),
{
    let record = assemble(path, subdirs, files);
    map.insert(record)
}

} // verus!
