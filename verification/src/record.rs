//! The record of one directory.

use crate::fingerprint::{append_bytes, blake2b, blake2b_digest, file_preimage, hash_file_metadata, name_view, FileHash};
use std::path::PathBuf;
use vstd::prelude::*;

verus! {

/// `std::path::PathBuf`: a path as the platform holds it. The library carries
/// it through and never looks inside.
#[verifier::external_type_specification]
#[verifier::external_body]
pub struct ExPathBuf(std::path::PathBuf);

/// What is kept of one directory that was visited.
#[derive(Debug, PartialEq, Eq)]
pub struct DirectoryData {
    /// Where the directory lies.
    pub path: PathBuf,
    /// The fingerprints of its entries, in the order in which they were added.
    pub children_hashes: Vec<FileHash>,
    /// How many files and directories lie beneath it, at any depth.
    pub descendant_number: u64,
    /// The sizes of the files beneath it, at any depth, added up.
    pub disk_size: u64,
}

/// A record as plain values.
pub ghost struct RecordView {
    pub path: PathBuf,
    pub children: Seq<Seq<u8>>,
    pub descendant_number: u64,
    pub disk_size: u64,
}

impl RecordView {
    /// The fingerprint of the directory: the digest of its entries'
    /// fingerprints, in their order.
    pub open spec fn hash(self) -> Seq<u8> {
        blake2b_digest(concat_hashes(self.children))
    }
}

impl View for DirectoryData {
    type V = RecordView;

    open spec fn view(&self) -> RecordView {
        RecordView {
            path: self.path,
            children: hash_views(self.children_hashes@),
            descendant_number: self.descendant_number,
            disk_size: self.disk_size,
        }
    }
}

/// The records of a sequence, each as plain values.
pub open spec fn record_views(records: Seq<DirectoryData>) -> Seq<RecordView> {
    records.map_values(|d: DirectoryData| d@)
}

/// The bytes of a sequence of fingerprints, one after the other.
pub open spec fn concat_hashes(hashes: Seq<Seq<u8>>) -> Seq<u8>
    decreases hashes.len(),
{
    if hashes.len() == 0 {
        Seq::empty()
    } else {
        concat_hashes(hashes.drop_last()) + hashes.last()
    }
}

/// The fingerprints of a sequence, each as its bytes.
pub open spec fn hash_views(hashes: Seq<FileHash>) -> Seq<Seq<u8>> {
    hashes.map_values(|h: FileHash| h@)
}

impl DirectoryData {
    /// The fingerprint of the directory: the digest of its entries'
    /// fingerprints, in their order.
    pub open spec fn hash_spec(&self) -> Seq<u8> {
        self@.hash()
    }

    /// The fingerprints of the entries, in the order in which they were added.
    pub open spec fn children_view(&self) -> Seq<Seq<u8>> {
        hash_views(self.children_hashes@)
    }

    /// The directory has no entry.
    pub open spec fn is_empty_spec(&self) -> bool {
        self.children_hashes@.len() == 0 && self.descendant_number == 0
    }

    /// The record of a directory of which no entry has been added yet.
    pub fn new(path: PathBuf) -> (data: DirectoryData)
        ensures
            data@.path == path,
            data.children_view() == Seq::<Seq<u8>>::empty(),
            data.descendant_number == 0,
            data.disk_size == 0,
            data.is_empty_spec(),
    {
        let data = DirectoryData {
            path,
            children_hashes: Vec::new(),
            descendant_number: 0,
            disk_size: 0,
        };
        assert(data.children_view() =~= Seq::<Seq<u8>>::empty());
        data
    }

    /// Computes the directory's fingerprint.
    pub fn hash(&self) -> (hash: FileHash)
        ensures
            hash@ == self.hash_spec(),
            hash@.len() == 64,
    {
        let mut data: Vec<u8> = Vec::new();
        let mut i: usize = 0;
        let ghost views = self.children_view();
        assert(views.subrange(0, 0) =~= Seq::<Seq<u8>>::empty());
        while i < self.children_hashes.len()
            invariant
                i <= self.children_hashes.len(),
                views == self.children_view(),
                data@ == concat_hashes(views.subrange(0, i as int)),
            decreases self.children_hashes.len() - i,
        {
            append_bytes(&mut data, &self.children_hashes[i].0);
            i += 1;
            assert(views.subrange(0, i as int).drop_last() =~= views.subrange(0, i - 1));
        }
        assert(views.subrange(0, i as int) =~= views);
        FileHash(blake2b(&data))
    }

    /// Adds a sub-directory that has been walked: its fingerprint becomes the
    /// last entry, it counts for itself and for what lies beneath it, and its
    /// size is added.
    pub fn add_subdirectory(&mut self, hash: FileHash, descendant_number: u64, disk_size: u64)
        requires
            old(self).descendant_number + 1 + descendant_number <= u64::MAX,
            old(self).disk_size + disk_size <= u64::MAX,
        ensures
            final(self)@.path == old(self)@.path,
            final(self).children_view() == old(self).children_view().push(hash@),
            final(self).descendant_number == old(self).descendant_number + 1 + descendant_number,
            final(self).disk_size == old(self).disk_size + disk_size,
            !final(self).is_empty_spec(),
    {
        self.children_hashes.push(hash);
        self.descendant_number = self.descendant_number + 1 + descendant_number;
        self.disk_size = self.disk_size + disk_size;
        assert(self.children_view() =~= old(self).children_view().push(hash@));
    }

    /// Adds a file: its fingerprint becomes the last entry, it counts for
    /// one, and its size is added.
    pub fn add_file(&mut self, name: &Option<Vec<u8>>, size: u64)
        requires
            old(self).descendant_number + 1 <= u64::MAX,
            old(self).disk_size + size <= u64::MAX,
        ensures
            final(self)@.path == old(self)@.path,
            final(self).children_view() == old(self).children_view().push(
                blake2b_digest(file_preimage(name_view(*name), size)),
            ),
            final(self).children_view().last().len() == 64,
            final(self).descendant_number == old(self).descendant_number + 1,
            final(self).disk_size == old(self).disk_size + size,
            !final(self).is_empty_spec(),
    {
        let hash = hash_file_metadata(name, size);
        self.children_hashes.push(hash);
        self.descendant_number = self.descendant_number + 1;
        self.disk_size = self.disk_size + size;
        assert(self.children_view() =~= old(self).children_view().push(hash@));
    }
}

} // verus!
