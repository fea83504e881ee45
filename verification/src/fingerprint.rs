//! Fingerprints: opaque digests that serve as equality keys.

use byteorder::{ByteOrder, LittleEndian};
use vstd::bytes::{lemma_auto_spec_u64_to_from_le_bytes, spec_u64_from_le_bytes, spec_u64_to_le_bytes};
use vstd::prelude::*;

verus! {

/// The digest of a file or of a directory. It is only ever compared.
#[derive(Clone, Debug, PartialEq, Eq, Hash)]
pub struct FileHash(pub Vec<u8>);

impl View for FileHash {
    type V = Seq<u8>;

    open spec fn view(&self) -> Seq<u8> {
        self.0@
    }
}

/// The BLAKE2b digest, of 512 bits, of a byte string.
pub uninterp spec fn blake2b_digest(data: Seq<u8>) -> Seq<u8>;

/// Calls `blake2::Blake2b` through the `Digest` trait: a fresh state, one
/// `input` of the whole of `data`, then `result`. The contract claims that
/// the bytes handed back are a function of the bytes handed in, and that
/// there are 64 of them.
#[verifier::external_body]
pub(crate) fn blake2b(data: &Vec<u8>) -> (out: Vec<u8>)
    ensures
        out@ == blake2b_digest(data@),
        out@.len() == 64,
{
    let mut digest = blake2::Blake2b::default();
    blake2::Digest::input(&mut digest, data);
    blake2::Digest::result(digest).to_vec()
}

/// Calls `byteorder::LittleEndian::write_u64` on a buffer of eight bytes. The
/// contract claims that the buffer then holds `size` with the least
/// significant byte first.
#[verifier::external_body]
pub(crate) fn size_to_le_bytes(size: u64) -> (out: Vec<u8>)
    ensures
        out@ == spec_u64_to_le_bytes(size),
{
    let mut buf = [0u8; 8];
    LittleEndian::write_u64(&mut buf, size);
    buf.to_vec()
}

/// Appends the bytes of `src` to `buf`.
pub(crate) fn append_bytes(buf: &mut Vec<u8>, src: &Vec<u8>)
    ensures
        final(buf)@ == old(buf)@ + src@,
{
    let ghost before = buf@;
    let mut i: usize = 0;
    while i < src.len()
        invariant
            i <= src.len(),
            buf@ == before + src@.subrange(0, i as int),
        decreases src.len() - i,
    {
        buf.push(src[i]);
        i += 1;
        assert(buf@ =~= before + src@.subrange(0, i as int));
    }
    assert(src@.subrange(0, src.len() as int) =~= src@);
}

/// The name that stands in for a file whose path yields none: the bytes of
/// `no file name`.
pub open spec fn missing_name() -> Seq<u8> {
    seq![110u8, 111u8, 32u8, 102u8, 105u8, 108u8, 101u8, 32u8, 110u8, 97u8, 109u8, 101u8]
}

/// The bytes that are digested for a file: its name, then its size as
/// eight little-endian bytes.
pub open spec fn file_preimage(name: Option<Seq<u8>>, size: u64) -> Seq<u8> {
    let shown = match name {
        Some(n) => n,
        None => missing_name(),
    };
    shown + spec_u64_to_le_bytes(size)
}

/// The view of an optional name.
pub open spec fn name_view(name: Option<Vec<u8>>) -> Option<Seq<u8>> {
    match name {
        Some(n) => Some(n@),
        None => None,
    }
}

impl FileHash {
    /// Whether two fingerprints are the same bytes.
    pub fn same_as(&self, other: &FileHash) -> (same: bool)
        ensures
            same == (self@ == other@),
    {
        if self.0.len() != other.0.len() {
            return false;
        }
        let mut i: usize = 0;
        while i < self.0.len()
            invariant
                i <= self.0.len(),
                self.0.len() == other.0.len(),
                forall|j: int| 0 <= j < i ==> self.0@[j] == other.0@[j],
            decreases self.0.len() - i,
        {
            if self.0[i] != other.0[i] {
                return false;
            }
            i += 1;
        }
        assert(self@ =~= other@);
        true
    }

    /// A second fingerprint of the same bytes.
    pub fn copy(&self) -> (twin: FileHash)
        ensures
            twin@ == self@,
    {
        let mut bytes: Vec<u8> = Vec::new();
        append_bytes(&mut bytes, &self.0);
        assert(bytes@ =~= self.0@);
        FileHash(bytes)
    }
}

/// Fingerprints a file from its base name and its size in bytes. The content
/// is never read. A file without a name gets the fixed name `missing_name`.
pub fn hash_file_metadata(name: &Option<Vec<u8>>, size: u64) -> (hash: FileHash)
    ensures
        hash@ == blake2b_digest(file_preimage(name_view(*name), size)),
        hash@.len() == 64,
{
    let mut data: Vec<u8> = Vec::new();
    match name {
        Some(n) => {
            append_bytes(&mut data, n);
            assert(data@ =~= n@);
        },
        None => {
            data = vec![110u8, 111u8, 32u8, 102u8, 105u8, 108u8, 101u8, 32u8, 110u8, 97u8, 109u8, 101u8];
            assert(data@ =~= missing_name());
        },
    }
    let wtr = size_to_le_bytes(size);
    append_bytes(&mut data, &wtr);
    FileHash(blake2b(&data))
}

/// Two files with the same name and the same size have the same fingerprint.
pub proof fn lemma_same_name_and_size_same_hash(
    name_a: Option<Seq<u8>>,
    size_a: u64,
    name_b: Option<Seq<u8>>,
    size_b: u64,
)
    requires
        name_a == name_b,
        size_a == size_b,
    ensures
        blake2b_digest(file_preimage(name_a, size_a)) == blake2b_digest(
            file_preimage(name_b, size_b),
        ),
{
}

/// The bytes digested for a named file determine both its name and its size:
/// two named files are digested from the same bytes only if they agree in
/// both.
pub proof fn lemma_preimage_determines_name_and_size(
    name_a: Seq<u8>,
    size_a: u64,
    name_b: Seq<u8>,
    size_b: u64,
)
    ensures
        file_preimage(Some(name_a), size_a) == file_preimage(Some(name_b), size_b) <==> (name_a
            == name_b && size_a == size_b),
{
    lemma_auto_spec_u64_to_from_le_bytes();
    let a = file_preimage(Some(name_a), size_a);
    let b = file_preimage(Some(name_b), size_b);
    if a == b {
        assert(a.len() == name_a.len() + 8);
        assert(b.len() == name_b.len() + 8);
        assert(a.subrange(0, name_a.len() as int) =~= name_a);
        assert(b.subrange(0, name_b.len() as int) =~= name_b);
        assert(a.subrange(name_a.len() as int, a.len() as int) =~= spec_u64_to_le_bytes(size_a));
        assert(b.subrange(name_b.len() as int, b.len() as int) =~= spec_u64_to_le_bytes(size_b));
        assert(spec_u64_from_le_bytes(spec_u64_to_le_bytes(size_a)) == size_a);
        assert(spec_u64_from_le_bytes(spec_u64_to_le_bytes(size_b)) == size_b);
    }
}

} // verus!
