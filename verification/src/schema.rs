//! Byte layout of the archive header and TOC entries: field-by-field
//! little-endian encoding and decoding, and the fixed null-terminated
//! filename buffers.

use vstd::prelude::*;
use vstd::bytes::{
    lemma_auto_spec_u32_to_from_le_bytes, spec_u32_from_le_bytes, spec_u32_to_le_bytes,
    u32_from_le_bytes, u32_to_le_bytes,
};
use vstd::slice::{slice_subrange, slice_to_vec};
use vstd::utf8::{decode_utf8, encode_utf8, encode_utf8_decode_utf8, encode_utf8_valid_utf8,
    valid_utf8};
use crate::AosError;

verus! {

/// Size in bytes of the fixed archive header.
pub const HEADER_SIZE: usize = 273;

/// Size in bytes of one TOC entry.
pub const ENTRY_SIZE: usize = 40;

/// Size in bytes of an entry's fixed filename buffer (name plus terminator).
pub const FILENAME_SIZE: usize = 32;

/// Size in bytes of the header's fixed archive-name buffer.
pub const ARCHIVE_NAME_SIZE: usize = 261;

/// Mathematical model of an archive header.
#[verifier::ext_equal]
pub ghost struct HeaderModel {
    pub unknown1: u32,
    pub data_offset: u32,
    pub toc_length: u32,
    pub archive_name: Seq<u8>,
}

/// The archive header: three little-endian 32-bit fields followed by a
/// 261-byte null-padded archive name.
#[derive(Debug, PartialEq, Eq)]
pub struct AosV2Hdr {
    pub unknown1: u32,
    pub data_offset: u32,
    pub toc_length: u32,
    pub archive_name: Vec<u8>,
}

impl AosV2Hdr {
    /// The archive-name buffer has its fixed size.
    pub open spec fn wf(&self) -> bool {
        self.archive_name@.len() == ARCHIVE_NAME_SIZE
    }
}

impl View for AosV2Hdr {
    type V = HeaderModel;

    open spec fn view(&self) -> HeaderModel {
        HeaderModel {
            unknown1: self.unknown1,
            data_offset: self.data_offset,
            toc_length: self.toc_length,
            archive_name: self.archive_name@,
        }
    }
}

/// Mathematical model of one TOC entry.
#[verifier::ext_equal]
pub ghost struct EntryModel {
    pub filename: Seq<u8>,
    pub offset: u32,
    pub length: u32,
}

/// One TOC entry: a 32-byte null-padded filename buffer followed by the
/// entry's data offset and length, both little-endian 32-bit.
#[derive(Debug, PartialEq, Eq)]
pub struct AosV2Entry {
    pub filename: Vec<u8>,
    pub offset: u32,
    pub length: u32,
}

impl AosV2Entry {
    /// The filename buffer has its fixed size.
    pub open spec fn wf(&self) -> bool {
        self.filename@.len() == FILENAME_SIZE
    }

    /// The entry's stored filename, null-truncated and decoded as UTF-8;
    /// fails when the stored bytes are not valid UTF-8.
    pub fn get_filename_str(&self) -> (r: Result<String, AosError>)
        ensures
            valid_utf8(spec_filename_prefix(self.filename@)) ==> r is Ok && r.unwrap()@
                == decode_utf8(spec_filename_prefix(self.filename@)),
            !valid_utf8(spec_filename_prefix(self.filename@)) ==> r == Err::<String, AosError>(
                AosError::InvalidFilename,
            ),
    {
        filename_to_string(self.filename.as_slice())
    }
}

impl View for AosV2Entry {
    type V = EntryModel;

    open spec fn view(&self) -> EntryModel {
        EntryModel { filename: self.filename@, offset: self.offset, length: self.length }
    }
}

/// Mathematical model of one named file: its name's characters and its
/// content bytes.
#[verifier::ext_equal]
pub ghost struct FileModel {
    pub name: Seq<char>,
    pub data: Seq<u8>,
}

/// One named file: what the packer consumes and the unpacker produces.
#[derive(Debug, PartialEq, Eq)]
pub struct ArchiveFile {
    pub name: String,
    pub data: Vec<u8>,
}

impl View for ArchiveFile {
    type V = FileModel;

    open spec fn view(&self) -> FileModel {
        FileModel { name: self.name@, data: self.data@ }
    }
}

/// The models of a sequence of files.
pub open spec fn spec_file_models(files: Seq<ArchiveFile>) -> Seq<FileModel> {
    Seq::new(files.len(), |i: int| files[i]@)
}

/// The exact bytes a header encodes to.
pub open spec fn spec_encode_header(h: HeaderModel) -> Seq<u8> {
    spec_u32_to_le_bytes(h.unknown1) + spec_u32_to_le_bytes(h.data_offset) + spec_u32_to_le_bytes(
        h.toc_length,
    ) + h.archive_name
}

/// The header a byte sequence's first `HEADER_SIZE` bytes decode to.
pub open spec fn spec_decode_header(b: Seq<u8>) -> HeaderModel
    recommends
        b.len() >= HEADER_SIZE,
{
    HeaderModel {
        unknown1: spec_u32_from_le_bytes(b.subrange(0, 4)),
        data_offset: spec_u32_from_le_bytes(b.subrange(4, 8)),
        toc_length: spec_u32_from_le_bytes(b.subrange(8, 12)),
        archive_name: b.subrange(12, HEADER_SIZE as int),
    }
}

/// The exact bytes an entry encodes to.
pub open spec fn spec_encode_entry(e: EntryModel) -> Seq<u8> {
    e.filename + spec_u32_to_le_bytes(e.offset) + spec_u32_to_le_bytes(e.length)
}

/// The entry a byte sequence's first `ENTRY_SIZE` bytes decode to.
pub open spec fn spec_decode_entry(b: Seq<u8>) -> EntryModel
    recommends
        b.len() >= ENTRY_SIZE,
{
    EntryModel {
        filename: b.subrange(0, FILENAME_SIZE as int),
        offset: spec_u32_from_le_bytes(b.subrange(32, 36)),
        length: spec_u32_from_le_bytes(b.subrange(36, 40)),
    }
}

/// Encodes a header to its fixed-size byte representation.
pub fn encode_header(h: &AosV2Hdr) -> (r: Vec<u8>)
    requires
        h.wf(),
    ensures
        r@ == spec_encode_header(h@),
        r@.len() == HEADER_SIZE,
{
    proof {
        lemma_auto_spec_u32_to_from_le_bytes();
    }
    let mut out = u32_to_le_bytes(h.unknown1);
    let mut b2 = u32_to_le_bytes(h.data_offset);
    out.append(&mut b2);
    let mut b3 = u32_to_le_bytes(h.toc_length);
    out.append(&mut b3);
    let mut i: usize = 0;
    while i < h.archive_name.len()
        invariant
            i <= h.archive_name@.len(),
            out@ == spec_u32_to_le_bytes(h.unknown1) + spec_u32_to_le_bytes(h.data_offset)
                + spec_u32_to_le_bytes(h.toc_length) + h.archive_name@.subrange(0, i as int),
        decreases h.archive_name@.len() - i,
    {
        out.push(h.archive_name[i]);
        i = i + 1;
        proof {
            assert(h.archive_name@.subrange(0, i as int) =~= h.archive_name@.subrange(
                0,
                i - 1,
            ).push(h.archive_name@[i - 1]));
        }
    }
    proof {
        assert(h.archive_name@.subrange(0, h.archive_name@.len() as int) =~= h.archive_name@);
        lemma_auto_spec_u32_to_from_le_bytes();
    }
    out
}

/// Decodes a header from the first `HEADER_SIZE` bytes; fails when fewer
/// bytes are available.
pub fn decode_header(bytes: &[u8]) -> (r: Result<AosV2Hdr, AosError>)
    ensures
        bytes@.len() >= HEADER_SIZE ==> r is Ok && r.unwrap()@ == spec_decode_header(bytes@)
            && r.unwrap().wf(),
        bytes@.len() < HEADER_SIZE ==> r == Err::<AosV2Hdr, AosError>(AosError::TruncatedInput),
{
    if bytes.len() < HEADER_SIZE {
        return Err(AosError::TruncatedInput);
    }
    let unknown1 = u32_from_le_bytes(slice_subrange(bytes, 0, 4));
    let data_offset = u32_from_le_bytes(slice_subrange(bytes, 4, 8));
    let toc_length = u32_from_le_bytes(slice_subrange(bytes, 8, 12));
    let archive_name = slice_to_vec(slice_subrange(bytes, 12, HEADER_SIZE));
    let h = AosV2Hdr { unknown1, data_offset, toc_length, archive_name };
    proof {
        assert(h@ =~= spec_decode_header(bytes@));
    }
    Ok(h)
}

/// Encodes an entry to its fixed-size byte representation.
pub fn encode_entry(e: &AosV2Entry) -> (r: Vec<u8>)
    requires
        e.wf(),
    ensures
        r@ == spec_encode_entry(e@),
        r@.len() == ENTRY_SIZE,
{
    proof {
        lemma_auto_spec_u32_to_from_le_bytes();
    }
    let mut out: Vec<u8> = Vec::new();
    let mut i: usize = 0;
    while i < e.filename.len()
        invariant
            i <= e.filename@.len(),
            out@ == e.filename@.subrange(0, i as int),
        decreases e.filename@.len() - i,
    {
        out.push(e.filename[i]);
        i = i + 1;
        proof {
            assert(e.filename@.subrange(0, i as int) =~= e.filename@.subrange(0, i - 1).push(
                e.filename@[i - 1],
            ));
        }
    }
    proof {
        assert(e.filename@.subrange(0, e.filename@.len() as int) =~= e.filename@);
    }
    let mut b2 = u32_to_le_bytes(e.offset);
    out.append(&mut b2);
    let mut b3 = u32_to_le_bytes(e.length);
    out.append(&mut b3);
    proof {
        lemma_auto_spec_u32_to_from_le_bytes();
    }
    out
}

/// Decodes an entry from the first `ENTRY_SIZE` bytes; fails when fewer
/// bytes are available.
pub fn decode_entry(bytes: &[u8]) -> (r: Result<AosV2Entry, AosError>)
    ensures
        bytes@.len() >= ENTRY_SIZE ==> r is Ok && r.unwrap()@ == spec_decode_entry(bytes@)
            && r.unwrap().wf(),
        bytes@.len() < ENTRY_SIZE ==> r == Err::<AosV2Entry, AosError>(AosError::TruncatedInput),
{
    if bytes.len() < ENTRY_SIZE {
        return Err(AosError::TruncatedInput);
    }
    let filename = slice_to_vec(slice_subrange(bytes, 0, FILENAME_SIZE));
    let offset = u32_from_le_bytes(slice_subrange(bytes, 32, 36));
    let length = u32_from_le_bytes(slice_subrange(bytes, 36, 40));
    let e = AosV2Entry { filename, offset, length };
    proof {
        assert(e@ =~= spec_decode_entry(bytes@));
    }
    Ok(e)
}

/// Decoding the bytes a header encodes to gives the header back, whatever
/// bytes follow them.
pub proof fn lemma_decode_header_prefix(h: HeaderModel, rest: Seq<u8>)
    requires
        h.archive_name.len() == ARCHIVE_NAME_SIZE,
    ensures
        spec_encode_header(h).len() == HEADER_SIZE,
        spec_decode_header(spec_encode_header(h) + rest) == h,
{
    lemma_auto_spec_u32_to_from_le_bytes();
    let b = spec_encode_header(h) + rest;
    assert(b.subrange(0, 4) =~= spec_u32_to_le_bytes(h.unknown1));
    assert(b.subrange(4, 8) =~= spec_u32_to_le_bytes(h.data_offset));
    assert(b.subrange(8, 12) =~= spec_u32_to_le_bytes(h.toc_length));
    assert(b.subrange(12, HEADER_SIZE as int) =~= h.archive_name);
    assert(spec_decode_header(b) =~= h);
}

/// Round trip at the header level: decoding an encoded header gives it back.
pub proof fn lemma_header_round_trip(h: HeaderModel)
    requires
        h.archive_name.len() == ARCHIVE_NAME_SIZE,
    ensures
        spec_decode_header(spec_encode_header(h)) == h,
{
    lemma_decode_header_prefix(h, Seq::empty());
    assert(spec_encode_header(h) + Seq::<u8>::empty() =~= spec_encode_header(h));
}

/// Decoding the bytes an entry encodes to gives the entry back, whatever
/// bytes follow them.
pub proof fn lemma_decode_entry_prefix(e: EntryModel, rest: Seq<u8>)
    requires
        e.filename.len() == FILENAME_SIZE,
    ensures
        spec_encode_entry(e).len() == ENTRY_SIZE,
        spec_decode_entry(spec_encode_entry(e) + rest) == e,
{
    lemma_auto_spec_u32_to_from_le_bytes();
    let b = spec_encode_entry(e) + rest;
    assert(b.subrange(0, FILENAME_SIZE as int) =~= e.filename);
    assert(b.subrange(32, 36) =~= spec_u32_to_le_bytes(e.offset));
    assert(b.subrange(36, 40) =~= spec_u32_to_le_bytes(e.length));
    assert(spec_decode_entry(b) =~= e);
}

/// Round trip at the entry level: decoding an encoded entry gives it back.
pub proof fn lemma_entry_round_trip(e: EntryModel)
    requires
        e.filename.len() == FILENAME_SIZE,
    ensures
        spec_decode_entry(spec_encode_entry(e)) == e,
{
    lemma_decode_entry_prefix(e, Seq::empty());
    assert(spec_encode_entry(e) + Seq::<u8>::empty() =~= spec_encode_entry(e));
}

/// Index of the first zero byte, or the length when there is none.
pub open spec fn spec_first_null(s: Seq<u8>) -> int
    decreases s.len(),
{
    if s.len() == 0 {
        0
    } else if s[0] == 0 {
        0
    } else {
        1 + spec_first_null(s.skip(1))
    }
}

/// The bytes before the first zero byte: the stored name proper.
pub open spec fn spec_filename_prefix(name: Seq<u8>) -> Seq<u8> {
    name.take(spec_first_null(name))
}

/// `bytes` extended with zero bytes up to `size`.
pub open spec fn spec_zero_pad(bytes: Seq<u8>, size: int) -> Seq<u8>
    recommends
        bytes.len() <= size,
{
    bytes + Seq::new((size - bytes.len()) as nat, |i: int| 0u8)
}

/// Relies on `String::from_utf8`: it returns `Ok` exactly when the bytes are
/// valid UTF-8, and then the string's characters are the bytes' decoding.
#[verifier::external_body]
fn bytes_to_utf8_string(bytes: &[u8]) -> (r: Option<String>)
    ensures
        r is Some <==> valid_utf8(bytes@),
        r is Some ==> r.unwrap()@ == decode_utf8(bytes@),
{
    String::from_utf8(bytes.to_vec()).ok()
}

/// Locates the first zero byte (or the end of the buffer) and decodes the
/// preceding bytes as UTF-8; fails when they are not valid UTF-8.
pub fn filename_to_string(buffer: &[u8]) -> (r: Result<String, AosError>)
    ensures
        valid_utf8(spec_filename_prefix(buffer@)) ==> r is Ok && r.unwrap()@ == decode_utf8(
            spec_filename_prefix(buffer@),
        ),
        !valid_utf8(spec_filename_prefix(buffer@)) ==> r == Err::<String, AosError>(
            AosError::InvalidFilename,
        ),
{
    let mut i: usize = 0;
    while i < buffer.len() && buffer[i] != 0
        invariant
            i <= buffer@.len(),
            forall|j: int| 0 <= j < i ==> buffer@[j] != 0,
        decreases buffer@.len() - i,
    {
        i = i + 1;
    }
    proof {
        lemma_first_null_at(buffer@, i as int);
    }
    let prefix = slice_subrange(buffer, 0, i);
    match bytes_to_utf8_string(prefix) {
        Some(s) => Ok(s),
        None => Err(AosError::InvalidFilename),
    }
}

/// Builds the fixed filename buffer for a name: the name's UTF-8 bytes,
/// zero-padded; fails when the name (with its terminator) does not fit.
pub fn string_to_filename(name: &str) -> (r: Result<Vec<u8>, AosError>)
    ensures
        encode_utf8(name@).len() < FILENAME_SIZE ==> r is Ok && r.unwrap()@ == spec_zero_pad(
            encode_utf8(name@),
            FILENAME_SIZE as int,
        ),
        encode_utf8(name@).len() >= FILENAME_SIZE ==> r == Err::<Vec<u8>, AosError>(
            AosError::FilenameTooLong,
        ),
{
    let bytes = name.as_bytes();
    if bytes.len() >= FILENAME_SIZE {
        return Err(AosError::FilenameTooLong);
    }
    let mut out = slice_to_vec(bytes);
    while out.len() < FILENAME_SIZE
        invariant
            encode_utf8(name@).len() <= out@.len() <= FILENAME_SIZE,
            out@.subrange(0, encode_utf8(name@).len() as int) == encode_utf8(name@),
            forall|j: int| encode_utf8(name@).len() <= j < out@.len() ==> out@[j] == 0,
        decreases FILENAME_SIZE - out@.len(),
    {
        out.push(0);
    }
    proof {
        assert(out@ =~= spec_zero_pad(encode_utf8(name@), FILENAME_SIZE as int));
    }
    Ok(out)
}

/// The name's UTF-8 bytes hold no zero byte, so storing it null-terminated
/// loses nothing.
pub open spec fn spec_name_clean(name: Seq<char>) -> bool {
    forall|j: int| 0 <= j < encode_utf8(name).len() ==> encode_utf8(name)[j] != 0
}

/// A name whose UTF-8 bytes fit the buffer and contain no zero byte survives
/// the trip through the fixed filename buffer unchanged.
pub proof fn lemma_filename_round_trip(name: Seq<char>)
    requires
        encode_utf8(name).len() < FILENAME_SIZE,
        spec_name_clean(name),
    ensures
        ({
            let padded = spec_zero_pad(encode_utf8(name), FILENAME_SIZE as int);
            &&& padded.len() == FILENAME_SIZE
            &&& spec_filename_prefix(padded) == encode_utf8(name)
            &&& valid_utf8(spec_filename_prefix(padded))
            &&& decode_utf8(spec_filename_prefix(padded)) == name
        }),
{
    let nb = encode_utf8(name);
    let padded = spec_zero_pad(nb, FILENAME_SIZE as int);
    assert forall|j: int| 0 <= j < nb.len() implies padded[j] != 0 by {
        assert(padded[j] == nb[j]);
    }
    assert(padded[nb.len() as int] == 0);
    lemma_first_null_at(padded, nb.len() as int);
    assert(spec_filename_prefix(padded) =~= nb);
    encode_utf8_valid_utf8(name);
    encode_utf8_decode_utf8(name);
}

/// A position with no zero byte before it, and a zero byte (or the end) at
/// it, is the first-null index.
pub proof fn lemma_first_null_at(s: Seq<u8>, i: int)
    requires
        0 <= i <= s.len(),
        forall|j: int| 0 <= j < i ==> s[j] != 0,
        i < s.len() ==> s[i] == 0,
    ensures
        spec_first_null(s) == i,
    decreases s.len(),
{
    if s.len() == 0 {
    } else if s[0] == 0 {
    } else {
        assert forall|j: int| 0 <= j < i - 1 implies s.skip(1)[j] != 0 by {
            assert(s[j + 1] != 0);
        }
        lemma_first_null_at(s.skip(1), i - 1);
    }
}

} // verus!
