//! The packer: builds TOC entries with running offsets, a concatenated data
//! blob, and a header consistent with the TOC, and emits the three regions
//! in order as one byte sequence.

use vstd::prelude::*;
use vstd::slice::{slice_subrange, slice_to_vec};
use vstd::utf8::encode_utf8;
use crate::AosError;
use crate::schema::{
    AosV2Entry, AosV2Hdr, ArchiveFile, EntryModel, FileModel, HeaderModel, encode_entry,
    encode_header, spec_encode_entry, spec_encode_header, spec_file_models, spec_zero_pad,
    string_to_filename, ARCHIVE_NAME_SIZE, ENTRY_SIZE, FILENAME_SIZE, HEADER_SIZE,
};

verus! {

/// The `i`-th file's name fits the fixed filename buffer with its terminator.
pub open spec fn spec_name_fits(ms: Seq<FileModel>, i: int) -> bool {
    encode_utf8(ms[i].name).len() < FILENAME_SIZE
}

/// Byte offset of the `i`-th file's data within the data region: the running
/// sum of the earlier files' lengths.
pub open spec fn spec_offset_of(ms: Seq<FileModel>, i: int) -> int
    decreases i,
{
    if i <= 0 {
        0
    } else {
        spec_offset_of(ms, i - 1) + ms[i - 1].data.len()
    }
}

/// Total byte length of all the files' data.
pub open spec fn spec_total_data_len(ms: Seq<FileModel>) -> int {
    spec_offset_of(ms, ms.len() as int)
}

/// The TOC entry the packer builds for the `i`-th file.
pub open spec fn spec_pack_entry(ms: Seq<FileModel>, i: int) -> EntryModel {
    EntryModel {
        filename: spec_zero_pad(encode_utf8(ms[i].name), FILENAME_SIZE as int),
        offset: spec_offset_of(ms, i) as u32,
        length: ms[i].data.len() as u32,
    }
}

/// The encoded TOC for the first `n` files, in order.
pub open spec fn spec_toc_bytes(ms: Seq<FileModel>, n: int) -> Seq<u8>
    decreases n,
{
    if n <= 0 {
        Seq::empty()
    } else {
        spec_toc_bytes(ms, n - 1) + spec_encode_entry(spec_pack_entry(ms, n - 1))
    }
}

/// The concatenated data of the first `n` files, in order.
pub open spec fn spec_data_blob(ms: Seq<FileModel>, n: int) -> Seq<u8>
    decreases n,
{
    if n <= 0 {
        Seq::empty()
    } else {
        spec_data_blob(ms, n - 1) + ms[n - 1].data
    }
}

/// The bytes of the `.aos` extension appended to the archive's name.
pub open spec fn spec_aos_suffix() -> Seq<u8> {
    seq![46u8, 97u8, 111u8, 115u8]
}

/// The header's archive-name buffer: the directory name's UTF-8 bytes with
/// the `.aos` suffix, truncated to leave room for the terminator, zero-padded.
pub open spec fn spec_archive_name_bytes(dir_name: Seq<char>) -> Seq<u8> {
    let full = encode_utf8(dir_name) + spec_aos_suffix();
    let keep = if full.len() > ARCHIVE_NAME_SIZE - 1 {
        ARCHIVE_NAME_SIZE as int - 1
    } else {
        full.len() as int
    };
    spec_zero_pad(full.take(keep), ARCHIVE_NAME_SIZE as int)
}

/// The header the packer builds for `n = ms.len()` files.
pub open spec fn spec_pack_header(ms: Seq<FileModel>, dir_name: Seq<char>) -> HeaderModel {
    HeaderModel {
        unknown1: 0,
        data_offset: (HEADER_SIZE + ENTRY_SIZE * ms.len()) as u32,
        toc_length: (ENTRY_SIZE * ms.len()) as u32,
        archive_name: spec_archive_name_bytes(dir_name),
    }
}

/// The full archive the packer produces: header, TOC, then data blob.
pub open spec fn spec_pack(ms: Seq<FileModel>, dir_name: Seq<char>) -> Seq<u8> {
    spec_encode_header(spec_pack_header(ms, dir_name)) + spec_toc_bytes(ms, ms.len() as int)
        + spec_data_blob(ms, ms.len() as int)
}

/// Running offsets never decrease.
pub proof fn lemma_offset_of_monotone(ms: Seq<FileModel>, i: int, j: int)
    requires
        0 <= i <= j,
    ensures
        spec_offset_of(ms, i) <= spec_offset_of(ms, j),
    decreases j - i,
{
    if i < j {
        lemma_offset_of_monotone(ms, i, j - 1);
    }
}

/// The encoded TOC of `n` fitting names is exactly `n` entry slots long.
pub proof fn lemma_toc_bytes_len(ms: Seq<FileModel>, n: int)
    requires
        0 <= n <= ms.len(),
        forall|j: int| 0 <= j < n ==> spec_name_fits(ms, j),
    ensures
        spec_toc_bytes(ms, n).len() == n * ENTRY_SIZE,
    decreases n,
{
    vstd::bytes::lemma_auto_spec_u32_to_from_le_bytes();
    if n > 0 {
        lemma_toc_bytes_len(ms, n - 1);
        assert(n * ENTRY_SIZE == (n - 1) * ENTRY_SIZE + ENTRY_SIZE) by (nonlinear_arith);
        assert(spec_name_fits(ms, n - 1));
        assert(spec_pack_entry(ms, n - 1).filename.len() == FILENAME_SIZE);
        assert(spec_encode_entry(spec_pack_entry(ms, n - 1)).len() == ENTRY_SIZE);
    }
}

/// The data blob of the first `n` files is exactly the `n`-th running offset
/// long.
pub proof fn lemma_data_blob_len(ms: Seq<FileModel>, n: int)
    requires
        0 <= n <= ms.len(),
    ensures
        spec_data_blob(ms, n).len() == spec_offset_of(ms, n),
    decreases n,
{
    if n > 0 {
        lemma_data_blob_len(ms, n - 1);
    }
}

/// Within the encoded TOC, the `i`-th entry slot holds exactly the `i`-th
/// file's encoded entry.
pub proof fn lemma_toc_bytes_index(ms: Seq<FileModel>, n: int, i: int)
    requires
        0 <= i < n <= ms.len(),
        forall|j: int| 0 <= j < n ==> spec_name_fits(ms, j),
    ensures
        spec_toc_bytes(ms, n).subrange(i * ENTRY_SIZE, i * ENTRY_SIZE + ENTRY_SIZE)
            == spec_encode_entry(spec_pack_entry(ms, i)),
    decreases n,
{
    vstd::bytes::lemma_auto_spec_u32_to_from_le_bytes();
    lemma_toc_bytes_len(ms, n - 1);
    assert(n * ENTRY_SIZE == (n - 1) * ENTRY_SIZE + ENTRY_SIZE) by (nonlinear_arith);
    assert(spec_name_fits(ms, i));
    assert(spec_encode_entry(spec_pack_entry(ms, i)).len() == ENTRY_SIZE);
    if i == n - 1 {
        assert(spec_toc_bytes(ms, n).subrange(i * ENTRY_SIZE, i * ENTRY_SIZE + ENTRY_SIZE)
            =~= spec_encode_entry(spec_pack_entry(ms, i)));
    } else {
        lemma_toc_bytes_index(ms, n - 1, i);
        assert(spec_toc_bytes(ms, n).subrange(i * ENTRY_SIZE, i * ENTRY_SIZE + ENTRY_SIZE)
            =~= spec_toc_bytes(ms, n - 1).subrange(i * ENTRY_SIZE, i * ENTRY_SIZE + ENTRY_SIZE));
    }
}

/// Within the data blob, the range between a file's running offset and the
/// next holds exactly that file's data.
pub proof fn lemma_data_blob_index(ms: Seq<FileModel>, n: int, i: int)
    requires
        0 <= i < n <= ms.len(),
    ensures
        spec_data_blob(ms, n).subrange(spec_offset_of(ms, i), spec_offset_of(ms, i + 1))
            == ms[i].data,
    decreases n,
{
    lemma_data_blob_len(ms, n - 1);
    lemma_offset_of_monotone(ms, 0, i);
    if i == n - 1 {
        assert(spec_data_blob(ms, n).subrange(spec_offset_of(ms, i), spec_offset_of(ms, i + 1))
            =~= ms[i].data);
    } else {
        lemma_data_blob_index(ms, n - 1, i);
        lemma_offset_of_monotone(ms, i + 1, n - 1);
        assert(spec_data_blob(ms, n).subrange(spec_offset_of(ms, i), spec_offset_of(ms, i + 1))
            =~= spec_data_blob(ms, n - 1).subrange(spec_offset_of(ms, i), spec_offset_of(
            ms,
            i + 1,
        )));
    }
}

/// Packs a list of named files into one archive byte sequence: a header with
/// `toc_length = entry_count * entry_size`, one TOC entry per file with the
/// running offset of its data, and the concatenated data blob. An empty list
/// is an error, as is a name that does not fit the fixed filename buffer.
pub fn pack_directory(files: &Vec<ArchiveFile>, dir_name: &str) -> (r: Result<Vec<u8>, AosError>)
    requires
        HEADER_SIZE + ENTRY_SIZE * files@.len() <= u32::MAX,
        spec_total_data_len(spec_file_models(files@)) <= u32::MAX,
    ensures
        files@.len() == 0 ==> r == Err::<Vec<u8>, AosError>(AosError::EmptyDirectory),
        files@.len() > 0 && (exists|i: int|
            0 <= i < files@.len() && !spec_name_fits(spec_file_models(files@), i)) ==> r == Err::<
            Vec<u8>,
            AosError,
        >(AosError::FilenameTooLong),
        files@.len() > 0 && (forall|i: int|
            0 <= i < files@.len() ==> spec_name_fits(spec_file_models(files@), i)) ==> r is Ok
            && r.unwrap()@ == spec_pack(spec_file_models(files@), dir_name@),
{
    let ghost ms = spec_file_models(files@);
    if files.len() == 0 {
        return Err(AosError::EmptyDirectory);
    }
    let n = files.len();
    let mut toc: Vec<u8> = Vec::new();
    let mut blob: Vec<u8> = Vec::new();
    let mut current_offset: u32 = 0;
    let mut i: usize = 0;
    while i < n
        invariant
            ms == spec_file_models(files@),
            n == files@.len(),
            spec_total_data_len(ms) <= u32::MAX,
            i <= n,
            forall|j: int| 0 <= j < i ==> spec_name_fits(ms, j),
            toc@ == spec_toc_bytes(ms, i as int),
            blob@ == spec_data_blob(ms, i as int),
            current_offset == spec_offset_of(ms, i as int),
        decreases n - i,
    {
        let f = &files[i];
        let filename = match string_to_filename(f.name.as_str()) {
            Ok(b) => b,
            Err(e) => {
                assert(!spec_name_fits(ms, i as int));
                return Err(e);
            },
        };
        proof {
            lemma_offset_of_monotone(ms, i + 1, ms.len() as int);
            lemma_offset_of_monotone(ms, 0, i as int);
        }
        let length = f.data.len() as u32;
        let entry = AosV2Entry { filename, offset: current_offset, length };
        assert(entry@ =~= spec_pack_entry(ms, i as int));
        let mut entry_bytes = encode_entry(&entry);
        toc.append(&mut entry_bytes);
        let mut data = slice_to_vec(f.data.as_slice());
        blob.append(&mut data);
        current_offset = current_offset + length;
        i = i + 1;
    }
    let toc_length = (n * ENTRY_SIZE) as u32;
    let data_offset = HEADER_SIZE as u32 + toc_length;
    let name_bytes = dir_name.as_bytes();
    let mut full = slice_to_vec(name_bytes);
    full.push(46u8);
    full.push(97u8);
    full.push(111u8);
    full.push(115u8);
    proof {
        assert(full@ =~= encode_utf8(dir_name@) + spec_aos_suffix());
    }
    let keep = if full.len() > ARCHIVE_NAME_SIZE - 1 {
        ARCHIVE_NAME_SIZE - 1
    } else {
        full.len()
    };
    let mut archive_name = slice_to_vec(slice_subrange(full.as_slice(), 0, keep));
    while archive_name.len() < ARCHIVE_NAME_SIZE
        invariant
            keep <= archive_name@.len() <= ARCHIVE_NAME_SIZE,
            archive_name@.subrange(0, keep as int) == full@.take(keep as int),
            forall|j: int| keep <= j < archive_name@.len() ==> archive_name@[j] == 0,
        decreases ARCHIVE_NAME_SIZE - archive_name@.len(),
    {
        archive_name.push(0u8);
    }
    proof {
        assert(archive_name@ =~= spec_archive_name_bytes(dir_name@));
    }
    let header = AosV2Hdr { unknown1: 0, data_offset, toc_length, archive_name };
    assert(header@ =~= spec_pack_header(ms, dir_name@));
    let mut out = encode_header(&header);
    out.append(&mut toc);
    out.append(&mut blob);
    proof {
        assert(out@ =~= spec_pack(ms, dir_name@));
    }
    Ok(out)
}

} // verus!
