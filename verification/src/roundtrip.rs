//! Laws tying the packer and the unpacker together: an archive the packer
//! produces is well formed, its header's `toc_length` is the entry count
//! times the entry size, and unpacking it reproduces every packed file.

use vstd::prelude::*;
use crate::pack::{
    lemma_data_blob_index, lemma_data_blob_len, lemma_offset_of_monotone, lemma_toc_bytes_index,
    lemma_toc_bytes_len, spec_data_blob, spec_name_fits, spec_offset_of, spec_pack,
    spec_pack_entry, spec_pack_header, spec_toc_bytes, spec_total_data_len,
};
use crate::schema::{
    lemma_decode_header_prefix, lemma_entry_round_trip, lemma_filename_round_trip, FileModel,
    spec_decode_header, spec_encode_header, spec_name_clean, ARCHIVE_NAME_SIZE, ENTRY_SIZE,
    HEADER_SIZE,
};
use crate::unpack::{
    lemma_first_bad_entry_at, spec_data_region, spec_entry_count, spec_entry_ok,
    spec_extracted_file, spec_first_bad_entry, spec_has_header, spec_toc_aligned, spec_toc_entry,
    spec_toc_fits, spec_unpack_ok,
};

verus! {

/// An archive the packer produces decodes to exactly the header the packer
/// built: in particular its `toc_length` is the entry count times the entry
/// size, so the TOC is aligned, it fits, the entry count is the file count,
/// each TOC slot decodes to the file's entry, and the data region is the
/// packed blob.
pub proof fn lemma_packed_archive_layout(ms: Seq<FileModel>, dir_name: Seq<char>)
    requires
        HEADER_SIZE + ENTRY_SIZE * ms.len() <= u32::MAX,
        spec_total_data_len(ms) <= u32::MAX,
        forall|i: int| 0 <= i < ms.len() ==> spec_name_fits(ms, i),
    ensures
        ({
            let b = spec_pack(ms, dir_name);
            &&& spec_decode_header(b) == spec_pack_header(ms, dir_name)
            &&& spec_decode_header(b).toc_length == ENTRY_SIZE * ms.len()
            &&& spec_has_header(b)
            &&& spec_toc_aligned(b)
            &&& spec_toc_fits(b)
            &&& spec_entry_count(b) == ms.len()
            &&& spec_data_region(b) == spec_data_blob(ms, ms.len() as int)
            &&& forall|i: int|
                0 <= i < ms.len() ==> #[trigger] spec_toc_entry(b, i) == spec_pack_entry(ms, i)
        }),
{
    let n = ms.len() as int;
    let hm = spec_pack_header(ms, dir_name);
    let hdr_bytes = spec_encode_header(hm);
    let toc = spec_toc_bytes(ms, n);
    let blob = spec_data_blob(ms, n);
    let b = spec_pack(ms, dir_name);
    lemma_toc_bytes_len(ms, n);
    lemma_data_blob_len(ms, n);
    lemma_offset_of_monotone(ms, 0, n);
    assert(hm.archive_name.len() == ARCHIVE_NAME_SIZE);
    assert(b =~= hdr_bytes + (toc + blob));
    lemma_decode_header_prefix(hm, toc + blob);
    assert(spec_decode_header(b) == hm);
    assert(ENTRY_SIZE * ms.len() <= u32::MAX);
    assert(hm.toc_length == ENTRY_SIZE * ms.len());
    assert(hm.toc_length as int % ENTRY_SIZE as int == 0 && hm.toc_length as int
        / ENTRY_SIZE as int == n) by (nonlinear_arith)
        requires hm.toc_length == ENTRY_SIZE * n, ENTRY_SIZE == 40, 0 <= n;
    assert(b.len() == HEADER_SIZE + ENTRY_SIZE * n + spec_total_data_len(ms));
    assert(spec_toc_fits(b));
    assert(spec_data_region(b) =~= blob);
    assert forall|i: int| 0 <= i < n implies #[trigger] spec_toc_entry(b, i) == spec_pack_entry(
        ms,
        i,
    ) by {
        assert((i + 1) * ENTRY_SIZE <= n * ENTRY_SIZE && i * ENTRY_SIZE + ENTRY_SIZE == (i + 1)
            * ENTRY_SIZE) by (nonlinear_arith)
            requires 0 <= i < n;
        assert(spec_name_fits(ms, i));
        lemma_toc_bytes_index(ms, n, i);
        assert(b.subrange(HEADER_SIZE + i * ENTRY_SIZE, HEADER_SIZE + i * ENTRY_SIZE + ENTRY_SIZE)
            =~= toc.subrange(i * ENTRY_SIZE, i * ENTRY_SIZE + ENTRY_SIZE));
        lemma_entry_round_trip(spec_pack_entry(ms, i));
    }
}

/// Round trip of the whole archive: an archive packed from a non-empty list
/// of files whose names fit the filename buffer and whose UTF-8 bytes hold
/// no zero byte unpacks successfully, to exactly the files that were packed,
/// each under its own name with its own bytes, whatever order they were
/// listed in.
pub proof fn lemma_pack_unpack_round_trip(ms: Seq<FileModel>, dir_name: Seq<char>)
    requires
        ms.len() > 0,
        HEADER_SIZE + ENTRY_SIZE * ms.len() <= u32::MAX,
        spec_total_data_len(ms) <= u32::MAX,
        forall|i: int| 0 <= i < ms.len() ==> spec_name_fits(ms, i),
        forall|i: int| 0 <= i < ms.len() ==> spec_name_clean(#[trigger] ms[i].name),
    ensures
        ({
            let b = spec_pack(ms, dir_name);
            &&& spec_unpack_ok(b)
            &&& spec_entry_count(b) == ms.len()
            &&& forall|i: int|
                0 <= i < ms.len() ==> #[trigger] spec_extracted_file(b, i) == ms[i]
        }),
{
    let n = ms.len() as int;
    let b = spec_pack(ms, dir_name);
    lemma_packed_archive_layout(ms, dir_name);
    lemma_data_blob_len(ms, n);
    assert forall|i: int|
        #![trigger spec_entry_ok(b, i)]
        #![trigger spec_extracted_file(b, i)]
        0 <= i < n implies spec_entry_ok(b, i) && spec_extracted_file(b, i) == ms[i] by {
        let e = spec_pack_entry(ms, i);
        assert(spec_toc_entry(b, i) == e);
        assert(spec_name_fits(ms, i));
        assert(spec_name_clean(ms[i].name));
        lemma_filename_round_trip(ms[i].name);
        lemma_offset_of_monotone(ms, 0, i);
        lemma_offset_of_monotone(ms, i + 1, n);
        assert(e.offset == spec_offset_of(ms, i));
        assert(e.length == ms[i].data.len());
        assert(e.offset + e.length == spec_offset_of(ms, i + 1));
        assert(spec_entry_ok(b, i));
        lemma_data_blob_index(ms, n, i);
        assert(spec_data_region(b).subrange(e.offset as int, e.offset + e.length) == ms[i].data);
        assert(spec_extracted_file(b, i) =~= ms[i]);
    }
    lemma_first_bad_entry_at(b, n);
}

} // verus!
