//! The unpacker: reads the header, walks the TOC, and extracts each entry's
//! bytes from the data region, honouring each entry's own offset and length.

use vstd::prelude::*;
use vstd::slice::{slice_subrange, slice_to_vec};
use vstd::utf8::{decode_utf8, valid_utf8};
use crate::AosError;
use crate::schema::{
    ArchiveFile, EntryModel, FileModel, decode_entry, decode_header, spec_decode_entry,
    spec_decode_header, spec_filename_prefix, ENTRY_SIZE, HEADER_SIZE,
};

verus! {

/// The bytes hold at least a full header.
pub open spec fn spec_has_header(b: Seq<u8>) -> bool {
    b.len() >= HEADER_SIZE
}

/// The header's `toc_length` is an exact multiple of the entry size.
pub open spec fn spec_toc_aligned(b: Seq<u8>) -> bool {
    spec_decode_header(b).toc_length as int % ENTRY_SIZE as int == 0
}

/// How many entries the TOC declares.
pub open spec fn spec_entry_count(b: Seq<u8>) -> int {
    spec_decode_header(b).toc_length as int / ENTRY_SIZE as int
}

/// The declared TOC fits within the archive bytes.
pub open spec fn spec_toc_fits(b: Seq<u8>) -> bool {
    HEADER_SIZE + spec_decode_header(b).toc_length <= b.len()
}

/// The data region: everything after the header and the declared TOC.
pub open spec fn spec_data_region(b: Seq<u8>) -> Seq<u8> {
    b.skip(HEADER_SIZE + spec_decode_header(b).toc_length as int)
}

/// The `i`-th TOC entry, decoded from its fixed slot after the header.
pub open spec fn spec_toc_entry(b: Seq<u8>, i: int) -> EntryModel {
    spec_decode_entry(
        b.subrange(HEADER_SIZE + i * ENTRY_SIZE, HEADER_SIZE + i * ENTRY_SIZE + ENTRY_SIZE),
    )
}

/// The `i`-th entry's stored filename is valid UTF-8 once null-truncated.
pub open spec fn spec_entry_name_ok(b: Seq<u8>, i: int) -> bool {
    valid_utf8(spec_filename_prefix(spec_toc_entry(b, i).filename))
}

/// The `i`-th entry's bytes lie within the data region.
pub open spec fn spec_entry_data_ok(b: Seq<u8>, i: int) -> bool {
    spec_toc_entry(b, i).offset + spec_toc_entry(b, i).length <= spec_data_region(b).len()
}

/// The `i`-th entry can be extracted.
pub open spec fn spec_entry_ok(b: Seq<u8>, i: int) -> bool {
    spec_entry_name_ok(b, i) && spec_entry_data_ok(b, i)
}

/// The first entry index at or after `i` that cannot be extracted, or the
/// entry count when all remaining entries can.
pub open spec fn spec_first_bad_entry_from(b: Seq<u8>, i: int) -> int
    recommends
        0 <= i <= spec_entry_count(b),
    decreases spec_entry_count(b) - i,
{
    if i >= spec_entry_count(b) {
        i
    } else if !spec_entry_ok(b, i) {
        i
    } else {
        spec_first_bad_entry_from(b, i + 1)
    }
}

/// The first entry that cannot be extracted, or the entry count when every
/// entry can.
pub open spec fn spec_first_bad_entry(b: Seq<u8>) -> int {
    spec_first_bad_entry_from(b, 0)
}

/// Unpacking the bytes succeeds: full header, aligned TOC that fits, and
/// every entry extractable.
pub open spec fn spec_unpack_ok(b: Seq<u8>) -> bool {
    &&& spec_has_header(b)
    &&& spec_toc_aligned(b)
    &&& spec_toc_fits(b)
    &&& spec_first_bad_entry(b) == spec_entry_count(b)
}

/// The file the `i`-th entry describes: its decoded name and its slice of
/// the data region.
pub open spec fn spec_extracted_file(b: Seq<u8>, i: int) -> FileModel {
    let e = spec_toc_entry(b, i);
    FileModel {
        name: decode_utf8(spec_filename_prefix(e.filename)),
        data: spec_data_region(b).subrange(e.offset as int, e.offset + e.length),
    }
}

/// A position with every earlier entry extractable, and itself not (or the
/// end), is the first bad entry.
pub proof fn lemma_first_bad_entry_at(b: Seq<u8>, i: int)
    requires
        0 <= i <= spec_entry_count(b),
        forall|j: int| 0 <= j < i ==> spec_entry_ok(b, j),
        i < spec_entry_count(b) ==> !spec_entry_ok(b, i),
    ensures
        spec_first_bad_entry(b) == i,
{
    lemma_first_bad_entry_from_at(b, 0, i);
}

proof fn lemma_first_bad_entry_from_at(b: Seq<u8>, k: int, i: int)
    requires
        0 <= k <= i <= spec_entry_count(b),
        forall|j: int| k <= j < i ==> spec_entry_ok(b, j),
        i < spec_entry_count(b) ==> !spec_entry_ok(b, i),
    ensures
        spec_first_bad_entry_from(b, k) == i,
    decreases i - k,
{
    if k < i {
        lemma_first_bad_entry_from_at(b, k + 1, i);
    }
}

/// Unpacks an archive given as bytes into its files. The header is decoded
/// at offset zero, the TOC immediately after it, and each entry's bytes are
/// taken from the data region at the entry's own offset and length, in TOC
/// order; the first entry that cannot be extracted aborts the whole call.
pub fn unpack_archive(archive: &[u8]) -> (r: Result<Vec<ArchiveFile>, AosError>)
    ensures
        !spec_has_header(archive@) ==> r == Err::<Vec<ArchiveFile>, AosError>(
            AosError::TruncatedInput,
        ),
        spec_has_header(archive@) && !spec_toc_aligned(archive@) ==> r == Err::<
            Vec<ArchiveFile>,
            AosError,
        >(AosError::MalformedToc),
        spec_has_header(archive@) && spec_toc_aligned(archive@) && !spec_toc_fits(archive@) ==> r
            == Err::<Vec<ArchiveFile>, AosError>(AosError::TruncatedInput),
        spec_has_header(archive@) && spec_toc_aligned(archive@) && spec_toc_fits(archive@)
            && spec_first_bad_entry(archive@) < spec_entry_count(archive@) ==> r == Err::<
            Vec<ArchiveFile>,
            AosError,
        >(
            if !spec_entry_name_ok(archive@, spec_first_bad_entry(archive@)) {
                AosError::InvalidFilename
            } else {
                AosError::TruncatedData
            },
        ),
        spec_unpack_ok(archive@) ==> r is Ok && r.unwrap()@.len() == spec_entry_count(archive@)
            && (forall|i: int|
            0 <= i < spec_entry_count(archive@) ==> #[trigger] r.unwrap()@[i]@
                == spec_extracted_file(archive@, i)),
{
    let ghost b = archive@;
    if archive.len() < HEADER_SIZE {
        return Err(AosError::TruncatedInput);
    }
    let header = match decode_header(archive) {
        Ok(h) => h,
        Err(e) => { return Err(e) },
    };
    let toc_len = header.toc_length as usize;
    if toc_len % ENTRY_SIZE != 0 {
        return Err(AosError::MalformedToc);
    }
    if archive.len() - HEADER_SIZE < toc_len {
        return Err(AosError::TruncatedInput);
    }
    let n = toc_len / ENTRY_SIZE;
    let data_start = HEADER_SIZE + toc_len;
    let data_len = archive.len() - data_start;
    assert(n == spec_entry_count(b));
    assert(data_len == spec_data_region(b).len());
    let mut out: Vec<ArchiveFile> = Vec::new();
    let mut i: usize = 0;
    while i < n
        invariant
            spec_has_header(b),
            spec_toc_aligned(b),
            spec_toc_fits(b),
            b == archive@,
            n == spec_entry_count(b),
            toc_len == spec_decode_header(b).toc_length,
            data_start == HEADER_SIZE + toc_len,
            data_start + data_len == b.len(),
            data_start + data_len <= usize::MAX,
            i <= n,
            out@.len() == i,
            forall|j: int| 0 <= j < i ==> spec_entry_ok(b, j),
            forall|j: int| 0 <= j < i ==> #[trigger] out@[j]@ == spec_extracted_file(b, j),
        decreases n - i,
    {
        assert(HEADER_SIZE + (i + 1) * ENTRY_SIZE <= HEADER_SIZE + toc_len) by {
            assert((i + 1) * ENTRY_SIZE <= n * ENTRY_SIZE) by (nonlinear_arith)
                requires i + 1 <= n;
            assert(n * ENTRY_SIZE == toc_len) by (nonlinear_arith)
                requires n == toc_len as int / ENTRY_SIZE as int, toc_len as int % ENTRY_SIZE as int == 0;
        }
        let slot_start = HEADER_SIZE + i * ENTRY_SIZE;
        let slot = slice_subrange(archive, slot_start, slot_start + ENTRY_SIZE);
        let entry = match decode_entry(slot) {
            Ok(e) => e,
            Err(e) => {
                return Err(e);
            },
        };
        assert(entry@ == spec_toc_entry(b, i as int));
        let name = match entry.get_filename_str() {
            Ok(s) => s,
            Err(e) => {
                proof {
                    lemma_first_bad_entry_at(b, i as int);
                }
                return Err(e);
            },
        };
        let offset = entry.offset as usize;
        let length = entry.length as usize;
        if offset > data_len || length > data_len - offset {
            proof {
                lemma_first_bad_entry_at(b, i as int);
            }
            return Err(AosError::TruncatedData);
        }
        let data = slice_to_vec(slice_subrange(archive, data_start + offset,
            data_start + offset + length));
        proof {
            assert(data@ =~= spec_data_region(b).subrange(entry@.offset as int,
                entry@.offset + entry@.length));
        }
        out.push(ArchiveFile { name, data });
        i = i + 1;
    }
    proof {
        lemma_first_bad_entry_at(b, n as int);
    }
    Ok(out)
}

} // verus!
