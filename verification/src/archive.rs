//! The archive session: pack, unpack, extract-one and list operations over
//! an in-memory container, built from the header codec, the path helpers
//! and the chunked transfer engine.
//!
//! The container's bytes live in a `Vec<u8>`; walking a real directory
//! tree, reading file sizes and moving bytes to and from disk are the
//! caller's services, and the caller hands their results in as plain
//! values.

use vstd::prelude::*;
use vstd::utf8::encode_utf8;
use crate::ArchiveError;
use crate::header::{
    FileEntry, FileEntryV, Header, HeaderV, spec_entries_view, spec_tags_view, spec_header_body,
    spec_header_bytes, spec_relativize_entries, spec_parse_header, gen_header, read_header,
};
use crate::transfer::{Transform, Identity, spec_chunked, buffered_copy, append_to_archive};
use crate::paths::{spec_relative_path, spec_paths_view};

verus! {

/// An open container: its bytes, and the header parsed from them or staged
/// to be written at their front.
pub struct Archive {
    pub file: Vec<u8>,
    pub header: Header,
}

/// Takes a list of path strings and returns them as archive paths.
///
/// Paths in this crate are plain UTF-8 strings, so the conversion is one
/// for one.
pub fn strings_to_paths(strings: Vec<String>) -> (paths: Vec<String>)
    ensures
        paths@ == strings@,
{
    strings
}

/// The mathematical value of a list of files, each a path and its bytes.
pub open spec fn spec_files_view(files: Seq<(String, Vec<u8>)>) -> Seq<(Seq<char>, Seq<u8>)> {
    files.map_values(|f: (String, Vec<u8>)| (f.0@, f.1@))
}

/// The payload region a pack operation writes: every file's bytes,
/// concatenated in table order.
pub open spec fn spec_concat_contents(files: Seq<(Seq<char>, Seq<u8>)>) -> Seq<u8>
    decreases files.len(),
{
    if files.len() == 0 {
        Seq::empty()
    } else {
        files[0].1 + spec_concat_contents(files.drop_first())
    }
}

/// The entry table a pack operation stages for the given files, before
/// their paths are made relative: each file's path and byte length.
pub open spec fn spec_entries_of_files(files: Seq<(Seq<char>, Seq<u8>)>) -> Seq<FileEntryV> {
    files.map_values(|f: (Seq<char>, Seq<u8>)| FileEntryV { path: f.0, size: f.1.len() as u64 })
}

/// The whole container a pack operation writes for the given files, root
/// paths and tags: the serialized header, then the payload region.
pub open spec fn spec_archive_bytes(
    files: Seq<(Seq<char>, Seq<u8>)>,
    roots: Seq<Seq<char>>,
    tags: Seq<(Seq<char>, Seq<char>)>,
) -> Seq<u8> {
    spec_header_bytes(
        crate::ARCHIVE_VERSION,
        tags,
        spec_relativize_entries(spec_entries_of_files(files), roots),
    ) + spec_concat_contents(files)
}

/// Packing one more file appends its bytes to the payload region.
proof fn lemma_concat_contents_push(files: Seq<(Seq<char>, Seq<u8>)>, f: (Seq<char>, Seq<u8>))
    ensures
        spec_concat_contents(files.push(f)) == spec_concat_contents(files) + f.1,
    decreases files.len(),
{
    if files.len() == 0 {
        assert(files.push(f)[0] == f);
        assert(files.push(f).drop_first() =~= Seq::<(Seq<char>, Seq<u8>)>::empty());
        assert(spec_concat_contents(Seq::<(Seq<char>, Seq<u8>)>::empty()) == Seq::<u8>::empty());
        assert(files.push(f)[0].1 + Seq::<u8>::empty() =~= spec_concat_contents(files) + f.1);
    } else {
        assert(files.push(f).drop_first() =~= files.drop_first().push(f));
        lemma_concat_contents_push(files.drop_first(), f);
        assert(files[0].1 + (spec_concat_contents(files.drop_first()) + f.1) =~= (files[0].1
            + spec_concat_contents(files.drop_first())) + f.1);
    }
}

/// Creates an archive in `archive_file`: a header whose entry table lists
/// every given file under its relative path, then each file's bytes in
/// table order. Entry order equals append order, since each entry's
/// payload offset is derived from the sizes before it.
pub fn pack_archive(
    archive_file: &mut Vec<u8>,
    files: &Vec<(String, Vec<u8>)>,
    root_paths: &Vec<String>,
    tags: Vec<(String, String)>,
    max_chunk: usize,
)
    requires
        old(archive_file)@.len() == 0,
        max_chunk >= 1,
        9 + spec_header_body(
            spec_tags_view(tags@),
            spec_relativize_entries(
                spec_entries_of_files(spec_files_view(files@)),
                spec_paths_view(root_paths@),
            ),
        ).len() <= u64::MAX,
    ensures
        final(archive_file)@ == spec_archive_bytes(
            spec_files_view(files@),
            spec_paths_view(root_paths@),
            spec_tags_view(tags@),
        ),
{
    let ghost filesv = spec_files_view(files@);
    let ghost rootsv = spec_paths_view(root_paths@);
    let ghost tagsv = spec_tags_view(tags@);

    let n = files.len();
    let mut entries: Vec<FileEntry> = Vec::new();
    let mut i: usize = 0;
    while i < n
        invariant
            0 <= i <= n,
            n == files@.len(),
            filesv == spec_files_view(files@),
            filesv.len() == n,
            entries@.len() == i as int,
            spec_entries_view(entries@) == spec_entries_of_files(filesv).take(i as int),
        decreases n - i,
    {
        let path = files[i].0.clone();
        let size = files[i].1.len() as u64;
        entries.push(FileEntry { path, size });
        i = i + 1;
        proof {
            assert(entries@[i - 1]@.path == files@[i - 1].0@);
            assert(entries@[i - 1]@.size == filesv[i - 1].1.len() as u64);
            assert(spec_entries_of_files(filesv)[i - 1] == (FileEntryV {
                path: filesv[i - 1].0,
                size: filesv[i - 1].1.len() as u64,
            }));
            assert(spec_entries_view(entries@) =~~= spec_entries_of_files(filesv).take(i as int));
        }
    }
    proof {
        assert(spec_entries_of_files(filesv).take(n as int) =~= spec_entries_of_files(filesv));
    }

    let header = Header::new(tags, entries);
    let mut h_data = gen_header(&header, root_paths);
    archive_file.append(&mut h_data);
    let ghost head = spec_header_bytes(
        crate::ARCHIVE_VERSION,
        tagsv,
        spec_relativize_entries(spec_entries_of_files(filesv), rootsv),
    );
    proof {
        assert(archive_file@ =~= head);
    }

    let mut j: usize = 0;
    while j < n
        invariant
            0 <= j <= n,
            n == files@.len(),
            max_chunk >= 1,
            filesv == spec_files_view(files@),
            archive_file@ == head + spec_concat_contents(filesv.take(j as int)),
        decreases n - j,
    {
        let identity = Identity;
        append_to_archive(&files[j].1, archive_file, &identity, max_chunk);
        proof {
            crate::transfer::lemma_identity_chunked(files@[j as int].1@, max_chunk as int);
            lemma_concat_contents_push(filesv.take(j as int), filesv[j as int]);
            assert(filesv.take(j + 1) =~= filesv.take(j as int).push(filesv[j as int]));
            assert(head + spec_concat_contents(filesv.take(j as int)) + files@[j as int].1@ =~= head
                + spec_concat_contents(filesv.take(j + 1)));
        }
        j = j + 1;
    }
    proof {
        assert(filesv.take(n as int) =~= filesv);
    }
}

/// What extracting every entry of a table yields: each entry's path paired
/// with the engine's output for its payload range, the running offset
/// advancing by each entry's recorded size in turn. An entry whose range
/// reaches past the end of the container fails the whole extraction.
pub open spec fn spec_extract_entries<T: Transform>(
    file: Seq<u8>,
    offset: int,
    entries: Seq<FileEntryV>,
    t: T,
    max: int,
) -> Result<Seq<(Seq<char>, Seq<u8>)>, ArchiveError>
    decreases entries.len(),
{
    if entries.len() == 0 {
        Ok(Seq::empty())
    } else {
        let e = entries[0];
        if offset + e.size > file.len() {
            Err(ArchiveError::PayloadOutOfBounds)
        } else {
            match spec_extract_entries(file, offset + e.size, entries.drop_first(), t, max) {
                Ok(rest) => Ok(
                    seq![(e.path, spec_chunked(t, file.subrange(offset, offset + e.size), max))]
                        + rest,
                ),
                Err(err) => Err(err),
            }
        }
    }
}

/// Extracts every entry of an archive, in table order, into path and byte
/// pairs, passing each payload through `decompression` chunk by chunk.
pub fn extract_all_archive<T: Transform>(
    archive: &Archive,
    decompression: &T,
    max_chunk: usize,
) -> (r: Result<Vec<(String, Vec<u8>)>, ArchiveError>)
    requires
        max_chunk >= 1,
    ensures
        (match r {
            Ok(out) => spec_extract_entries(
                archive.file@,
                archive.header@.size as int,
                archive.header@.entries,
                *decompression,
                max_chunk as int,
            ) == Ok::<Seq<(Seq<char>, Seq<u8>)>, ArchiveError>(spec_files_view(out@)),
            Err(e) => spec_extract_entries(
                archive.file@,
                archive.header@.size as int,
                archive.header@.entries,
                *decompression,
                max_chunk as int,
            ) == Err::<Seq<(Seq<char>, Seq<u8>)>, ArchiveError>(e),
        }),
{
    let ghost entriesv = archive.header@.entries;
    let ghost hsize = archive.header@.size as int;
    let mut out: Vec<(String, Vec<u8>)> = Vec::new();
    let mut index: u64 = archive.header.size;
    let n = archive.header.entries.len();
    proof {
        assert(entriesv.skip(0) =~= entriesv);
        assert(spec_files_view(out@) =~~= Seq::<(Seq<char>, Seq<u8>)>::empty());
        match spec_extract_entries(
            archive.file@,
            index as int,
            entriesv,
            *decompression,
            max_chunk as int,
        ) {
            Ok(rest) => {
                assert(Seq::<(Seq<char>, Seq<u8>)>::empty() + rest =~= rest);
            },
            Err(_) => {},
        }
    }
    let mut i: usize = 0;
    while i < n
        invariant
            0 <= i <= n,
            n == archive.header.entries@.len(),
            max_chunk >= 1,
            entriesv == archive.header@.entries,
            entriesv.len() == n,
            hsize == archive.header@.size as int,
            spec_extract_entries(archive.file@, hsize, entriesv, *decompression, max_chunk as int)
                == (match spec_extract_entries(
                archive.file@,
                index as int,
                entriesv.skip(i as int),
                *decompression,
                max_chunk as int,
            ) {
                Ok(rest) => Ok::<Seq<(Seq<char>, Seq<u8>)>, ArchiveError>(
                    spec_files_view(out@) + rest,
                ),
                Err(err) => Err::<Seq<(Seq<char>, Seq<u8>)>, ArchiveError>(err),
            }),
        decreases n - i,
    {
        let ghost out0 = out@;
        let ghost idx0 = index as int;
        let e_size = archive.header.entries[i].size;
        proof {
            assert(entriesv.skip(i as int)[0] == entriesv[i as int]);
            assert(entriesv.skip(i as int).drop_first() =~= entriesv.skip(i + 1));
        }
        let mut data: Vec<u8> = Vec::new();
        match buffered_copy(&archive.file, &mut data, &mut index, e_size, decompression, max_chunk)
        {
            Ok(_) => {},
            Err(err) => {
                return Err(err);
            },
        }
        let path = archive.header.entries[i].path.clone();
        out.push((path, data));
        i = i + 1;
        proof {
            match spec_extract_entries(
                archive.file@,
                index as int,
                entriesv.skip(i as int),
                *decompression,
                max_chunk as int,
            ) {
                Ok(rest) => {
                    assert(spec_files_view(out@) =~~= spec_files_view(out0).push(
                        (
                            entriesv[i - 1].path,
                            spec_chunked(
                                *decompression,
                                archive.file@.subrange(idx0, idx0 + entriesv[i - 1].size),
                                max_chunk as int,
                            ),
                        ),
                    ));
                    assert(spec_files_view(out0) + (seq![
                        (
                            entriesv[i - 1].path,
                            spec_chunked(
                                *decompression,
                                archive.file@.subrange(idx0, idx0 + entriesv[i - 1].size),
                                max_chunk as int,
                            ),
                        ),
                    ] + rest) =~~= spec_files_view(out@) + rest);
                },
                Err(_) => {},
            }
        }
    }
    proof {
        assert(entriesv.skip(n as int) =~= Seq::<FileEntryV>::empty());
        assert(spec_extract_entries(
            archive.file@,
            index as int,
            Seq::<FileEntryV>::empty(),
            *decompression,
            max_chunk as int,
        ) == Ok::<Seq<(Seq<char>, Seq<u8>)>, ArchiveError>(Seq::empty()));
        assert(spec_files_view(out@) + Seq::<(Seq<char>, Seq<u8>)>::empty() =~~= spec_files_view(
            out@,
        ));
    }
    Ok(out)
}

/// What unpacking a whole container yields: each entry's path paired with
/// the raw bytes of its payload range, the offsets running from the
/// header's recorded size as the table dictates.
pub open spec fn spec_unpack_entries(file: Seq<u8>, offset: int, entries: Seq<FileEntryV>) -> Result<
    Seq<(Seq<char>, Seq<u8>)>,
    ArchiveError,
>
    decreases entries.len(),
{
    if entries.len() == 0 {
        Ok(Seq::empty())
    } else {
        let e = entries[0];
        if offset + e.size > file.len() {
            Err(ArchiveError::PayloadOutOfBounds)
        } else {
            match spec_unpack_entries(file, offset + e.size, entries.drop_first()) {
                Ok(rest) => Ok(seq![(e.path, file.subrange(offset, offset + e.size))] + rest),
                Err(err) => Err(err),
            }
        }
    }
}

/// What unpacking a container yields: its parsed header's entries, each
/// with its raw payload bytes, or the first structural error met.
pub open spec fn spec_unpack(b: Seq<u8>) -> Result<Seq<(Seq<char>, Seq<u8>)>, ArchiveError> {
    match spec_parse_header(b) {
        Err(e) => Err(e),
        Ok(h) => spec_unpack_entries(b, h.size as int, h.entries),
    }
}

/// With the identity transform, extraction yields exactly the raw payload
/// ranges.
proof fn lemma_extract_identity(file: Seq<u8>, offset: int, entries: Seq<FileEntryV>, max: int)
    ensures
        spec_extract_entries(file, offset, entries, Identity, max) == spec_unpack_entries(
            file,
            offset,
            entries,
        ),
    decreases entries.len(),
{
    if entries.len() == 0 {
    } else {
        let e = entries[0];
        if offset + e.size > file.len() {
        } else {
            lemma_extract_identity(file, offset + e.size, entries.drop_first(), max);
            crate::transfer::lemma_identity_chunked(
                file.subrange(offset, offset + e.size),
                max,
            );
        }
    }
}

/// Unpacks a container: parses its header, then extracts every entry in
/// table order, returning each path with its raw bytes.
pub fn unpack_archive(file: Vec<u8>, max_chunk: usize) -> (r: Result<
    Vec<(String, Vec<u8>)>,
    ArchiveError,
>)
    requires
        max_chunk >= 1,
    ensures
        (match r {
            Ok(out) => spec_unpack(file@) == Ok::<Seq<(Seq<char>, Seq<u8>)>, ArchiveError>(
                spec_files_view(out@),
            ),
            Err(e) => spec_unpack(file@) == Err::<Seq<(Seq<char>, Seq<u8>)>, ArchiveError>(e),
        }),
{
    let header = match read_header(&file) {
        Ok(h) => h,
        Err(e) => {
            return Err(e);
        },
    };
    let archive = Archive { header, file };
    let identity = Identity;
    let r = extract_all_archive(&archive, &identity, max_chunk);
    proof {
        lemma_extract_identity(
            archive.file@,
            archive.header@.size as int,
            archive.header@.entries,
            max_chunk as int,
        );
    }
    r
}

/// What extracting the entries matching one path yields: the engine's
/// output for each matching entry's payload range, concatenated in table
/// order. Entries that do not match are skipped by offset alone; their
/// bytes are never read, so only a matching entry's range can fail.
pub open spec fn spec_extract_one<T: Transform>(
    file: Seq<u8>,
    offset: int,
    entries: Seq<FileEntryV>,
    path: Seq<char>,
    t: T,
    max: int,
) -> Result<Seq<u8>, ArchiveError>
    decreases entries.len(),
{
    if entries.len() == 0 {
        Ok(Seq::empty())
    } else {
        let e = entries[0];
        if e.path == path {
            if offset + e.size > file.len() {
                Err(ArchiveError::PayloadOutOfBounds)
            } else {
                match spec_extract_one(
                    file,
                    offset + e.size,
                    entries.drop_first(),
                    path,
                    t,
                    max,
                ) {
                    Ok(rest) => Ok(
                        spec_chunked(t, file.subrange(offset, offset + e.size), max) + rest,
                    ),
                    Err(err) => Err(err),
                }
            }
        } else {
            spec_extract_one(file, offset + e.size, entries.drop_first(), path, t, max)
        }
    }
}

/// Finds the entries recorded under `path_in_archive` and appends their
/// extracted bytes to `out_file`, skipping every other entry by offset
/// without reading its bytes. On failure `out_file` is left unchanged.
pub fn extract_from_archive<T: Transform>(
    path_in_archive: &String,
    archive: &Archive,
    out_file: &mut Vec<u8>,
    decompression: &T,
    max_chunk: usize,
) -> (r: Result<(), ArchiveError>)
    requires
        max_chunk >= 1,
    ensures
        (match r {
            Ok(u) => spec_extract_one(
                archive.file@,
                archive.header@.size as int,
                archive.header@.entries,
                path_in_archive@,
                *decompression,
                max_chunk as int,
            ) matches Ok(bytes) && final(out_file)@ == old(out_file)@ + bytes,
            Err(e) => spec_extract_one(
                archive.file@,
                archive.header@.size as int,
                archive.header@.entries,
                path_in_archive@,
                *decompression,
                max_chunk as int,
            ) == Err::<Seq<u8>, ArchiveError>(e) && final(out_file)@ == old(out_file)@,
        }),
{
    let ghost entriesv = archive.header@.entries;
    let ghost hsize = archive.header@.size as int;
    let ghost pathv = path_in_archive@;
    let mut collected: Vec<u8> = Vec::new();
    let mut index: u64 = archive.header.size;
    let mut over: bool = false;
    let ghost mut goffset: int = archive.header@.size as int;
    let n = archive.header.entries.len();
    let file_len = archive.file.len();
    proof {
        assert(entriesv.skip(0) =~= entriesv);
        match spec_extract_one(
            archive.file@,
            goffset,
            entriesv,
            pathv,
            *decompression,
            max_chunk as int,
        ) {
            Ok(rest) => {
                assert(collected@ + rest =~= rest);
            },
            Err(_) => {},
        }
    }
    let mut i: usize = 0;
    while i < n
        invariant
            0 <= i <= n,
            n == archive.header.entries@.len(),
            max_chunk >= 1,
            entriesv == archive.header@.entries,
            entriesv.len() == n,
            hsize == archive.header@.size as int,
            pathv == path_in_archive@,
            archive.file@.len() == file_len,
            over ==> goffset > archive.file@.len(),
            !over ==> goffset == index as int,
            spec_extract_one(
                archive.file@,
                hsize,
                entriesv,
                pathv,
                *decompression,
                max_chunk as int,
            ) == (match spec_extract_one(
                archive.file@,
                goffset,
                entriesv.skip(i as int),
                pathv,
                *decompression,
                max_chunk as int,
            ) {
                Ok(rest) => Ok::<Seq<u8>, ArchiveError>(collected@ + rest),
                Err(err) => Err::<Seq<u8>, ArchiveError>(err),
            }),
        decreases n - i,
    {
        let ghost col0 = collected@;
        let ghost idx0 = goffset;
        let e_size = archive.header.entries[i].size;
        proof {
            assert(entriesv.skip(i as int)[0] == entriesv[i as int]);
            assert(entriesv.skip(i as int).drop_first() =~= entriesv.skip(i + 1));
        }
        if archive.header.entries[i].path == *path_in_archive {
            if over {
                return Err(ArchiveError::PayloadOutOfBounds);
            }
            match buffered_copy(
                &archive.file,
                &mut collected,
                &mut index,
                e_size,
                decompression,
                max_chunk,
            ) {
                Ok(_) => {
                    proof {
                        goffset = goffset + e_size;
                    }
                },
                Err(err) => {
                    return Err(err);
                },
            }
            i = i + 1;
            proof {
                match spec_extract_one(
                    archive.file@,
                    goffset,
                    entriesv.skip(i as int),
                    pathv,
                    *decompression,
                    max_chunk as int,
                ) {
                    Ok(rest) => {
                        assert(col0 + (spec_chunked(
                            *decompression,
                            archive.file@.subrange(idx0, idx0 + entriesv[i - 1].size),
                            max_chunk as int,
                        ) + rest) =~= collected@ + rest);
                    },
                    Err(_) => {},
                }
            }
        } else {
            if !over {
                if e_size > u64::MAX - index {
                    over = true;
                } else {
                    index = index + e_size;
                }
            }
            proof {
                goffset = goffset + e_size;
            }
            i = i + 1;
        }
    }
    proof {
        assert(entriesv.skip(n as int) =~= Seq::<FileEntryV>::empty());
        assert(spec_extract_one(
            archive.file@,
            goffset,
            Seq::<FileEntryV>::empty(),
            pathv,
            *decompression,
            max_chunk as int,
        ) == Ok::<Seq<u8>, ArchiveError>(Seq::empty()));
        assert(collected@ + Seq::<u8>::empty() =~= collected@);
    }
    out_file.append(&mut collected);
    Ok(())
}

/// The payload region yields each file's bytes back: reading each entry's
/// recorded range out of the concatenated contents, in table order, gives
/// exactly the contents that were appended.
proof fn lemma_unpack_payload(
    b: Seq<u8>,
    offset: int,
    files: Seq<(Seq<char>, Seq<u8>)>,
    roots: Seq<Seq<char>>,
)
    requires
        0 <= offset,
        offset + spec_concat_contents(files).len() <= b.len(),
        b.subrange(offset, offset + spec_concat_contents(files).len() as int)
            == spec_concat_contents(files),
        forall|j: int| 0 <= j < files.len() ==> (#[trigger] files[j].1).len() <= u64::MAX,
    ensures
        spec_unpack_entries(
            b,
            offset,
            spec_relativize_entries(spec_entries_of_files(files), roots),
        ) == Ok::<Seq<(Seq<char>, Seq<u8>)>, ArchiveError>(
            files.map_values(|f: (Seq<char>, Seq<u8>)| (spec_relative_path(f.0, roots), f.1)),
        ),
    decreases files.len(),
{
    let entries = spec_relativize_entries(spec_entries_of_files(files), roots);
    let mapped = files.map_values(|f: (Seq<char>, Seq<u8>)| (spec_relative_path(f.0, roots), f.1));
    if files.len() == 0 {
        assert(entries.len() == 0);
        assert(mapped =~~= Seq::<(Seq<char>, Seq<u8>)>::empty());
    } else {
        let f0 = files[0];
        let c0 = f0.1;
        let total = spec_concat_contents(files).len() as int;
        assert(spec_concat_contents(files) == c0 + spec_concat_contents(files.drop_first()));
        assert(entries[0] == (FileEntryV {
            path: spec_relative_path(f0.0, roots),
            size: c0.len() as u64,
        }));
        assert(entries[0].size as int == c0.len());
        b.lemma_slice_of_slice(offset, offset + total, 0, c0.len() as int);
        assert(spec_concat_contents(files).subrange(0, c0.len() as int) =~= c0);
        assert(b.subrange(offset, offset + c0.len() as int) == c0);
        let rb = spec_concat_contents(files.drop_first());
        b.lemma_slice_of_slice(offset, offset + total, c0.len() as int, total);
        assert(spec_concat_contents(files).subrange(c0.len() as int, total) =~= rb);
        assert(b.subrange(offset + c0.len() as int, offset + c0.len() as int + rb.len() as int)
            == rb);
        assert forall|j: int| 0 <= j < files.drop_first().len() implies (#[trigger] files.drop_first()[j].1).len() <= u64::MAX by {
            assert(files.drop_first()[j] == files[j + 1]);
        }
        lemma_unpack_payload(b, offset + c0.len() as int, files.drop_first(), roots);
        assert(entries.drop_first() =~~= spec_relativize_entries(
            spec_entries_of_files(files.drop_first()),
            roots,
        ));
        assert(seq![(entries[0].path, b.subrange(offset, offset + entries[0].size))]
            + files.drop_first().map_values(
            |f: (Seq<char>, Seq<u8>)| (spec_relative_path(f.0, roots), f.1),
        ) =~~= mapped);
    }
}

/// Law (round trip): unpacking a container that a pack operation wrote
/// yields every packed file's bytes exactly, each under its relative
/// path, in pack order.
pub proof fn lemma_pack_unpack_round_trip(
    files: Seq<(Seq<char>, Seq<u8>)>,
    roots: Seq<Seq<char>>,
    tags: Seq<(Seq<char>, Seq<char>)>,
)
    requires
        tags.len() <= u64::MAX,
        files.len() <= u64::MAX,
        forall|j: int|
            0 <= j < tags.len() ==> (#[trigger] encode_utf8(tags[j].0)).len() <= u64::MAX
                && encode_utf8(tags[j].1).len() <= u64::MAX,
        forall|j: int|
            0 <= j < files.len() ==> (#[trigger] encode_utf8(
                spec_relative_path(files[j].0, roots),
            )).len() <= u64::MAX,
        forall|j: int| 0 <= j < files.len() ==> (#[trigger] files[j].1).len() <= u64::MAX,
        9 + spec_header_body(
            tags,
            spec_relativize_entries(spec_entries_of_files(files), roots),
        ).len() <= u64::MAX,
    ensures
        spec_unpack(spec_archive_bytes(files, roots, tags)) == Ok::<
            Seq<(Seq<char>, Seq<u8>)>,
            ArchiveError,
        >(files.map_values(|f: (Seq<char>, Seq<u8>)| (spec_relative_path(f.0, roots), f.1))),
{
    let entries = spec_relativize_entries(spec_entries_of_files(files), roots);
    let hbytes = spec_header_bytes(crate::ARCHIVE_VERSION, tags, entries);
    let payload = spec_concat_contents(files);
    let b = spec_archive_bytes(files, roots, tags);
    assert(entries.len() == files.len());
    assert forall|j: int| 0 <= j < entries.len() implies (#[trigger] encode_utf8(
        entries[j].path,
    )).len() <= u64::MAX by {
        assert(entries[j].path == spec_relative_path(files[j].0, roots));
    }
    crate::header::lemma_header_round_trip(crate::ARCHIVE_VERSION, tags, entries, payload);
    assert(b == hbytes + payload);
    assert(spec_parse_header(b) == Ok::<HeaderV, ArchiveError>(
        HeaderV {
            version: crate::ARCHIVE_VERSION,
            entries,
            tags,
            size: hbytes.len() as u64,
        },
    ));
    assert(b.subrange(hbytes.len() as int, hbytes.len() as int + payload.len() as int)
        =~= payload);
    lemma_unpack_payload(b, hbytes.len() as int, files, roots);
    assert((hbytes.len() as u64) as int == hbytes.len() as int);
}

/// The byte offset of entry `k`'s payload: the header's size plus the
/// recorded sizes of every entry before it.
pub open spec fn spec_entry_offset(hsize: int, entries: Seq<FileEntryV>, k: int) -> int
    decreases k,
{
    if k <= 0 {
        hsize
    } else {
        spec_entry_offset(hsize, entries, k - 1) + entries[k - 1].size
    }
}

/// Extraction by path yields nothing when no entry matches, whatever the
/// offsets say.
proof fn lemma_extract_one_no_match<T: Transform>(
    file: Seq<u8>,
    offset: int,
    entries: Seq<FileEntryV>,
    path: Seq<char>,
    t: T,
    max: int,
)
    requires
        forall|j: int| 0 <= j < entries.len() ==> (#[trigger] entries[j].path) != path,
    ensures
        spec_extract_one(file, offset, entries, path, t, max) == Ok::<Seq<u8>, ArchiveError>(
            Seq::empty(),
        ),
    decreases entries.len(),
{
    if entries.len() == 0 {
    } else {
        assert(entries[0].path != path);
        assert forall|j: int| 0 <= j < entries.drop_first().len() implies (#[trigger] entries.drop_first()[j].path) != path by {
            assert(entries.drop_first()[j] == entries[j + 1]);
        }
        lemma_extract_one_no_match(
            file,
            offset + entries[0].size,
            entries.drop_first(),
            path,
            t,
            max,
        );
    }
}

/// Dropping the first entry shifts every later entry's offset by its
/// size.
proof fn lemma_entry_offset_shift(hsize: int, entries: Seq<FileEntryV>, k: int)
    requires
        1 <= k <= entries.len(),
    ensures
        spec_entry_offset(hsize, entries, k) == spec_entry_offset(
            hsize + entries[0].size,
            entries.drop_first(),
            k - 1,
        ),
    decreases k,
{
    if k == 1 {
        assert(spec_entry_offset(hsize, entries, 0) == hsize);
        assert(spec_entry_offset(hsize + entries[0].size, entries.drop_first(), 0) == hsize
            + entries[0].size);
    } else {
        lemma_entry_offset_shift(hsize, entries, k - 1);
        assert(entries.drop_first()[k - 2] == entries[k - 1]);
        assert(spec_entry_offset(hsize, entries, k) == spec_entry_offset(hsize, entries, k - 1)
            + entries[k - 1].size);
        assert(spec_entry_offset(hsize + entries[0].size, entries.drop_first(), k - 1)
            == spec_entry_offset(hsize + entries[0].size, entries.drop_first(), k - 2)
            + entries.drop_first()[k - 2].size);
    }
}

/// Law (offset accumulation): when exactly one entry carries the wanted
/// path, extracting that path reads exactly the entry's recorded size
/// starting at its accumulated offset, and nothing from any other
/// entry's range.
pub proof fn lemma_extract_one_offsets<T: Transform>(
    file: Seq<u8>,
    hsize: int,
    entries: Seq<FileEntryV>,
    path: Seq<char>,
    t: T,
    max: int,
    k: int,
)
    requires
        0 <= k < entries.len(),
        entries[k].path == path,
        forall|j: int|
            0 <= j < entries.len() && j != k ==> (#[trigger] entries[j].path) != path,
        spec_entry_offset(hsize, entries, k) + entries[k].size <= file.len(),
    ensures
        spec_extract_one(file, hsize, entries, path, t, max) == Ok::<Seq<u8>, ArchiveError>(
            spec_chunked(
                t,
                file.subrange(
                    spec_entry_offset(hsize, entries, k),
                    spec_entry_offset(hsize, entries, k) + entries[k].size,
                ),
                max,
            ),
        ),
    decreases entries.len(),
{
    if k == 0 {
        assert forall|j: int| 0 <= j < entries.drop_first().len() implies (#[trigger] entries.drop_first()[j].path) != path by {
            assert(entries.drop_first()[j] == entries[j + 1]);
        }
        lemma_extract_one_no_match(
            file,
            hsize + entries[0].size,
            entries.drop_first(),
            path,
            t,
            max,
        );
        assert(spec_entry_offset(hsize, entries, 0) == hsize);
        assert(spec_chunked(t, file.subrange(hsize, hsize + entries[0].size), max)
            + Seq::<u8>::empty() =~= spec_chunked(
            t,
            file.subrange(hsize, hsize + entries[0].size),
            max,
        ));
    } else {
        assert(entries[0].path != path);
        lemma_entry_offset_shift(hsize, entries, k);
        assert(entries.drop_first()[k - 1] == entries[k]);
        assert forall|j: int|
            0 <= j < entries.drop_first().len() && j != k - 1 implies (#[trigger] entries.drop_first()[j].path) != path by {
            assert(entries.drop_first()[j] == entries[j + 1]);
        }
        lemma_extract_one_offsets(
            file,
            hsize + entries[0].size,
            entries.drop_first(),
            path,
            t,
            max,
            k - 1,
        );
    }
}

/// The per-root expansions, flattened in root order.
pub open spec fn spec_concat_trees(trees: Seq<Seq<Seq<char>>>) -> Seq<Seq<char>>
    decreases trees.len(),
{
    if trees.len() == 0 {
        Seq::empty()
    } else {
        trees[0] + spec_concat_trees(trees.drop_first())
    }
}

/// Paths in first-seen order: each of `rest` in turn is appended to `acc`
/// only when it is not already present.
pub open spec fn spec_dedup(acc: Seq<Seq<char>>, rest: Seq<Seq<char>>) -> Seq<Seq<char>>
    decreases rest.len(),
{
    if rest.len() == 0 {
        acc
    } else if acc.contains(rest[0]) {
        spec_dedup(acc, rest.drop_first())
    } else {
        spec_dedup(acc.push(rest[0]), rest.drop_first())
    }
}

/// The mathematical value of a list of per-root path lists.
pub open spec fn spec_trees_view(trees: Seq<Vec<String>>) -> Seq<Seq<Seq<char>>> {
    trees.map_values(|t: Vec<String>| spec_paths_view(t@))
}

/// True when no path occurs twice.
pub open spec fn spec_no_duplicates(s: Seq<Seq<char>>) -> bool {
    forall|i: int, j: int| 0 <= i < j < s.len() ==> s[i] != s[j]
}

/// A sequence holds a path exactly when it is the first element or the
/// rest holds it.
proof fn lemma_contains_unfold(rest: Seq<Seq<char>>)
    requires
        rest.len() > 0,
    ensures
        forall|p: Seq<char>|
            #[trigger] rest.contains(p) <==> (p == rest[0] || rest.drop_first().contains(p)),
{
    assert forall|p: Seq<char>|
        #[trigger] rest.contains(p) <==> (p == rest[0] || rest.drop_first().contains(p)) by {
        if rest.contains(p) {
            let i = choose|i: int| 0 <= i < rest.len() && rest[i] == p;
            if i > 0 {
                assert(rest.drop_first()[i - 1] == p);
                assert(rest.drop_first().contains(p));
            }
        }
        if rest.drop_first().contains(p) {
            let i = choose|i: int|
                0 <= i < rest.drop_first().len() && rest.drop_first()[i] == p;
            assert(rest[i + 1] == p);
            assert(rest.contains(p));
        }
        if p == rest[0] {
            assert(rest[0] == p);
            assert(rest.contains(p));
        }
    }
}

/// A pushed sequence holds a path exactly when the sequence already held
/// it or it is the pushed one.
proof fn lemma_contains_push(s: Seq<Seq<char>>, q: Seq<char>)
    ensures
        forall|p: Seq<char>| #[trigger] s.push(q).contains(p) <==> (s.contains(p) || p == q),
{
    assert forall|p: Seq<char>| #[trigger] s.push(q).contains(p) <==> (s.contains(p) || p == q) by {
        if s.push(q).contains(p) {
            let i = choose|i: int| 0 <= i < s.push(q).len() && s.push(q)[i] == p;
            if i < s.len() {
                assert(s[i] == p);
                assert(s.contains(p));
            }
        }
        if s.contains(p) {
            let i = choose|i: int| 0 <= i < s.len() && s[i] == p;
            assert(s.push(q)[i] == p);
            assert(s.push(q).contains(p));
        }
        if p == q {
            assert(s.push(q)[s.len() as int] == p);
            assert(s.push(q).contains(p));
        }
    }
}

/// Law: deduplication yields each path at most once, and a path comes out
/// exactly when it went in.
pub proof fn lemma_dedup_correct(acc: Seq<Seq<char>>, rest: Seq<Seq<char>>)
    requires
        spec_no_duplicates(acc),
    ensures
        spec_no_duplicates(spec_dedup(acc, rest)),
        forall|p: Seq<char>|
            #[trigger] spec_dedup(acc, rest).contains(p) <==> (acc.contains(p) || rest.contains(
                p,
            )),
    decreases rest.len(),
{
    if rest.len() == 0 {
        assert(spec_dedup(acc, rest) == acc);
        assert(forall|p: Seq<char>| !rest.contains(p));
    } else {
        let first = rest[0];
        lemma_contains_unfold(rest);
        if acc.contains(first) {
            lemma_dedup_correct(acc, rest.drop_first());
        } else {
            lemma_contains_push(acc, first);
            assert forall|i: int, j: int|
                0 <= i < j < acc.push(first).len() implies acc.push(first)[i] != acc.push(
                first,
            )[j] by {
                if j < acc.len() {
                    assert(acc[i] != acc[j]);
                } else {
                    if acc[i] == first {
                        assert(acc.contains(first));
                    }
                }
            }
            lemma_dedup_correct(acc.push(first), rest.drop_first());
        }
    }
}

/// Appending one more path to the input either changes nothing, when the
/// deduplicated list already holds it, or appends it.
proof fn lemma_dedup_snoc(acc: Seq<Seq<char>>, rest: Seq<Seq<char>>, p: Seq<char>)
    ensures
        spec_dedup(acc, rest.push(p)) == (if spec_dedup(acc, rest).contains(p) {
            spec_dedup(acc, rest)
        } else {
            spec_dedup(acc, rest).push(p)
        }),
    decreases rest.len(),
{
    if rest.len() == 0 {
        assert(rest.push(p)[0] == p);
        assert(rest.push(p).drop_first() =~= Seq::<Seq<char>>::empty());
        assert(spec_dedup(acc, Seq::<Seq<char>>::empty()) == acc);
        assert(spec_dedup(acc.push(p), Seq::<Seq<char>>::empty()) == acc.push(p));
        assert(spec_dedup(acc, rest) == acc);
    } else {
        assert(rest.push(p)[0] == rest[0]);
        assert(rest.push(p).drop_first() =~~= rest.drop_first().push(p));
        if acc.contains(rest[0]) {
            lemma_dedup_snoc(acc, rest.drop_first(), p);
        } else {
            lemma_dedup_snoc(acc.push(rest[0]), rest.drop_first(), p);
        }
    }
}

/// True when `p` already occurs in `v`.
fn paths_contain(v: &Vec<String>, p: &String) -> (r: bool)
    ensures
        r == spec_paths_view(v@).contains(p@),
{
    let n = v.len();
    let mut i: usize = 0;
    while i < n
        invariant
            0 <= i <= n,
            n == v@.len(),
            forall|j: int| 0 <= j < i ==> v@[j]@ != p@,
        decreases n - i,
    {
        if v[i] == *p {
            proof {
                assert(spec_paths_view(v@)[i as int] == p@);
                assert(spec_paths_view(v@).contains(p@));
            }
            return true;
        }
        i = i + 1;
    }
    proof {
        if spec_paths_view(v@).contains(p@) {
            let j = choose|j: int|
                0 <= j < spec_paths_view(v@).len() && spec_paths_view(v@)[j] == p@;
            assert(v@[j]@ == p@);
            assert(false);
        }
    }
    false
}

/// Flattens per-root expansions into one list of file paths, in
/// first-seen order, keeping a path reachable from more than one root
/// only once.
pub fn expand_paths(trees: &Vec<Vec<String>>) -> (out: Vec<String>)
    ensures
        spec_paths_view(out@) == spec_dedup(
            Seq::empty(),
            spec_concat_trees(spec_trees_view(trees@)),
        ),
        spec_no_duplicates(spec_paths_view(out@)),
        forall|p: Seq<char>|
            #[trigger] spec_paths_view(out@).contains(p) <==> spec_concat_trees(
                spec_trees_view(trees@),
            ).contains(p),
{
    let ghost treesv = spec_trees_view(trees@);
    let mut out: Vec<String> = Vec::new();
    let n = trees.len();
    let mut i: usize = 0;
    proof {
        assert(spec_paths_view(out@) =~~= Seq::<Seq<char>>::empty());
        assert(spec_concat_trees(treesv.take(0)) =~~= Seq::<Seq<char>>::empty());
        assert(spec_dedup(Seq::empty(), Seq::<Seq<char>>::empty()) == Seq::<Seq<char>>::empty());
    }
    while i < n
        invariant
            0 <= i <= n,
            n == trees@.len(),
            treesv == spec_trees_view(trees@),
            treesv.len() == n,
            spec_paths_view(out@) == spec_dedup(
                Seq::empty(),
                spec_concat_trees(treesv.take(i as int)),
            ),
        decreases n - i,
    {
        let ghost done = spec_concat_trees(treesv.take(i as int));
        let ghost treev = treesv[i as int];
        let m = trees[i].len();
        let mut j: usize = 0;
        while j < m
            invariant
                0 <= j <= m,
                0 <= i < n,
                n == trees@.len(),
                m == trees@[i as int]@.len(),
                treesv == spec_trees_view(trees@),
                treesv.len() == n,
                treev == treesv[i as int],
                treev.len() == m,
                done == spec_concat_trees(treesv.take(i as int)),
                spec_paths_view(out@) == spec_dedup(
                    Seq::empty(),
                    done + treev.take(j as int),
                ),
            decreases m - j,
        {
            let ghost before = done + treev.take(j as int);
            let p = &trees[i][j];
            proof {
                assert(treev[j as int] == p@);
                assert(done + treev.take(j + 1) =~~= before.push(p@));
                lemma_dedup_snoc(Seq::empty(), before, p@);
            }
            if !paths_contain(&out, p) {
                out.push(p.clone());
                proof {
                    assert(spec_paths_view(out@) =~~= spec_dedup(Seq::empty(), before).push(p@));
                }
            }
            j = j + 1;
        }
        i = i + 1;
        proof {
            assert(treev.take(m as int) =~~= treev);
            assert(treesv.take(i as int).drop_last() =~~= treesv.take(i - 1));
            assert(treesv.take(i as int).last() == treev);
            lemma_concat_trees_snoc(treesv.take(i - 1), treev);
            assert(treesv.take(i - 1).push(treev) =~~= treesv.take(i as int));
            assert(done + treev =~~= spec_concat_trees(treesv.take(i as int)));
        }
    }
    proof {
        assert(treesv.take(n as int) =~~= treesv);
        lemma_dedup_correct(Seq::empty(), spec_concat_trees(treesv));
        assert(forall|p: Seq<char>| !Seq::<Seq<char>>::empty().contains(p));
    }
    out
}

/// Flattening one more root's expansion appends its paths.
proof fn lemma_concat_trees_snoc(trees: Seq<Seq<Seq<char>>>, t: Seq<Seq<char>>)
    ensures
        spec_concat_trees(trees.push(t)) == spec_concat_trees(trees) + t,
    decreases trees.len(),
{
    if trees.len() == 0 {
        assert(trees.push(t)[0] == t);
        assert(trees.push(t).drop_first() =~~= Seq::<Seq<Seq<char>>>::empty());
        assert(spec_concat_trees(Seq::<Seq<Seq<char>>>::empty()) == Seq::<Seq<char>>::empty());
        assert(t + Seq::<Seq<char>>::empty() =~~= spec_concat_trees(trees) + t);
    } else {
        assert(trees.push(t).drop_first() =~~= trees.drop_first().push(t));
        lemma_concat_trees_snoc(trees.drop_first(), t);
        assert(trees[0] + (spec_concat_trees(trees.drop_first()) + t) =~~= (trees[0]
            + spec_concat_trees(trees.drop_first())) + t);
    }
}

/// The entry table for the given paths and their reported sizes: a path
/// whose size could not be read is dropped, and the rest keep their
/// order.
pub open spec fn spec_entries_with_sizes(paths: Seq<Seq<char>>, sizes: Seq<Option<u64>>) -> Seq<
    FileEntryV,
>
    decreases paths.len(),
{
    if paths.len() == 0 || sizes.len() == 0 {
        Seq::empty()
    } else {
        let rest = spec_entries_with_sizes(paths.drop_first(), sizes.drop_first());
        match sizes[0] {
            Some(s) => seq![FileEntryV { path: paths[0], size: s }] + rest,
            None => rest,
        }
    }
}

/// Pairs each path with its reported byte length, dropping every path
/// whose length could not be read, so that the caller can skip it and
/// report it rather than abort the whole pack.
pub fn get_file_sizes(paths: Vec<String>, sizes: &Vec<Option<u64>>) -> (out: Vec<FileEntry>)
    requires
        paths@.len() == sizes@.len(),
    ensures
        spec_entries_view(out@) == spec_entries_with_sizes(spec_paths_view(paths@), sizes@),
{
    let ghost pathsv = spec_paths_view(paths@);
    let mut out: Vec<FileEntry> = Vec::new();
    let n = paths.len();
    proof {
        assert(pathsv.skip(0) =~~= pathsv);
        assert(sizes@.skip(0) =~= sizes@);
        assert(spec_entries_view(out@) =~~= Seq::<FileEntryV>::empty());
        assert(Seq::<FileEntryV>::empty() + spec_entries_with_sizes(pathsv, sizes@)
            =~~= spec_entries_with_sizes(pathsv, sizes@));
    }
    let mut i: usize = 0;
    while i < n
        invariant
            0 <= i <= n,
            n == paths@.len(),
            n == sizes@.len(),
            pathsv == spec_paths_view(paths@),
            pathsv.len() == n,
            spec_entries_with_sizes(pathsv, sizes@) == spec_entries_view(out@)
                + spec_entries_with_sizes(pathsv.skip(i as int), sizes@.skip(i as int)),
        decreases n - i,
    {
        let ghost out0 = out@;
        proof {
            assert(pathsv.skip(i as int)[0] == pathsv[i as int]);
            assert(sizes@.skip(i as int)[0] == sizes@[i as int]);
            assert(pathsv.skip(i as int).drop_first() =~~= pathsv.skip(i + 1));
            assert(sizes@.skip(i as int).drop_first() =~= sizes@.skip(i + 1));
        }
        match sizes[i] {
            Some(size) => {
                let path = paths[i].clone();
                out.push(FileEntry { path, size });
                proof {
                    let e = FileEntryV { path: pathsv[i as int], size: sizes@[i as int]->0 };
                    assert(spec_entries_view(out@) =~~= spec_entries_view(out0).push(e));
                    assert(spec_entries_view(out0) + (seq![e] + spec_entries_with_sizes(
                        pathsv.skip(i + 1),
                        sizes@.skip(i + 1),
                    )) =~~= spec_entries_view(out@) + spec_entries_with_sizes(
                        pathsv.skip(i + 1),
                        sizes@.skip(i + 1),
                    ));
                }
            },
            None => {},
        }
        i = i + 1;
    }
    proof {
        assert(pathsv.skip(n as int).len() == 0);
        assert(spec_entries_with_sizes(pathsv.skip(n as int), sizes@.skip(n as int))
            == Seq::<FileEntryV>::empty());
        assert(spec_entries_view(out@) + Seq::<FileEntryV>::empty() =~~= spec_entries_view(out@));
    }
    out
}

/// Lists the paths of an archive's entries, in table order, without
/// touching any payload byte.
pub fn list_archive(archive: &Archive) -> (paths: Vec<String>)
    ensures
        spec_paths_view(paths@) == archive.header@.entries.map_values(|e: FileEntryV| e.path),
{
    let ghost target = archive.header@.entries.map_values(|e: FileEntryV| e.path);
    let mut paths: Vec<String> = Vec::new();
    let n = archive.header.entries.len();
    let mut i: usize = 0;
    while i < n
        invariant
            0 <= i <= n,
            n == archive.header.entries@.len(),
            target == archive.header@.entries.map_values(|e: FileEntryV| e.path),
            target.len() == n,
            paths@.len() == i as int,
            spec_paths_view(paths@) == target.take(i as int),
        decreases n - i,
    {
        paths.push(archive.header.entries[i].path.clone());
        i = i + 1;
        proof {
            assert(paths@[i - 1]@ == archive.header.entries@[i - 1].path@);
            assert(target[i - 1] == archive.header@.entries[i - 1].path);
            assert(spec_paths_view(paths@) =~~= target.take(i as int));
        }
    }
    proof {
        assert(target.take(n as int) =~= target);
    }
    paths
}

} // verus!
