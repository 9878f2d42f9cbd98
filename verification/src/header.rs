//! The header model and codec: the in-memory form of an archive's metadata
//! (version, tag map, file entry table) and its serialization to and from
//! the container's byte layout.
//!
//! Layout, in order: one version byte; an 8-byte little-endian header size,
//! counting every header byte from the version byte on; an 8-byte tag count
//! and the tags, each a sized-string key then a sized-string value; an
//! 8-byte entry count and the entries, each an 8-byte payload size then a
//! sized-string relative path.

use vstd::prelude::*;
use vstd::bytes::*;
use vstd::utf8::*;
use vstd::slice::*;
use crate::codec::{spec_sized_string, spec_parse_sized_string, read_sized_bit_string};
use crate::{ArchiveError, spec_version_supported, version_supported};
use crate::paths::{spec_relative_path, spec_paths_view};

verus! {

/// One archived file's metadata record: the path under which it is stored
/// and the byte length of its payload.
///
/// Paths in this crate are plain UTF-8 strings with `/` separating their
/// components and no trailing separator.
#[derive(Debug, Clone, PartialEq, Eq)]
pub struct FileEntry {
    pub path: String,
    pub size: u64,
}

/// The mathematical value of a [`FileEntry`].
#[verifier::ext_equal]
pub struct FileEntryV {
    pub path: Seq<char>,
    pub size: u64,
}

impl View for FileEntry {
    type V = FileEntryV;

    open spec fn view(&self) -> FileEntryV {
        FileEntryV { path: self.path@, size: self.size }
    }
}

/// An archive's metadata: its format version, its entry table in payload
/// order, its tag map, and the header's own byte length as recorded in the
/// container.
///
/// The entry order is load-bearing: each entry's payload offset is the
/// header size plus the sizes of every entry before it, so the table order
/// must equal the payload write order.
#[derive(Debug, PartialEq, Eq)]
pub struct Header {
    pub version: u8,
    pub entries: Vec<FileEntry>,
    pub tags: Vec<(String, String)>,
    pub size: u64,
}

/// The mathematical value of a [`Header`].
#[verifier::ext_equal]
pub struct HeaderV {
    pub version: u8,
    pub entries: Seq<FileEntryV>,
    pub tags: Seq<(Seq<char>, Seq<char>)>,
    pub size: u64,
}

/// The mathematical value of a tag list.
pub open spec fn spec_tags_view(tags: Seq<(String, String)>) -> Seq<(Seq<char>, Seq<char>)> {
    tags.map_values(|t: (String, String)| (t.0@, t.1@))
}

/// The mathematical value of an entry list.
pub open spec fn spec_entries_view(entries: Seq<FileEntry>) -> Seq<FileEntryV> {
    entries.map_values(|e: FileEntry| e@)
}

impl View for Header {
    type V = HeaderV;

    open spec fn view(&self) -> HeaderV {
        HeaderV {
            version: self.version,
            entries: spec_entries_view(self.entries@),
            tags: spec_tags_view(self.tags@),
            size: self.size,
        }
    }
}

impl Header {
    /// The format version this header was parsed with or will be written as.
    pub fn version(&self) -> (v: u8)
        ensures
            v == self@.version,
    {
        self.version
    }

    /// The header's byte length as recorded in the container: the offset of
    /// the first payload byte.
    pub fn size(&self) -> (s: u64)
        ensures
            s == self@.size,
    {
        self.size
    }

    /// A fresh header for packing: current version, the given tags and
    /// entries, and a size of zero. The real size exists only in the
    /// serialized bytes; parsing them back fills this field in.
    pub fn new(tags: Vec<(String, String)>, entries: Vec<FileEntry>) -> (h: Header)
        ensures
            h@ == (HeaderV {
                version: crate::ARCHIVE_VERSION,
                entries: spec_entries_view(entries@),
                tags: spec_tags_view(tags@),
                size: 0,
            }),
    {
        Header { version: crate::ARCHIVE_VERSION, entries, tags, size: 0 }
    }
}

// ***** Serialization: the byte image of a header *****

/// The encoded form of one tag: sized-string key, then sized-string value.
pub open spec fn spec_tag_bytes(t: (Seq<char>, Seq<char>)) -> Seq<u8> {
    spec_sized_string(t.0) + spec_sized_string(t.1)
}

/// The encoded form of a tag list, in list order.
pub open spec fn spec_tags_bytes(tags: Seq<(Seq<char>, Seq<char>)>) -> Seq<u8>
    decreases tags.len(),
{
    if tags.len() == 0 {
        Seq::empty()
    } else {
        spec_tag_bytes(tags[0]) + spec_tags_bytes(tags.drop_first())
    }
}

/// The encoded form of one entry: its payload size as a little-endian u64,
/// then its path as a sized string.
pub open spec fn spec_entry_bytes(e: FileEntryV) -> Seq<u8> {
    spec_u64_to_le_bytes(e.size) + spec_sized_string(e.path)
}

/// The encoded form of an entry table, in table order.
pub open spec fn spec_entries_bytes(entries: Seq<FileEntryV>) -> Seq<u8>
    decreases entries.len(),
{
    if entries.len() == 0 {
        Seq::empty()
    } else {
        spec_entry_bytes(entries[0]) + spec_entries_bytes(entries.drop_first())
    }
}

/// The header body: tag count and tags, then entry count and entries.
pub open spec fn spec_header_body(
    tags: Seq<(Seq<char>, Seq<char>)>,
    entries: Seq<FileEntryV>,
) -> Seq<u8> {
    spec_u64_to_le_bytes(tags.len() as u64) + spec_tags_bytes(tags)
        + spec_u64_to_le_bytes(entries.len() as u64) + spec_entries_bytes(entries)
}

/// The full serialized header: version byte, the header's own total byte
/// length as a little-endian u64, then the body. The size field counts
/// every header byte, from the version byte through the end of the body,
/// so it is also the byte offset of the first payload byte.
pub open spec fn spec_header_bytes(
    version: u8,
    tags: Seq<(Seq<char>, Seq<char>)>,
    entries: Seq<FileEntryV>,
) -> Seq<u8> {
    seq![version] + spec_u64_to_le_bytes((9 + spec_header_body(tags, entries).len()) as u64)
        + spec_header_body(tags, entries)
}

/// The entry table as the serialized header records it: each entry's path
/// replaced by its relative form under the given root paths.
pub open spec fn spec_relativize_entries(
    entries: Seq<FileEntryV>,
    roots: Seq<Seq<char>>,
) -> Seq<FileEntryV> {
    entries.map_values(
        |e: FileEntryV| FileEntryV { path: spec_relative_path(e.path, roots), size: e.size },
    )
}

/// Serializing one more tag appends its bytes.
proof fn lemma_tags_bytes_push(tags: Seq<(Seq<char>, Seq<char>)>, t: (Seq<char>, Seq<char>))
    ensures
        spec_tags_bytes(tags.push(t)) == spec_tags_bytes(tags) + spec_tag_bytes(t),
    decreases tags.len(),
{
    if tags.len() == 0 {
        assert(tags.push(t)[0] == t);
        assert(tags.push(t).drop_first() =~= Seq::<(Seq<char>, Seq<char>)>::empty());
        assert(spec_tags_bytes(Seq::<(Seq<char>, Seq<char>)>::empty()) == Seq::<u8>::empty());
        assert(spec_tags_bytes(tags.push(t)) == spec_tag_bytes(t) + Seq::<u8>::empty());
        assert(spec_tag_bytes(t) + Seq::<u8>::empty() =~= spec_tags_bytes(tags) + spec_tag_bytes(
            t,
        ));
    } else {
        assert(tags.push(t).drop_first() =~= tags.drop_first().push(t));
        lemma_tags_bytes_push(tags.drop_first(), t);
        assert(spec_tag_bytes(tags[0]) + (spec_tags_bytes(tags.drop_first()) + spec_tag_bytes(t))
            =~= (spec_tag_bytes(tags[0]) + spec_tags_bytes(tags.drop_first())) + spec_tag_bytes(t));
    }
}

/// Serializing one more entry appends its bytes.
proof fn lemma_entries_bytes_push(entries: Seq<FileEntryV>, e: FileEntryV)
    ensures
        spec_entries_bytes(entries.push(e)) == spec_entries_bytes(entries) + spec_entry_bytes(e),
    decreases entries.len(),
{
    if entries.len() == 0 {
        assert(entries.push(e)[0] == e);
        assert(entries.push(e).drop_first() =~= Seq::<FileEntryV>::empty());
        assert(spec_entries_bytes(Seq::<FileEntryV>::empty()) == Seq::<u8>::empty());
        assert(spec_entries_bytes(entries.push(e)) == spec_entry_bytes(e) + Seq::<u8>::empty());
        assert(spec_entry_bytes(e) + Seq::<u8>::empty() =~= spec_entries_bytes(entries)
            + spec_entry_bytes(e));
    } else {
        assert(entries.push(e).drop_first() =~= entries.drop_first().push(e));
        lemma_entries_bytes_push(entries.drop_first(), e);
        assert(spec_entry_bytes(entries[0]) + (spec_entries_bytes(entries.drop_first())
            + spec_entry_bytes(e)) =~= (spec_entry_bytes(entries[0]) + spec_entries_bytes(
            entries.drop_first(),
        )) + spec_entry_bytes(e));
    }
}

/// Serializes a header into the byte image written at the front of a
/// container: version byte, total header length, tag table, entry table.
///
/// Each entry's path is recorded relative to the last of `root_paths` that
/// is a strict parent of it, so that unpacking recreates the tree below
/// the roots rather than the absolute paths they came from.
pub fn gen_header(header: &Header, root_paths: &Vec<String>) -> (data: Vec<u8>)
    requires
        9 + spec_header_body(
            header@.tags,
            spec_relativize_entries(header@.entries, spec_paths_view(root_paths@)),
        ).len() <= u64::MAX,
    ensures
        data@ == spec_header_bytes(
            header@.version,
            header@.tags,
            spec_relativize_entries(header@.entries, spec_paths_view(root_paths@)),
        ),
{
    let ghost tagsv = header@.tags;
    let ghost rootsv = spec_paths_view(root_paths@);
    let ghost entriesv = spec_relativize_entries(header@.entries, rootsv);

    let mut body: Vec<u8> = Vec::new();
    let mut count_bytes = u64_to_le_bytes(header.tags.len() as u64);
    body.append(&mut count_bytes);

    let tag_n = header.tags.len();
    let mut i: usize = 0;
    while i < tag_n
        invariant
            0 <= i <= tag_n,
            tag_n == header.tags@.len(),
            tagsv == spec_tags_view(header.tags@),
            body@ == spec_u64_to_le_bytes(tagsv.len() as u64) + spec_tags_bytes(
                tagsv.take(i as int),
            ),
        decreases tag_n - i,
    {
        let mut kb = crate::codec::sized_bit_string(&header.tags[i].0);
        body.append(&mut kb);
        let mut vb = crate::codec::sized_bit_string(&header.tags[i].1);
        body.append(&mut vb);
        i = i + 1;
        proof {
            lemma_tags_bytes_push(tagsv.take(i - 1), tagsv[i - 1]);
            assert(tagsv.take(i as int) =~= tagsv.take(i - 1).push(tagsv[i - 1]));
            assert(body@ =~= spec_u64_to_le_bytes(tagsv.len() as u64) + spec_tags_bytes(
                tagsv.take(i - 1),
            ) + spec_tag_bytes(tagsv[i - 1]));
        }
    }
    proof {
        assert(tagsv.take(tag_n as int) =~= tagsv);
    }

    let mut entry_count_bytes = u64_to_le_bytes(header.entries.len() as u64);
    body.append(&mut entry_count_bytes);

    let entry_n = header.entries.len();
    let mut j: usize = 0;
    while j < entry_n
        invariant
            0 <= j <= entry_n,
            entry_n == header.entries@.len(),
            tagsv == spec_tags_view(header.tags@),
            rootsv == spec_paths_view(root_paths@),
            entriesv == spec_relativize_entries(header@.entries, rootsv),
            entriesv.len() == entry_n,
            body@ == spec_u64_to_le_bytes(tagsv.len() as u64) + spec_tags_bytes(tagsv)
                + spec_u64_to_le_bytes(entriesv.len() as u64) + spec_entries_bytes(
                entriesv.take(j as int),
            ),
        decreases entry_n - j,
    {
        let mut sb = u64_to_le_bytes(header.entries[j].size);
        body.append(&mut sb);
        let rel = crate::paths::relative_path(&header.entries[j].path, root_paths);
        let mut pb = crate::codec::sized_bit_string(&rel);
        body.append(&mut pb);
        j = j + 1;
        proof {
            assert(entriesv[j - 1] == (FileEntryV {
                path: spec_relative_path(header.entries@[j - 1]@.path, rootsv),
                size: header.entries@[j - 1]@.size,
            }));
            lemma_entries_bytes_push(entriesv.take(j - 1), entriesv[j - 1]);
            assert(entriesv.take(j as int) =~= entriesv.take(j - 1).push(entriesv[j - 1]));
            assert(body@ =~= spec_u64_to_le_bytes(tagsv.len() as u64) + spec_tags_bytes(tagsv)
                + spec_u64_to_le_bytes(entriesv.len() as u64) + spec_entries_bytes(
                entriesv.take(j - 1),
            ) + spec_entry_bytes(entriesv[j - 1]));
        }
    }
    proof {
        assert(entriesv.take(entry_n as int) =~= entriesv);
        assert(body@ =~= spec_header_body(tagsv, entriesv));
    }

    let body_len = body.len();
    let total: u64 = 9 + body_len as u64;
    let mut data: Vec<u8> = Vec::new();
    data.push(header.version);
    let mut size_bytes = u64_to_le_bytes(total);
    data.append(&mut size_bytes);
    data.append(&mut body);
    proof {
        assert(data@ =~= spec_header_bytes(header@.version, tagsv, entriesv));
    }
    data
}

// ***** Parsing: reading a header back out of container bytes *****

/// What reading a little-endian u64 at position `i` of `b` yields, or
/// `None` when fewer than 8 bytes remain.
pub open spec fn spec_parse_u64(b: Seq<u8>, i: int) -> Option<(u64, int)> {
    if i < 0 || i + 8 > b.len() {
        None
    } else {
        Some((spec_u64_from_le_bytes(b.subrange(i, i + 8)), i + 8))
    }
}

/// What parsing `n` tags at position `i` of `b` yields: the tags and the
/// position just past them, or `None` when `b` ends first.
pub open spec fn spec_parse_tags(b: Seq<u8>, i: int, n: nat) -> Option<
    (Seq<(Seq<char>, Seq<char>)>, int),
>
    decreases n,
{
    if n == 0 {
        Some((Seq::empty(), i))
    } else {
        match spec_parse_sized_string(b, i) {
            Some((key, j)) => match spec_parse_sized_string(b, j) {
                Some((value, j2)) => match spec_parse_tags(b, j2, (n - 1) as nat) {
                    Some((rest, end)) => Some((seq![(key, value)] + rest, end)),
                    None => None,
                },
                None => None,
            },
            None => None,
        }
    }
}

/// What parsing one entry at position `i` of `b` yields: its size and
/// path, and the position just past them, or `None` when `b` ends first.
pub open spec fn spec_parse_entry(b: Seq<u8>, i: int) -> Option<(FileEntryV, int)> {
    match spec_parse_u64(b, i) {
        Some((size, j)) => match spec_parse_sized_string(b, j) {
            Some((path, j2)) => Some((FileEntryV { path, size }, j2)),
            None => None,
        },
        None => None,
    }
}

/// What parsing `n` entries at position `i` of `b` yields.
pub open spec fn spec_parse_entries(b: Seq<u8>, i: int, n: nat) -> Option<(Seq<FileEntryV>, int)>
    decreases n,
{
    if n == 0 {
        Some((Seq::empty(), i))
    } else {
        match spec_parse_entry(b, i) {
            Some((e, j)) => match spec_parse_entries(b, j, (n - 1) as nat) {
                Some((rest, end)) => Some((seq![e] + rest, end)),
                None => None,
            },
            None => None,
        }
    }
}

/// What parsing a whole container's header yields.
///
/// The first 9 bytes give the version and the recorded header size; an
/// unsupported version is fatal before anything else is read. The body is
/// then parsed strictly inside the `size`-byte window that the size field
/// declares: a field running past that window, or a window running past
/// the container, is a truncation.
pub open spec fn spec_parse_header(b: Seq<u8>) -> Result<HeaderV, ArchiveError> {
    if b.len() < 9 {
        Err(ArchiveError::TruncatedOrCorruptHeader)
    } else if !spec_version_supported(b[0]) {
        Err(ArchiveError::FormatVersionUnsupported { found: b[0] })
    } else {
        let size = spec_u64_from_le_bytes(b.subrange(1, 9));
        if size < 9 || size > b.len() {
            Err(ArchiveError::TruncatedOrCorruptHeader)
        } else {
            let hb = b.subrange(0, size as int);
            match spec_parse_u64(hb, 9) {
                None => Err(ArchiveError::TruncatedOrCorruptHeader),
                Some((tag_n, i)) => match spec_parse_tags(hb, i, tag_n as nat) {
                    None => Err(ArchiveError::TruncatedOrCorruptHeader),
                    Some((tags, i2)) => match spec_parse_u64(hb, i2) {
                        None => Err(ArchiveError::TruncatedOrCorruptHeader),
                        Some((entry_n, i3)) => match spec_parse_entries(hb, i3, entry_n as nat) {
                            None => Err(ArchiveError::TruncatedOrCorruptHeader),
                            Some((entries, _end)) => Ok(
                                HeaderV { version: b[0], entries, tags, size },
                            ),
                        },
                    },
                },
            }
        }
    }
}

// ***** Round trips: parsing undoes serialization *****

/// Law: re-parsing a serialized tag table yields the same tags, from any
/// position of any buffer that holds the serialized bytes there.
pub proof fn lemma_parse_tags_round_trip(tags: Seq<(Seq<char>, Seq<char>)>, b: Seq<u8>, i: int)
    requires
        forall|j: int|
            0 <= j < tags.len() ==> (#[trigger] encode_utf8(tags[j].0)).len() <= u64::MAX
                && encode_utf8(tags[j].1).len() <= u64::MAX,
        0 <= i,
        i + spec_tags_bytes(tags).len() <= b.len(),
        b.subrange(i, i + spec_tags_bytes(tags).len() as int) == spec_tags_bytes(tags),
    ensures
        spec_parse_tags(b, i, tags.len()) == Some(
            (tags, i + spec_tags_bytes(tags).len() as int),
        ),
    decreases tags.len(),
{
    if tags.len() == 0 {
        assert(tags =~~= Seq::<(Seq<char>, Seq<char>)>::empty());
    } else {
        let t = tags[0];
        let kb = spec_sized_string(t.0);
        let vb = spec_sized_string(t.1);
        let rest = tags.drop_first();
        let restb = spec_tags_bytes(rest);
        let total = spec_tags_bytes(tags).len() as int;
        assert(spec_tags_bytes(tags) == (kb + vb) + restb);
        assert(total == kb.len() as int + vb.len() + restb.len());
        b.lemma_slice_of_slice(i, i + total, 0, kb.len() as int);
        assert(spec_tags_bytes(tags).subrange(0, kb.len() as int) =~= kb);
        assert(b.subrange(i, i + kb.len() as int) == kb);
        crate::codec::lemma_sized_string_round_trip(t.0, b, i);
        let i2 = i + kb.len() as int;
        b.lemma_slice_of_slice(i, i + total, kb.len() as int, kb.len() as int + vb.len());
        assert(spec_tags_bytes(tags).subrange(kb.len() as int, kb.len() as int + vb.len()) =~= vb);
        assert(b.subrange(i2, i2 + vb.len() as int) == vb);
        crate::codec::lemma_sized_string_round_trip(t.1, b, i2);
        let i3 = i2 + vb.len() as int;
        assert forall|j: int| 0 <= j < rest.len() implies (#[trigger] encode_utf8(
            rest[j].0,
        )).len() <= u64::MAX && encode_utf8(rest[j].1).len() <= u64::MAX by {
            assert(rest[j] == tags[j + 1]);
        }
        b.lemma_slice_of_slice(i, i + total, kb.len() as int + vb.len(), total);
        assert(spec_tags_bytes(tags).subrange(kb.len() as int + vb.len(), total) =~= restb);
        assert(b.subrange(i3, i3 + restb.len() as int) == restb);
        lemma_parse_tags_round_trip(rest, b, i3);
        assert(seq![t] + rest =~~= tags);
    }
}

/// Law: re-parsing a serialized entry table yields the same entries, from
/// any position of any buffer that holds the serialized bytes there.
pub proof fn lemma_parse_entries_round_trip(entries: Seq<FileEntryV>, b: Seq<u8>, i: int)
    requires
        forall|j: int|
            0 <= j < entries.len() ==> (#[trigger] encode_utf8(entries[j].path)).len()
                <= u64::MAX,
        0 <= i,
        i + spec_entries_bytes(entries).len() <= b.len(),
        b.subrange(i, i + spec_entries_bytes(entries).len() as int) == spec_entries_bytes(entries),
    ensures
        spec_parse_entries(b, i, entries.len()) == Some(
            (entries, i + spec_entries_bytes(entries).len() as int),
        ),
    decreases entries.len(),
{
    lemma_auto_spec_u64_to_from_le_bytes();
    if entries.len() == 0 {
        assert(entries =~~= Seq::<FileEntryV>::empty());
    } else {
        let e = entries[0];
        let sb = spec_u64_to_le_bytes(e.size);
        let pb = spec_sized_string(e.path);
        let rest = entries.drop_first();
        let restb = spec_entries_bytes(rest);
        let total = spec_entries_bytes(entries).len() as int;
        assert(spec_entries_bytes(entries) == (sb + pb) + restb);
        assert(sb.len() == 8);
        assert(total == 8 + pb.len() as int + restb.len());
        b.lemma_slice_of_slice(i, i + total, 0, 8);
        assert(spec_entries_bytes(entries).subrange(0, 8) =~= sb);
        assert(b.subrange(i, i + 8) == sb);
        assert(spec_parse_u64(b, i) == Some((e.size, i + 8)));
        let i2 = i + 8;
        b.lemma_slice_of_slice(i, i + total, 8, 8 + pb.len() as int);
        assert(spec_entries_bytes(entries).subrange(8, 8 + pb.len() as int) =~= pb);
        assert(b.subrange(i2, i2 + pb.len() as int) == pb);
        crate::codec::lemma_sized_string_round_trip(e.path, b, i2);
        let i3 = i2 + pb.len() as int;
        assert(spec_parse_entry(b, i) == Some((FileEntryV { path: e.path, size: e.size }, i3)));
        assert(FileEntryV { path: e.path, size: e.size } =~= e);
        assert forall|j: int| 0 <= j < rest.len() implies (#[trigger] encode_utf8(
            rest[j].path,
        )).len() <= u64::MAX by {
            assert(rest[j] == entries[j + 1]);
        }
        b.lemma_slice_of_slice(i, i + total, 8 + pb.len() as int, total);
        assert(spec_entries_bytes(entries).subrange(8 + pb.len() as int, total) =~= restb);
        assert(b.subrange(i3, i3 + restb.len() as int) == restb);
        lemma_parse_entries_round_trip(rest, b, i3);
        assert(seq![e] + rest =~~= entries);
    }
}

/// Law (header size invariant and re-parse): after serialization the size
/// field equals the whole header's byte length, which is the offset of the
/// first payload byte; and parsing a container that starts with the
/// serialized header yields the same version, tags and entries, with that
/// size, whatever payload follows.
pub proof fn lemma_header_round_trip(
    version: u8,
    tags: Seq<(Seq<char>, Seq<char>)>,
    entries: Seq<FileEntryV>,
    extra: Seq<u8>,
)
    requires
        spec_version_supported(version),
        tags.len() <= u64::MAX,
        entries.len() <= u64::MAX,
        forall|j: int|
            0 <= j < tags.len() ==> (#[trigger] encode_utf8(tags[j].0)).len() <= u64::MAX
                && encode_utf8(tags[j].1).len() <= u64::MAX,
        forall|j: int|
            0 <= j < entries.len() ==> (#[trigger] encode_utf8(entries[j].path)).len()
                <= u64::MAX,
        9 + spec_header_body(tags, entries).len() <= u64::MAX,
    ensures
        spec_u64_from_le_bytes(spec_header_bytes(version, tags, entries).subrange(1, 9))
            == spec_header_bytes(version, tags, entries).len(),
        spec_parse_header(spec_header_bytes(version, tags, entries) + extra) == Ok::<
            HeaderV,
            ArchiveError,
        >(
            HeaderV {
                version,
                entries,
                tags,
                size: spec_header_bytes(version, tags, entries).len() as u64,
            },
        ),
{
    lemma_auto_spec_u64_to_from_le_bytes();
    let body = spec_header_body(tags, entries);
    let hbytes = spec_header_bytes(version, tags, entries);
    let b = hbytes + extra;
    let tagsb = spec_tags_bytes(tags);
    let entsb = spec_entries_bytes(entries);
    let hlen = 9 + body.len() as int;
    assert(hbytes == seq![version] + spec_u64_to_le_bytes(hlen as u64) + body);
    assert(body == spec_u64_to_le_bytes(tags.len() as u64) + tagsb + spec_u64_to_le_bytes(
        entries.len() as u64,
    ) + entsb);
    assert(hbytes.len() == hlen);
    assert(b.len() == hlen + extra.len());
    assert(b[0] == version);
    assert(hbytes.subrange(1, 9) =~= spec_u64_to_le_bytes(hlen as u64));
    assert(b.subrange(1, 9) =~= spec_u64_to_le_bytes(hlen as u64));
    let size = spec_u64_from_le_bytes(b.subrange(1, 9));
    assert(size == hlen as u64);
    assert(9 <= size <= b.len());
    let hb = b.subrange(0, hlen);
    assert(hb =~= hbytes);
    assert(hb.subrange(9, 17) =~= spec_u64_to_le_bytes(tags.len() as u64));
    assert(spec_parse_u64(hb, 9) == Some((tags.len() as u64, 17int)));
    assert(hb.subrange(17, 17 + tagsb.len() as int) =~= tagsb);
    lemma_parse_tags_round_trip(tags, hb, 17);
    assert((tags.len() as u64) as nat == tags.len());
    let i2 = 17 + tagsb.len() as int;
    assert(hb.subrange(i2, i2 + 8) =~= spec_u64_to_le_bytes(entries.len() as u64));
    assert(spec_parse_u64(hb, i2) == Some((entries.len() as u64, i2 + 8int)));
    let i3 = i2 + 8;
    assert(hb.subrange(i3, i3 + entsb.len() as int) =~= entsb);
    lemma_parse_entries_round_trip(entries, hb, i3);
    assert((entries.len() as u64) as nat == entries.len());
}

/// Law: a container whose version byte is outside the supported set never
/// parses, however its remaining bytes read; it fails with the version
/// error naming that byte.
pub proof fn lemma_unsupported_version_rejected(b: Seq<u8>)
    requires
        b.len() >= 9,
        !spec_version_supported(b[0]),
    ensures
        spec_parse_header(b) == Err::<HeaderV, ArchiveError>(
            ArchiveError::FormatVersionUnsupported { found: b[0] },
        ),
{
}

/// Reads a little-endian u64 field from `buffer` at `*index` and advances
/// `*index` past it, or reports that too few bytes remain.
fn read_u64_field(buffer: &Vec<u8>, index: &mut usize) -> (r: Option<u64>)
    ensures
        r matches Some(v) ==> spec_parse_u64(buffer@, *old(index) as int) == Some(
            (v, *final(index) as int),
        ),
        r is None ==> spec_parse_u64(buffer@, *old(index) as int) is None && *final(index) == *old(
            index,
        ),
{
    let i = *index;
    let n = buffer.len();
    if n < 8 || i > n - 8 {
        return None;
    }
    let v = u64_from_le_bytes(slice_subrange(buffer.as_slice(), i, i + 8));
    *index = i + 8;
    Some(v)
}

/// Reads a sized string from `buffer` at `*index` with the bounds checked
/// first: truncation is reported instead of assumed away.
fn try_read_sized_string(buffer: &Vec<u8>, index: &mut usize) -> (r: Option<String>)
    ensures
        r matches Some(s) ==> spec_parse_sized_string(buffer@, *old(index) as int) == Some(
            (s@, *final(index) as int),
        ),
        r is None ==> spec_parse_sized_string(buffer@, *old(index) as int) is None && *final(index)
            == *old(index),
{
    let i = *index;
    let n = buffer.len();
    if n < 8 || i > n - 8 {
        return None;
    }
    let len = u64_from_le_bytes(slice_subrange(buffer.as_slice(), i, i + 8));
    if len > (n - i - 8) as u64 {
        return None;
    }
    Some(read_sized_bit_string(buffer, index))
}

/// Parses an archive header out of a container's bytes.
///
/// The version byte is judged first: an unsupported one is fatal, and
/// nothing past it is interpreted. The body is then parsed inside the
/// window that the recorded header size declares; any field that would run
/// past that window makes the whole parse fail, since the rest of the
/// table could not be trusted.
pub fn read_header(data: &Vec<u8>) -> (r: Result<Header, ArchiveError>)
    ensures
        (match r {
            Ok(h) => spec_parse_header(data@) == Ok::<HeaderV, ArchiveError>(h@),
            Err(e) => spec_parse_header(data@) == Err::<HeaderV, ArchiveError>(e),
        }),
{
    let n = data.len();
    if n < 9 {
        return Err(ArchiveError::TruncatedOrCorruptHeader);
    }
    let version = data[0];
    if !version_supported(version) {
        return Err(ArchiveError::FormatVersionUnsupported { found: version });
    }
    let size = u64_from_le_bytes(slice_subrange(data.as_slice(), 1, 9));
    if size < 9 || size > n as u64 {
        return Err(ArchiveError::TruncatedOrCorruptHeader);
    }
    let size_usize = size as usize;
    let hb: Vec<u8> = slice_to_vec(slice_subrange(data.as_slice(), 0, size_usize));
    let mut index: usize = 9;
    let tag_n = match read_u64_field(&hb, &mut index) {
        None => {
            return Err(ArchiveError::TruncatedOrCorruptHeader);
        },
        Some(v) => v,
    };
    let ghost i0 = index as int;

    let mut tags: Vec<(String, String)> = Vec::new();
    let mut k: u64 = 0;
    while k < tag_n
        invariant
            k <= tag_n,
            index <= hb@.len(),
            hb@ == data@.subrange(0, size as int),
            data@.len() >= 9,
            spec_version_supported(data@[0]),
            size == spec_u64_from_le_bytes(data@.subrange(1, 9)),
            9 <= size <= data@.len(),
            spec_parse_u64(hb@, 9) == Some((tag_n, i0)),
            spec_parse_tags(hb@, i0, tag_n as nat) == (match spec_parse_tags(
                hb@,
                index as int,
                (tag_n - k) as nat,
            ) {
                Some((rest, end)) => Some((spec_tags_view(tags@) + rest, end)),
                None => None::<(Seq<(Seq<char>, Seq<char>)>, int)>,
            }),
        decreases tag_n - k,
    {
        let ghost idx0 = index as int;
        let ghost tags0 = tags@;
        let key = match try_read_sized_string(&hb, &mut index) {
            None => {
                return Err(ArchiveError::TruncatedOrCorruptHeader);
            },
            Some(s) => s,
        };
        let value = match try_read_sized_string(&hb, &mut index) {
            None => {
                proof {
                    assert(spec_parse_tags(hb@, idx0, (tag_n - k) as nat) is None);
                }
                return Err(ArchiveError::TruncatedOrCorruptHeader);
            },
            Some(s) => s,
        };
        tags.push((key, value));
        k = k + 1;
        proof {
            let m = (tag_n - (k - 1)) as nat;
            assert(spec_tags_view(tags@) =~= spec_tags_view(tags0).push((key@, value@)));
            match spec_parse_tags(hb@, index as int, (m - 1) as nat) {
                Some((rest, end)) => {
                    assert(spec_tags_view(tags0) + (seq![(key@, value@)] + rest) =~= spec_tags_view(
                        tags@,
                    ) + rest);
                },
                None => {},
            }
        }
    }
    proof {
        assert(spec_parse_tags(hb@, index as int, 0) == Some(
            (Seq::<(Seq<char>, Seq<char>)>::empty(), index as int),
        ));
        assert(spec_tags_view(tags@) + Seq::<(Seq<char>, Seq<char>)>::empty() =~= spec_tags_view(
            tags@,
        ));
    }
    let ghost i2 = index as int;

    let entry_n = match read_u64_field(&hb, &mut index) {
        None => {
            return Err(ArchiveError::TruncatedOrCorruptHeader);
        },
        Some(v) => v,
    };
    let ghost i3 = index as int;

    let mut entries: Vec<FileEntry> = Vec::new();
    let mut k2: u64 = 0;
    while k2 < entry_n
        invariant
            k2 <= entry_n,
            index <= hb@.len(),
            hb@ == data@.subrange(0, size as int),
            data@.len() >= 9,
            spec_version_supported(data@[0]),
            size == spec_u64_from_le_bytes(data@.subrange(1, 9)),
            9 <= size <= data@.len(),
            spec_parse_u64(hb@, 9) == Some((tag_n, i0)),
            spec_parse_tags(hb@, i0, tag_n as nat) == Some((spec_tags_view(tags@), i2)),
            spec_parse_u64(hb@, i2) == Some((entry_n, i3)),
            spec_parse_entries(hb@, i3, entry_n as nat) == (match spec_parse_entries(
                hb@,
                index as int,
                (entry_n - k2) as nat,
            ) {
                Some((rest, end)) => Some((spec_entries_view(entries@) + rest, end)),
                None => None::<(Seq<FileEntryV>, int)>,
            }),
        decreases entry_n - k2,
    {
        let ghost idx0 = index as int;
        let ghost entries0 = entries@;
        let file_size = match read_u64_field(&hb, &mut index) {
            None => {
                return Err(ArchiveError::TruncatedOrCorruptHeader);
            },
            Some(v) => v,
        };
        let path = match try_read_sized_string(&hb, &mut index) {
            None => {
                proof {
                    assert(spec_parse_entry(hb@, idx0) is None);
                    assert(spec_parse_entries(hb@, idx0, (entry_n - k2) as nat) is None);
                }
                return Err(ArchiveError::TruncatedOrCorruptHeader);
            },
            Some(s) => s,
        };
        entries.push(FileEntry { path, size: file_size });
        k2 = k2 + 1;
        proof {
            let m = (entry_n - (k2 - 1)) as nat;
            let e = FileEntryV { path: path@, size: file_size };
            assert(spec_parse_entry(hb@, idx0) == Some((e, index as int)));
            assert(spec_entries_view(entries@) =~= spec_entries_view(entries0).push(e));
            match spec_parse_entries(hb@, index as int, (m - 1) as nat) {
                Some((rest, end)) => {
                    assert(spec_entries_view(entries0) + (seq![e] + rest) =~= spec_entries_view(
                        entries@,
                    ) + rest);
                },
                None => {},
            }
        }
    }
    proof {
        assert(spec_parse_entries(hb@, index as int, 0) == Some(
            (Seq::<FileEntryV>::empty(), index as int),
        ));
        assert(spec_entries_view(entries@) + Seq::<FileEntryV>::empty() =~= spec_entries_view(
            entries@,
        ));
    }

    let h = Header { version, entries, tags, size };
    proof {
        assert(spec_parse_header(data@) == Ok::<HeaderV, ArchiveError>(h@));
    }
    Ok(h)
}

} // verus!
