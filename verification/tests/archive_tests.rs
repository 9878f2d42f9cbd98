use mpk_archive::archive::{
    expand_paths, extract_all_archive, extract_from_archive, get_file_sizes, list_archive,
    pack_archive, strings_to_paths, unpack_archive, Archive,
};
use mpk_archive::header::{gen_header, read_header, FileEntry, Header};
use mpk_archive::transfer::{buffered_copy, nothing, Identity};
use mpk_archive::ArchiveError;

const MAX_CHUNK: usize = 1024;

fn pack(files: &Vec<(String, Vec<u8>)>, roots: &Vec<String>, tags: Vec<(String, String)>) -> Vec<u8> {
    let mut container: Vec<u8> = Vec::new();
    pack_archive(&mut container, files, roots, tags, MAX_CHUNK);
    container
}

#[test]
fn nothing_returns_data_unchanged() {
    assert_eq!(nothing(vec![1, 2, 3]), vec![1, 2, 3]);
    assert_eq!(nothing(Vec::new()), Vec::<u8>::new());
}

#[test]
fn strings_to_paths_keeps_strings() {
    let strings = vec![String::from("a/b.txt"), String::from("c.txt")];
    assert_eq!(strings_to_paths(strings.clone()), strings);
}

#[test]
fn pack_example_layout() {
    // Packing a 5-byte file and a 3-byte file with no tags: two entries of
    // sizes [5, 3], and the payload region is their contents back to back.
    let files = vec![
        (String::from("a.txt"), b"hello".to_vec()),
        (String::from("dir/b.txt"), b"xyz".to_vec()),
    ];
    let container = pack(&files, &Vec::new(), Vec::new());

    assert_eq!(container[0], 1);
    let header_size = u64::from_le_bytes(container[1..9].try_into().unwrap()) as usize;
    assert_eq!(&container[header_size..], b"helloxyz");

    let header = read_header(&container).unwrap();
    assert_eq!(header.entries.len(), 2);
    assert_eq!(header.entries[0].size, 5);
    assert_eq!(header.entries[1].size, 3);
    assert_eq!(header.entries[0].path, "a.txt");
    assert_eq!(header.entries[1].path, "dir/b.txt");
    assert_eq!(header.tags.len(), 0);

    let out = unpack_archive(container, MAX_CHUNK).unwrap();
    assert_eq!(out.len(), 2);
    assert_eq!(out[0], (String::from("a.txt"), b"hello".to_vec()));
    assert_eq!(out[1], (String::from("dir/b.txt"), b"xyz".to_vec()));
}

#[test]
fn header_size_is_payload_offset() {
    // After serialization the size field equals the serialized header's own
    // length, which is where the payload begins; re-parsing returns the
    // same tags and entries.
    let tags = vec![
        (String::from("author"), String::from("me")),
        (String::from("note"), String::from("vacation pictures")),
    ];
    let entries = vec![
        FileEntry { path: String::from("photos/1.png"), size: 11 },
        FileEntry { path: String::from("photos/2.png"), size: 0 },
    ];
    let header = Header::new(tags.clone(), entries.clone());
    let data = gen_header(&header, &Vec::new());

    let recorded = u64::from_le_bytes(data[1..9].try_into().unwrap());
    assert_eq!(recorded, data.len() as u64);

    let parsed = read_header(&data).unwrap();
    assert_eq!(parsed.version, 1);
    assert_eq!(parsed.size, data.len() as u64);
    assert_eq!(parsed.tags, tags);
    assert_eq!(parsed.entries, entries);
}

#[test]
fn unsupported_version_fails_closed() {
    let files = vec![(String::from("a.txt"), b"hello".to_vec())];
    let mut container = pack(&files, &Vec::new(), Vec::new());
    container[0] = 7;
    match read_header(&container) {
        Err(ArchiveError::FormatVersionUnsupported { found }) => assert_eq!(found, 7),
        other => panic!("expected a version error, got {:?}", other),
    }
    assert_eq!(
        unpack_archive(container, MAX_CHUNK),
        Err(ArchiveError::FormatVersionUnsupported { found: 7 })
    );
}

#[test]
fn truncated_header_fails() {
    assert_eq!(read_header(&vec![1, 2, 3]), Err(ArchiveError::TruncatedOrCorruptHeader));

    let files = vec![(String::from("a.txt"), b"hello".to_vec())];
    let container = pack(&files, &Vec::new(), Vec::new());
    // Cutting the container inside the header body leaves a declared field
    // without its bytes.
    let cut: Vec<u8> = container[..12].to_vec();
    assert_eq!(read_header(&cut), Err(ArchiveError::TruncatedOrCorruptHeader));
}

#[test]
fn payload_out_of_bounds_fails() {
    let entries = vec![FileEntry { path: String::from("a.txt"), size: 100 }];
    let header = Header::new(Vec::new(), entries);
    let data = gen_header(&header, &Vec::new());
    // A header that promises 100 payload bytes over an empty payload
    // region cannot be extracted.
    assert_eq!(unpack_archive(data, MAX_CHUNK), Err(ArchiveError::PayloadOutOfBounds));
}

#[test]
fn chunked_copy_handles_file_larger_than_buffer() {
    // A source one byte longer than the chunk ceiling still comes through
    // whole, moved as two chunks.
    let source: Vec<u8> = (0u8..=4).collect();
    let max_chunk: usize = 4;
    let mut out: Vec<u8> = Vec::new();
    let mut index: u64 = 0;
    let identity = Identity;
    buffered_copy(&source, &mut out, &mut index, 5, &identity, max_chunk).unwrap();
    assert_eq!(out, source);
    assert_eq!(index, 5);
}

#[test]
fn chunked_pack_round_trip_small_chunks() {
    // Packing and unpacking with a 2-byte ceiling splits every payload,
    // and every file still comes back byte for byte.
    let files = vec![
        (String::from("a.bin"), (0u8..50).collect::<Vec<u8>>()),
        (String::from("b.bin"), vec![255; 7]),
    ];
    let mut container: Vec<u8> = Vec::new();
    pack_archive(&mut container, &files, &Vec::new(), Vec::new(), 2);
    let out = unpack_archive(container, 3).unwrap();
    assert_eq!(out, files);
}

#[test]
fn buffered_copy_out_of_range_reports() {
    let source = vec![1u8, 2, 3];
    let mut out: Vec<u8> = Vec::new();
    let mut index: u64 = 2;
    let identity = Identity;
    let r = buffered_copy(&source, &mut out, &mut index, 2, &identity, 8);
    assert_eq!(r, Err(ArchiveError::PayloadOutOfBounds));
    assert_eq!(out, Vec::<u8>::new());
    assert_eq!(index, 2);
}

#[test]
fn expand_paths_deduplicates_across_roots() {
    // A file reachable from two roots is kept once, in first-seen order.
    let trees = vec![
        vec![String::from("dir/a.txt"), String::from("dir/sub/b.txt")],
        vec![String::from("dir/sub/b.txt"), String::from("dir/c.txt")],
    ];
    let out = expand_paths(&trees);
    assert_eq!(
        out,
        vec![
            String::from("dir/a.txt"),
            String::from("dir/sub/b.txt"),
            String::from("dir/c.txt"),
        ]
    );
}

#[test]
fn ancestor_root_packs_one_entry() {
    // Two roots where one is an ancestor of a file reachable from the
    // other: the expansion keeps one copy, so packing writes one entry.
    let trees = vec![
        vec![String::from("top/sub/file.txt")],
        vec![String::from("top/sub/file.txt")],
    ];
    let expanded = expand_paths(&trees);
    assert_eq!(expanded, vec![String::from("top/sub/file.txt")]);

    let files = vec![(String::from("top/sub/file.txt"), b"once".to_vec())];
    let container = pack(&files, &vec![String::from("top")], Vec::new());
    let header = read_header(&container).unwrap();
    assert_eq!(header.entries.len(), 1);
    assert_eq!(header.entries[0].path, "sub/file.txt");
}

#[test]
fn get_file_sizes_drops_unreadable() {
    let paths = vec![String::from("a"), String::from("b"), String::from("c")];
    let sizes = vec![Some(3u64), None, Some(9u64)];
    let out = get_file_sizes(paths, &sizes);
    assert_eq!(
        out,
        vec![
            FileEntry { path: String::from("a"), size: 3 },
            FileEntry { path: String::from("c"), size: 9 },
        ]
    );
}

#[test]
fn extract_one_reads_only_matching_entry() {
    // The middle entry's bytes come back exactly, never a neighbour's.
    let files = vec![
        (String::from("root/a.txt"), b"aaaa".to_vec()),
        (String::from("root/b.txt"), b"bb".to_vec()),
        (String::from("root/c.txt"), b"cccccc".to_vec()),
    ];
    let container = pack(&files, &vec![String::from("root")], Vec::new());
    let header = read_header(&container).unwrap();
    let archive = Archive { file: container, header };

    let mut out: Vec<u8> = Vec::new();
    let identity = Identity;
    extract_from_archive(&String::from("b.txt"), &archive, &mut out, &identity, MAX_CHUNK)
        .unwrap();
    assert_eq!(out, b"bb".to_vec());

    let mut none: Vec<u8> = Vec::new();
    extract_from_archive(&String::from("missing"), &archive, &mut none, &identity, MAX_CHUNK)
        .unwrap();
    assert_eq!(none, Vec::<u8>::new());
}

#[test]
fn extract_all_matches_unpack() {
    let files = vec![
        (String::from("x"), b"123".to_vec()),
        (String::from("y"), b"".to_vec()),
    ];
    let container = pack(&files, &Vec::new(), Vec::new());
    let header = read_header(&container).unwrap();
    let archive = Archive { file: container.clone(), header };
    let identity = Identity;
    let all = extract_all_archive(&archive, &identity, MAX_CHUNK).unwrap();
    assert_eq!(all, files);
    assert_eq!(unpack_archive(container, MAX_CHUNK).unwrap(), files);
}

#[test]
fn list_archive_names_entries_in_order() {
    let files = vec![
        (String::from("r/one"), b"1".to_vec()),
        (String::from("r/two"), b"22".to_vec()),
    ];
    let container = pack(&files, &vec![String::from("r")], Vec::new());
    let header = read_header(&container).unwrap();
    let archive = Archive { file: container, header };
    assert_eq!(list_archive(&archive), vec![String::from("one"), String::from("two")]);
}

#[test]
fn tags_survive_the_round_trip() {
    let tags = vec![
        (String::from("k1"), String::from("v1")),
        (String::from("kéy"), String::from("välue")),
    ];
    let files = vec![(String::from("f"), b"data".to_vec())];
    let container = pack(&files, &Vec::new(), tags.clone());
    let header = read_header(&container).unwrap();
    assert_eq!(header.tags, tags);
}

#[test]
fn invalid_utf8_tag_value_reads_empty() {
    // A tag value that is not valid UTF-8 decodes to the empty string and
    // is reported as such, while the fields after it still parse.
    let mut data: Vec<u8> = Vec::new();
    data.push(1);
    data.extend(44u64.to_le_bytes()); // total header length
    data.extend(1u64.to_le_bytes()); // one tag
    data.extend(1u64.to_le_bytes()); // key: "k"
    data.push(b'k');
    data.extend(2u64.to_le_bytes()); // value: two bytes, not UTF-8
    data.push(0xFF);
    data.push(0x80);
    data.extend(0u64.to_le_bytes()); // no entries
    assert_eq!(data.len(), 44);

    let header = read_header(&data).unwrap();
    assert_eq!(header.tags, vec![(String::from("k"), String::from(""))]);
    assert_eq!(header.entries.len(), 0);
}

#[test]
fn basic_archive_test() {
    // Three files under one root pack into a single container and come
    // back byte for byte under their relative paths.
    let files = vec![
        (String::from("pack_test/1.txt"), b"Some test data".to_vec()),
        (String::from("pack_test/folder/2.txt"), b"Some more test data".to_vec()),
        (String::from("pack_test/other_folder/folder/3.txt"), b"Different test data".to_vec()),
    ];
    let roots = vec![String::from("pack_test")];
    let container = pack(&files, &roots, Vec::new());
    let out = unpack_archive(container, MAX_CHUNK).unwrap();
    assert_eq!(out.len(), 3);
    assert_eq!(out[0], (String::from("1.txt"), b"Some test data".to_vec()));
    assert_eq!(out[1], (String::from("folder/2.txt"), b"Some more test data".to_vec()));
    assert_eq!(
        out[2],
        (String::from("other_folder/folder/3.txt"), b"Different test data".to_vec())
    );
}
