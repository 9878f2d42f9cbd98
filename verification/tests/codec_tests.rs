use mpk_archive::codec::{read_sized_bit_string, sized_bit_string};
use mpk_archive::paths::{relative_path, strip_root};

#[test]
fn sized_bit_string_hello() {
    let b = sized_bit_string(&String::from("Hello"));
    assert_eq!(b, vec![5, 0, 0, 0, 0, 0, 0, 0, 72, 101, 108, 108, 111]);
}

#[test]
fn sized_bit_string_empty() {
    let b = sized_bit_string(&String::from(""));
    assert_eq!(b, vec![0, 0, 0, 0, 0, 0, 0, 0]);
}

#[test]
fn sized_string_round_trip_ascii() {
    let s = String::from("Hello, world");
    let b = sized_bit_string(&s);
    let mut index: usize = 0;
    let decoded = read_sized_bit_string(&b, &mut index);
    assert_eq!(decoded, s);
    assert_eq!(index, b.len());
}

#[test]
fn sized_string_round_trip_empty() {
    let s = String::from("");
    let b = sized_bit_string(&s);
    let mut index: usize = 0;
    let decoded = read_sized_bit_string(&b, &mut index);
    assert_eq!(decoded, s);
    assert_eq!(index, 8);
}

#[test]
fn sized_string_round_trip_multibyte() {
    let s = String::from("héllo \u{1F980} wörld");
    let b = sized_bit_string(&s);
    assert_eq!(u64::from_le_bytes(b[0..8].try_into().unwrap()), s.len() as u64);
    let mut index: usize = 0;
    let decoded = read_sized_bit_string(&b, &mut index);
    assert_eq!(decoded, s);
    assert_eq!(index, b.len());
}

#[test]
fn sized_string_read_from_offset() {
    let mut buffer = vec![9, 9, 9];
    buffer.extend(sized_bit_string(&String::from("abc")));
    buffer.push(7);
    let mut index: usize = 3;
    let decoded = read_sized_bit_string(&buffer, &mut index);
    assert_eq!(decoded, "abc");
    assert_eq!(index, buffer.len() - 1);
}

#[test]
fn sized_string_invalid_utf8_reads_empty() {
    // A 2-byte field holding a lone continuation byte and an out-of-place
    // leading byte: not valid UTF-8, so the decoded value is empty, but the
    // cursor still moves past the field.
    let buffer = vec![2, 0, 0, 0, 0, 0, 0, 0, 0xFF, 0x80];
    let mut index: usize = 0;
    let decoded = read_sized_bit_string(&buffer, &mut index);
    assert_eq!(decoded, "");
    assert_eq!(index, 10);
}

#[test]
fn strip_root_strict_descendant() {
    let rel = strip_root(&String::from("pack_test/folder/2.txt"), &String::from("pack_test"));
    assert_eq!(rel, Some(String::from("folder/2.txt")));
}

#[test]
fn strip_root_rejects_equal_and_unrelated() {
    assert_eq!(strip_root(&String::from("pack_test"), &String::from("pack_test")), None);
    assert_eq!(strip_root(&String::from("other/a.txt"), &String::from("pack_test")), None);
    // A sibling whose name merely begins with the root is not below it.
    assert_eq!(strip_root(&String::from("pack_tests/a.txt"), &String::from("pack_test")), None);
}

#[test]
fn strip_root_multibyte() {
    let rel = strip_root(&String::from("dossiér/ünïcode.txt"), &String::from("dossiér"));
    assert_eq!(rel, Some(String::from("ünïcode.txt")));
}

#[test]
fn relative_path_last_root_wins() {
    let roots = vec![String::from("a"), String::from("a/b")];
    let rel = relative_path(&String::from("a/b/c.txt"), &roots);
    assert_eq!(rel, "c.txt");
}

#[test]
fn relative_path_no_root_keeps_path() {
    let roots = vec![String::from("x")];
    let rel = relative_path(&String::from("a/b/c.txt"), &roots);
    assert_eq!(rel, "a/b/c.txt");
}
