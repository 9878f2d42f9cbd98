//! Relative-path derivation: when an entry's path lies strictly below one
//! of the pack operation's root paths, the root prefix is stripped and the
//! rest is what the archive records.
//!
//! Paths are plain UTF-8 strings whose components are separated by `/`.

use vstd::prelude::*;
use vstd::utf8::*;
use vstd::string::*;
use vstd::slice::*;

verus! {

/// True when `path` names something strictly below `root`: it begins with
/// `root`, then a separator, then the rest of the path.
pub open spec fn spec_is_strict_parent(root: Seq<char>, path: Seq<char>) -> bool {
    &&& path.len() > root.len()
    &&& path.subrange(0, root.len() as int) == root
    &&& path[root.len() as int] == '/'
}

/// The path an entry is recorded under, given the pack operation's root
/// paths: the rest of its path below the last root that is a strict parent
/// of it, or the path unchanged when no root is.
pub open spec fn spec_relative_path(path: Seq<char>, roots: Seq<Seq<char>>) -> Seq<char>
    decreases roots.len(),
{
    if roots.len() == 0 {
        path
    } else if spec_is_strict_parent(roots.last(), path) {
        path.skip(roots.last().len() as int + 1)
    } else {
        spec_relative_path(path, roots.drop_last())
    }
}

/// The mathematical value of a list of path strings.
pub open spec fn spec_paths_view(paths: Seq<String>) -> Seq<Seq<char>> {
    paths.map_values(|p: String| p@)
}

/// UTF-8 encoding distributes over concatenation.
pub proof fn lemma_encode_utf8_concat(a: Seq<char>, b: Seq<char>)
    ensures
        encode_utf8(a + b) == encode_utf8(a) + encode_utf8(b),
    decreases a.len(),
{
    if a.len() == 0 {
        assert(a + b =~= b);
        assert(encode_utf8(a) + encode_utf8(b) =~= encode_utf8(b));
    } else {
        assert((a + b).drop_first() =~= a.drop_first() + b);
        lemma_encode_utf8_concat(a.drop_first(), b);
        assert((a + b)[0] == a[0]);
        assert(encode_scalar(a[0] as u32) + (encode_utf8(a.drop_first()) + encode_utf8(b)) =~= (
        encode_scalar(a[0] as u32) + encode_utf8(a.drop_first())) + encode_utf8(b));
        assert(encode_utf8(a + b) == encode_scalar((a + b)[0] as u32) + encode_utf8(
            (a + b).drop_first(),
        ));
    }
}

/// The UTF-8 encoding of the separator alone is the single byte 0x2f.
proof fn lemma_encode_separator()
    ensures
        encode_utf8(seq!['/']) == seq![47u8],
{
    assert('/' as u32 == 47);
    assert(seq!['/'].drop_first() =~= Seq::<char>::empty());
    assert(encode_utf8(Seq::<char>::empty()) =~= Seq::<u8>::empty());
    assert(has_width_1_encoding(47));
    assert((47u32 & 0x7F) == 47u32) by (bit_vector);
    assert(encode_scalar(47) =~= seq![47u8]);
    assert(encode_utf8(seq!['/']) =~= encode_scalar('/' as u32) + encode_utf8(
        seq!['/'].drop_first(),
    ));
    assert(encode_utf8(seq!['/']) =~= seq![47u8]);
}

/// When `path` lies strictly below `root`, its UTF-8 bytes begin with the
/// bytes of `root`, then the separator byte, then the bytes of the rest.
proof fn lemma_parent_bytes(root: Seq<char>, path: Seq<char>)
    requires
        spec_is_strict_parent(root, path),
    ensures
        encode_utf8(path).len() > encode_utf8(root).len(),
        encode_utf8(path).subrange(0, encode_utf8(root).len() as int) == encode_utf8(root),
        encode_utf8(path)[encode_utf8(root).len() as int] == 47u8,
        encode_utf8(path).subrange(
            encode_utf8(root).len() as int + 1,
            encode_utf8(path).len() as int,
        ) == encode_utf8(path.skip(root.len() as int + 1)),
{
    let rest = path.skip(root.len() as int + 1);
    assert(path =~= (root + seq!['/']) + rest);
    lemma_encode_utf8_concat(root + seq!['/'], rest);
    lemma_encode_utf8_concat(root, seq!['/']);
    lemma_encode_separator();
    let rb = encode_utf8(root);
    let pb = encode_utf8(path);
    assert(pb == (rb + seq![47u8]) + encode_utf8(rest));
    assert(pb.subrange(0, rb.len() as int) =~= rb);
    assert(pb[rb.len() as int] == 47u8);
    assert(pb.subrange(rb.len() as int + 1, pb.len() as int) =~= encode_utf8(rest));
}

/// When `path`'s UTF-8 bytes begin with `root`'s bytes and the separator
/// byte, `path` lies strictly below `root`, and the bytes after the
/// separator are valid UTF-8 and decode to the rest of `path`.
proof fn lemma_bytes_parent(root: Seq<char>, path: Seq<char>)
    requires
        encode_utf8(path).len() > encode_utf8(root).len(),
        encode_utf8(path).subrange(0, encode_utf8(root).len() as int) == encode_utf8(root),
        encode_utf8(path)[encode_utf8(root).len() as int] == 47u8,
    ensures
        spec_is_strict_parent(root, path),
        valid_utf8(
            encode_utf8(path).subrange(encode_utf8(root).len() as int + 1, encode_utf8(path).len() as int),
        ),
        decode_utf8(
            encode_utf8(path).subrange(encode_utf8(root).len() as int + 1, encode_utf8(path).len() as int),
        ) == path.skip(root.len() as int + 1),
{
    let pb = encode_utf8(path);
    let rb = encode_utf8(root);
    let k = rb.len() as int;
    encode_utf8_valid_utf8(path);
    encode_utf8_valid_utf8(root);
    is_char_boundary_iff_not_is_continuation_byte(pb, k);
    assert(!is_continuation_byte(pb[k]));
    assert(is_char_boundary(pb, k));
    valid_utf8_split(pb, k);
    decode_utf8_split(pb, k);
    encode_utf8_decode_utf8(path);
    encode_utf8_decode_utf8(root);
    let suf = pb.subrange(k, pb.len() as int);
    assert(valid_utf8(suf));
    assert(suf[0] == 47u8);
    assert(is_leading_byte_width_1(suf[0]));
    assert(length_of_first_scalar(suf) == 1);
    assert((47u8 & 0x7F) == 47u8) by (bit_vector);
    assert(decode_first_scalar(suf) == 47u32);
    assert('/' as u32 == 47u32);
    char_u32_cast('/', 47u32);
    let tail = pb.subrange(k + 1, pb.len() as int);
    assert(pop_first_scalar(suf) =~= tail);
    assert(valid_utf8(tail));
    assert(decode_utf8(suf) == seq!['/'] + decode_utf8(tail));
    // path is root, then '/', then the decoded tail
    assert(path == root + (seq!['/'] + decode_utf8(tail)));
    assert(path.len() == root.len() + 1 + decode_utf8(tail).len());
    assert(path.subrange(0, root.len() as int) =~= root);
    assert(path[root.len() as int] == '/');
    assert(path.skip(root.len() as int + 1) =~= decode_utf8(tail));
}

/// Compares two byte slices for equality.
fn bytes_eq(a: &[u8], b: &[u8]) -> (r: bool)
    ensures
        r == (a@ == b@),
{
    if a.len() != b.len() {
        proof {
            assert(a@.len() != b@.len());
        }
        return false;
    }
    let n = a.len();
    let mut i: usize = 0;
    while i < n
        invariant
            0 <= i <= n,
            n == a@.len() == b@.len(),
            forall|j: int| 0 <= j < i ==> a@[j] == b@[j],
        decreases n - i,
    {
        if a[i] != b[i] {
            return false;
        }
        i = i + 1;
    }
    proof {
        assert(a@ =~= b@);
    }
    true
}

/// Strips `root` from the front of `path` when `path` lies strictly below
/// it, and reports when it does not.
pub fn strip_root(path: &String, root: &String) -> (r: Option<String>)
    ensures
        r matches Some(rel) ==> spec_is_strict_parent(root@, path@) && rel@ == path@.skip(
            root@.len() as int + 1,
        ),
        r is None ==> !spec_is_strict_parent(root@, path@),
{
    let pb = path.as_str().as_bytes();
    let rb = root.as_str().as_bytes();
    let plen = pb.len();
    let rlen = rb.len();
    if plen <= rlen {
        proof {
            if spec_is_strict_parent(root@, path@) {
                lemma_parent_bytes(root@, path@);
            }
        }
        return None;
    }
    let sep = *slice_index_get(pb, rlen);
    if sep != 47u8 {
        proof {
            if spec_is_strict_parent(root@, path@) {
                lemma_parent_bytes(root@, path@);
            }
        }
        return None;
    }
    let prefix = slice_subrange(pb, 0, rlen);
    if !bytes_eq(prefix, rb) {
        proof {
            if spec_is_strict_parent(root@, path@) {
                lemma_parent_bytes(root@, path@);
            }
        }
        return None;
    }
    proof {
        lemma_bytes_parent(root@, path@);
    }
    let tail = slice_to_vec(slice_subrange(pb, rlen + 1, plen));
    match crate::codec::string_from_utf8(tail) {
        Some(s) => Some(s),
        None => vstd::pervasive::unreached(),
    }
}

/// Derives the path `path` is recorded under, trying every root in order;
/// the last root that is a strict parent of `path` wins, and `path` is
/// kept as given when none is.
pub fn relative_path(path: &String, root_paths: &Vec<String>) -> (r: String)
    ensures
        r@ == spec_relative_path(path@, spec_paths_view(root_paths@)),
{
    let mut result: String = path.clone();
    let n = root_paths.len();
    let mut i: usize = 0;
    while i < n
        invariant
            0 <= i <= n,
            n == root_paths@.len(),
            result@ == spec_relative_path(path@, spec_paths_view(root_paths@).take(i as int)),
        decreases n - i,
    {
        let ghost taken = spec_paths_view(root_paths@).take(i as int + 1);
        proof {
            assert(taken.last() == root_paths@[i as int]@);
            assert(taken.drop_last() =~= spec_paths_view(root_paths@).take(i as int));
        }
        match strip_root(path, &root_paths[i]) {
            Some(rel) => {
                result = rel;
            },
            None => {},
        }
        i = i + 1;
    }
    proof {
        assert(spec_paths_view(root_paths@).take(n as int) =~= spec_paths_view(root_paths@));
    }
    result
}

} // verus!
