//! The chunked transfer engine: moves a run of bytes from a source container
//! into a destination, splitting the run into chunks no larger than a caller
//! chosen ceiling, and passing every chunk through a reversible byte
//! transform before it is appended.

use vstd::prelude::*;
use vstd::slice::*;
use crate::ArchiveError;

verus! {

/// A reversible per-chunk byte transform, applied to each chunk as it is
/// copied. The identity transform is the default; a real codec would be a
/// further implementation.
pub trait Transform {
    /// What the transform does to a chunk, as a mathematical function.
    spec fn spec_apply(&self, chunk: Seq<u8>) -> Seq<u8>;

    /// Applies the transform to one chunk.
    fn apply(&self, chunk: Vec<u8>) -> (r: Vec<u8>)
        ensures
            r@ == self.spec_apply(chunk@),
    ;
}

/// The identity transform: every chunk passes through unchanged.
pub struct Identity;

impl Transform for Identity {
    open spec fn spec_apply(&self, chunk: Seq<u8>) -> Seq<u8> {
        chunk
    }

    fn apply(&self, chunk: Vec<u8>) -> (r: Vec<u8>) {
        nothing(chunk)
    }
}

/// A byte operation that does nothing: a placeholder wherever a reversible
/// byte transform is expected but no real one is wanted.
pub fn nothing(data: Vec<u8>) -> (r: Vec<u8>)
    ensures
        r@ == data@,
{
    data
}

/// What the engine produces for one run of bytes: the transform applied to
/// each chunk of at most `max` bytes, front to back, the results
/// concatenated in order.
pub open spec fn spec_chunked<T: Transform>(t: T, data: Seq<u8>, max: int) -> Seq<u8>
    decreases data.len(),
{
    if max < 1 || data.len() <= max {
        t.spec_apply(data)
    } else {
        t.spec_apply(data.take(max)) + spec_chunked(t, data.skip(max), max)
    }
}

/// The chunks the engine cuts one run of bytes into: full chunks of `max`
/// bytes, then whatever remains, even when that is nothing.
pub open spec fn spec_chunks_of(data: Seq<u8>, max: int) -> Seq<Seq<u8>>
    decreases data.len(),
{
    if max < 1 || data.len() <= max {
        seq![data]
    } else {
        seq![data.take(max)] + spec_chunks_of(data.skip(max), max)
    }
}

/// A list of chunks reassembled into one run of bytes.
pub open spec fn spec_concat_chunks(chunks: Seq<Seq<u8>>) -> Seq<u8>
    decreases chunks.len(),
{
    if chunks.len() == 0 {
        Seq::empty()
    } else {
        chunks[0] + spec_concat_chunks(chunks.drop_first())
    }
}

/// Law: the engine never forms a chunk larger than the ceiling, whatever
/// the length of the data, and the chunks reassemble the data exactly.
pub proof fn lemma_chunks_bounded(data: Seq<u8>, max: int)
    requires
        1 <= max,
    ensures
        forall|i: int|
            0 <= i < spec_chunks_of(data, max).len() ==> #[trigger] spec_chunks_of(data, max)[
                i
            ].len() <= max,
        spec_concat_chunks(spec_chunks_of(data, max)) == data,
    decreases data.len(),
{
    if data.len() <= max {
        assert(spec_chunks_of(data, max) == seq![data]);
        assert(seq![data].drop_first() =~= Seq::<Seq<u8>>::empty());
        assert(spec_concat_chunks(Seq::<Seq<u8>>::empty()) == Seq::<u8>::empty());
        assert(data + Seq::<u8>::empty() =~= data);
    } else {
        lemma_chunks_bounded(data.skip(max), max);
        let chunks = spec_chunks_of(data, max);
        let rest = spec_chunks_of(data.skip(max), max);
        assert(chunks.drop_first() =~= rest);
        assert forall|i: int| 0 <= i < chunks.len() implies #[trigger] chunks[i].len()
            <= max by {
            if i > 0 {
                assert(chunks[i] == rest[i - 1]);
            }
        }
        assert(data.take(max) + data.skip(max) =~= data);
    }
}

/// Law: the engine's output is the transform applied to each of those
/// chunks, in order.
pub proof fn lemma_chunked_applies_per_chunk<T: Transform>(t: T, data: Seq<u8>, max: int)
    requires
        1 <= max,
    ensures
        spec_chunked(t, data, max) == spec_concat_chunks(
            spec_chunks_of(data, max).map_values(|c: Seq<u8>| t.spec_apply(c)),
        ),
    decreases data.len(),
{
    let mapped = spec_chunks_of(data, max).map_values(|c: Seq<u8>| t.spec_apply(c));
    if data.len() <= max {
        assert(spec_chunks_of(data, max) == seq![data]);
        assert(mapped =~= seq![t.spec_apply(data)]);
        assert(mapped.drop_first() =~= Seq::<Seq<u8>>::empty());
        assert(spec_concat_chunks(Seq::<Seq<u8>>::empty()) == Seq::<u8>::empty());
        assert(t.spec_apply(data) + Seq::<u8>::empty() =~= t.spec_apply(data));
    } else {
        lemma_chunked_applies_per_chunk(t, data.skip(max), max);
        let rest_mapped = spec_chunks_of(data.skip(max), max).map_values(
            |c: Seq<u8>| t.spec_apply(c),
        );
        assert(mapped.drop_first() =~= rest_mapped);
        assert(mapped[0] == t.spec_apply(data.take(max)));
        assert(spec_concat_chunks(mapped) == t.spec_apply(data.take(max)) + spec_concat_chunks(
            rest_mapped,
        ));
    }
}

/// Law: with the identity transform the engine reproduces the bytes
/// exactly, whatever the chunking.
pub proof fn lemma_identity_chunked(data: Seq<u8>, max: int)
    ensures
        spec_chunked(Identity, data, max) == data,
    decreases data.len(),
{
    if max < 1 || data.len() <= max {
    } else {
        lemma_identity_chunked(data.skip(max), max);
        assert(data.take(max) + data.skip(max) =~= data);
    }
}

/// Copies exactly `size` bytes of `file`, starting at `*index`, to the end
/// of `output`, in chunks of at most `max_chunk` bytes, passing each chunk
/// through `modify` before appending it. On success `*index` has advanced
/// past the copied bytes; a range that reaches past the end of `file`
/// changes nothing and is reported instead.
pub fn buffered_copy<T: Transform>(
    file: &Vec<u8>,
    output: &mut Vec<u8>,
    index: &mut u64,
    size: u64,
    modify: &T,
    max_chunk: usize,
) -> (r: Result<(), ArchiveError>)
    requires
        max_chunk >= 1,
    ensures
        (match r {
            Ok(u) => {
                &&& *old(index) + size <= file@.len()
                &&& *final(index) == *old(index) + size
                &&& final(output)@ == old(output)@ + spec_chunked(
                    *modify,
                    file@.subrange(*old(index) as int, *old(index) + size),
                    max_chunk as int,
                )
            },
            Err(e) => {
                &&& *old(index) + size > file@.len()
                &&& e == ArchiveError::PayloadOutOfBounds
                &&& *final(index) == *old(index)
                &&& final(output)@ == old(output)@
            },
        }),
{
    let n = file.len();
    let start = *index;
    if start > n as u64 || size > n as u64 - start {
        return Err(ArchiveError::PayloadOutOfBounds);
    }
    let ghost region = file@.subrange(start as int, start as int + size as int);
    let max64: u64 = max_chunk as u64;
    let mut remaining: u64 = size;
    proof {
        assert(region.skip(0) =~= region);
    }
    while remaining > max64
        invariant
            max_chunk >= 1,
            max64 == max_chunk as u64,
            remaining <= size,
            start + size <= file@.len(),
            n == file@.len(),
            region == file@.subrange(start as int, start as int + size as int),
            old(output)@ + spec_chunked(*modify, region, max_chunk as int) == output@
                + spec_chunked(
                *modify,
                region.skip(size - remaining),
                max_chunk as int,
            ),
        decreases remaining,
    {
        let ghost done = size - remaining;
        let pos_u64 = start + (size - remaining);
        let pos = pos_u64 as usize;
        let chunk = slice_to_vec(slice_subrange(file.as_slice(), pos, pos + max_chunk));
        let mut transformed = modify.apply(chunk);
        output.append(&mut transformed);
        proof {
            assert(region.skip(done).len() == remaining);
            assert(region.skip(done).take(max_chunk as int) =~= file@.subrange(
                pos as int,
                pos as int + max_chunk as int,
            ));
            assert(region.skip(done).skip(max_chunk as int) =~= region.skip(
                done + max_chunk as int,
            ));
            assert(spec_chunked(*modify, region.skip(done), max_chunk as int) == modify.spec_apply(
                region.skip(done).take(max_chunk as int),
            ) + spec_chunked(*modify, region.skip(done + max_chunk as int), max_chunk as int));
        }
        remaining = remaining - max64;
    }
    let ghost done = size - remaining;
    let pos_u64 = start + (size - remaining);
    let pos = pos_u64 as usize;
    let rem_usize = remaining as usize;
    let chunk = slice_to_vec(slice_subrange(file.as_slice(), pos, pos + rem_usize));
    let mut transformed = modify.apply(chunk);
    output.append(&mut transformed);
    *index = start + size;
    proof {
        assert(region.skip(done) =~= file@.subrange(pos as int, pos as int + remaining as int));
        assert(spec_chunked(*modify, region.skip(done), max_chunk as int) == modify.spec_apply(
            region.skip(done),
        ));
    }
    Ok(())
}

/// Appends the whole of `file` to the end of `archive_file`, chunk by
/// chunk, passing each chunk through `compression`.
pub fn append_to_archive<T: Transform>(
    file: &Vec<u8>,
    archive_file: &mut Vec<u8>,
    compression: &T,
    max_chunk: usize,
)
    requires
        max_chunk >= 1,
    ensures
        final(archive_file)@ == old(archive_file)@ + spec_chunked(
            *compression,
            file@,
            max_chunk as int,
        ),
{
    let mut index: u64 = 0;
    let size = file.len() as u64;
    let r = buffered_copy(file, archive_file, &mut index, size, compression, max_chunk);
    match r {
        Ok(_) => {
            proof {
                assert(file@.subrange(0, file@.len() as int) =~= file@);
            }
        },
        Err(_) => {
            proof {
                assert(false);
            }
        },
    }
}

} // verus!
