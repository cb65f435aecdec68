//! Fragmentation of oversized packets.
//!
//! A payload too large for one datagram is split into chunks of at most the
//! fragment size; the receiver reassembles the chunks in index order. The law
//! [`lemma_chunks_flatten`] states that reassembly restores the payload
//! byte-identically.

use vstd::prelude::*;
use vstd::slice::{slice_subrange, slice_to_vec};

verus! {

/// The largest payload carried in one data frame; anything longer is split
/// into fragments of at most this size.
pub const MAX_FRAGMENT_SIZE: usize = 1024;

/// The chunks a payload is split into: full fragments of `size` bytes, the
/// last fragment holding the remainder. A payload of at most `size` bytes is
/// one single chunk.
pub open spec fn spec_chunks(data: Seq<u8>, size: nat) -> Seq<Seq<u8>>
    recommends
        size >= 1,
    decreases data.len(),
{
    if data.len() <= size || size == 0 {
        seq![data]
    } else {
        seq![data.subrange(0, size as int)] + spec_chunks(data.skip(size as int), size)
    }
}

/// Law: reassembling a payload's chunks in order restores it byte-identically.
pub proof fn lemma_chunks_flatten(data: Seq<u8>, size: nat)
    requires
        size >= 1,
    ensures
        spec_chunks(data, size).flatten() == data,
    decreases data.len(),
{
    if data.len() <= size {
        assert(spec_chunks(data, size) =~= seq![data]);
        spec_chunks(data, size).lemma_flatten_one_element();
    } else {
        lemma_chunks_flatten(data.skip(size as int), size);
        let cs = spec_chunks(data, size);
        assert(cs.first() == data.subrange(0, size as int));
        assert(cs.drop_first() =~= spec_chunks(data.skip(size as int), size));
        assert(cs.flatten() == cs.first() + cs.drop_first().flatten());
        assert(data.subrange(0, size as int) + data.skip(size as int) =~= data);
    }
}

/// Law: every chunk is non-empty and at most `size` bytes, and a payload of
/// `n` bytes makes the least number of chunks that fit it.
pub proof fn lemma_chunks_sizes(data: Seq<u8>, size: nat)
    requires
        size >= 1,
    ensures
        spec_chunks(data, size).len() >= 1,
        forall|i: int| 0 <= i < spec_chunks(data, size).len() ==> (
        #[trigger] spec_chunks(data, size)[i]).len() <= size,
        data.len() == 0 ==> spec_chunks(data, size).len() == 1,
        data.len() > 0 ==> spec_chunks(data, size).len() * size < data.len() + size,
    decreases data.len(),
{
    if data.len() <= size {
    } else {
        lemma_chunks_sizes(data.skip(size as int), size);
        let cs = spec_chunks(data, size);
        let rest = spec_chunks(data.skip(size as int), size);
        assert forall|i: int| 0 <= i < cs.len() implies (#[trigger] cs[i]).len() <= size by {
            if i >= 1 {
                assert(cs[i] == rest[i - 1]);
            }
        };
        assert(rest.len() * size < data.len() - size + size);
        assert(cs.len() * size == rest.len() * size + size) by (nonlinear_arith)
            requires cs.len() == rest.len() + 1;
    }
}

/// Splits a payload into its fragment chunks.
pub fn make_chunks(data: &Vec<u8>, size: usize) -> (r: Vec<Vec<u8>>)
    requires
        size >= 1,
    ensures
        r@.map_values(|v: Vec<u8>| v@) == spec_chunks(data@, size as nat),
{
    let mut r: Vec<Vec<u8>> = Vec::new();
    let mut start: usize = 0;
    assert(r@.map_values(|v: Vec<u8>| v@) =~= Seq::<Seq<u8>>::empty());
    assert(data@.skip(0) =~= data@);
    assert(Seq::<Seq<u8>>::empty() + spec_chunks(data@, size as nat) =~= spec_chunks(
        data@,
        size as nat,
    ));
    // Walk the payload a chunk at a time; what is already cut matches the
    // model's chunks of the walked prefix.
    while data.len() - start > size
        invariant
            size >= 1,
            start <= data.len(),
            spec_chunks(data@, size as nat) =~= r@.map_values(|v: Vec<u8>| v@) + spec_chunks(
                data@.skip(start as int),
                size as nat,
            ),
        decreases data.len() - start,
    {
        let chunk = slice_to_vec(slice_subrange(data.as_slice(), start, start + size));
        let ghost prev = r@.map_values(|v: Vec<u8>| v@);
        r.push(chunk);
        assert(r@.map_values(|v: Vec<u8>| v@) =~= prev + seq![chunk@]);
        assert(data@.skip(start as int).subrange(0, size as int) =~= data@.subrange(
            start as int,
            start + size,
        ));
        assert(data@.skip(start as int).skip(size as int) =~= data@.skip(start + size));
        assert(prev + seq![chunk@] + spec_chunks(data@.skip(start + size), size as nat) =~= prev
            + spec_chunks(data@.skip(start as int), size as nat));
        start = start + size;
    }
    let last = slice_to_vec(slice_subrange(data.as_slice(), start, data.len()));
    let ghost prev = r@.map_values(|v: Vec<u8>| v@);
    r.push(last);
    assert(data@.skip(start as int).len() <= size);
    assert(spec_chunks(data@.skip(start as int), size as nat) =~= seq![data@.skip(start as int)]);
    assert(last@ =~= data@.skip(start as int));
    assert(r@.map_values(|v: Vec<u8>| v@) =~= prev + seq![last@]);
    assert(r@.map_values(|v: Vec<u8>| v@) =~= spec_chunks(data@, size as nat));
    r
}

} // verus!
