//! The instance encoder: packs one slot's worth of sprite attributes into
//! three parallel arrays of length exactly `capacity`, zero-padded beyond
//! the live count.
//!
//! Arrays are always full capacity regardless of live count, a deliberate
//! bandwidth-for-simplicity tradeoff that avoids resizing GPU buffers.

use vstd::prelude::*;

verus! {

use crate::record::{SpriteRecord, records_wf, TRANSFORM_WORDS, COLOR_WORDS};

/// `s` is exactly `n` words, all zero: the defined content of a padding
/// entry. Padding is never garbage.
pub open spec fn zero_words(s: Seq<u32>, n: int) -> bool {
    s.len() == n && forall|j: int| 0 <= j < s.len() ==> #[trigger] s[j] == 0
}

/// One slot's encoded instance buffers: three parallel arrays, each of
/// length exactly the slot capacity.
pub struct EncodedArrays {
    /// Per instance: 16 words, the column-major 4x4 transform.
    pub transforms: Vec<Vec<u32>>,
    /// Per instance: 4 words, the RGBA tint.
    pub colors: Vec<Vec<u32>>,
    /// Per instance: 4 words, the atlas index plus three words of
    /// alignment padding.
    pub atlas_indices: Vec<Vec<u32>>,
    /// How many leading entries hold real instances; the draw call uses
    /// this, never the capacity.
    pub live_count: usize,
}

/// The encoder's whole contract: entry `i < chunk.len()` of each array
/// holds the attributes of record `chunk[i]`, and every entry from
/// `chunk.len()` up to `cap` is zero.
pub open spec fn encodes(
    s: Seq<SpriteRecord>,
    chunk: Seq<usize>,
    e: EncodedArrays,
    cap: int,
) -> bool {
    &&& e.live_count == chunk.len()
    &&& chunk.len() <= cap
    &&& e.transforms@.len() == cap
    &&& e.colors@.len() == cap
    &&& e.atlas_indices@.len() == cap
    &&& forall|i: int|
        0 <= i < chunk.len() ==> #[trigger] e.transforms@[i]@ == s[chunk[i] as int].transform@
    &&& forall|i: int|
        0 <= i < chunk.len() ==> #[trigger] e.colors@[i]@ == s[chunk[i] as int].color@
    &&& forall|i: int|
        0 <= i < chunk.len() ==> #[trigger] e.atlas_indices@[i]@ == seq![
            s[chunk[i] as int].atlas_index,
            0u32,
            0u32,
            0u32,
        ]
    &&& forall|i: int|
        chunk.len() <= i < cap ==> zero_words(#[trigger] e.transforms@[i]@, TRANSFORM_WORDS as int)
    &&& forall|i: int|
        chunk.len() <= i < cap ==> zero_words(#[trigger] e.colors@[i]@, COLOR_WORDS as int)
    &&& forall|i: int|
        chunk.len() <= i < cap ==> zero_words(#[trigger] e.atlas_indices@[i]@, COLOR_WORDS as int)
}

/// The words of the first `n` entries of an instance array, run together
/// in order.
pub open spec fn concat_words_upto(vs: Seq<Vec<u32>>, n: int) -> Seq<u32>
    decreases n,
{
    if n <= 0 {
        Seq::empty()
    } else {
        concat_words_upto(vs, n - 1) + vs[n - 1]@
    }
}

/// The words of a whole instance array, run together in order.
pub open spec fn concat_words(vs: Seq<Vec<u32>>) -> Seq<u32> {
    concat_words_upto(vs, vs.len() as int)
}

/// Appends every word of every entry of `src`, in order.
fn append_words(dst: &mut Vec<u32>, src: &Vec<Vec<u32>>)
    ensures
        final(dst)@ == old(dst)@ + concat_words(src@),
{
    let n: usize = src.len();
    let mut i: usize = 0;
    while i < n
        invariant
            i <= n,
            n == src@.len(),
            dst@ == old(dst)@ + concat_words_upto(src@, i as int),
        decreases n - i,
    {
        let entry = &src[i];
        let m: usize = entry.len();
        let mut j: usize = 0;
        while j < m
            invariant
                j <= m,
                i < n,
                n == src@.len(),
                m == src@[i as int]@.len(),
                entry@ == src@[i as int]@,
                dst@ == old(dst)@ + concat_words_upto(src@, i as int) + entry@.subrange(
                    0,
                    j as int,
                ),
            decreases m - j,
        {
            dst.push(entry[j]);
            proof {
                assert(entry@.subrange(0, j + 1) =~= entry@.subrange(0, j as int).push(
                    entry@[j as int],
                ));
                assert(dst@ =~= old(dst)@ + concat_words_upto(src@, i as int) + entry@.subrange(
                    0,
                    j + 1,
                ));
            }
            j = j + 1;
        }
        proof {
            assert(entry@.subrange(0, m as int) =~= entry@);
            assert(dst@ =~= old(dst)@ + concat_words_upto(src@, i + 1));
        }
        i = i + 1;
    }
    proof {
        assert(dst@ =~= old(dst)@ + concat_words(src@));
    }
}

impl EncodedArrays {
    /// The layout the slot's uniform upload must carry: the three
    /// instance arrays run together contiguously in the fixed order
    /// transforms, then colors, then atlas indices, each exactly
    /// capacity entries.
    pub fn upload_words(&self) -> (out: Vec<u32>)
        ensures
            out@ == concat_words(self.transforms@) + concat_words(self.colors@) + concat_words(
                self.atlas_indices@,
            ),
    {
        let mut out: Vec<u32> = Vec::new();
        append_words(&mut out, &self.transforms);
        append_words(&mut out, &self.colors);
        append_words(&mut out, &self.atlas_indices);
        proof {
            assert(out@ =~= concat_words(self.transforms@) + concat_words(self.colors@)
                + concat_words(self.atlas_indices@));
        }
        out
    }
}

/// Copies a word payload one-for-one.
fn copy_words(src: &Vec<u32>) -> (dst: Vec<u32>)
    ensures
        dst@ == src@,
{
    let mut dst: Vec<u32> = Vec::new();
    let n: usize = src.len();
    let mut j: usize = 0;
    while j < n
        invariant
            j <= n,
            n == src@.len(),
            dst@ == src@.subrange(0, j as int),
        decreases n - j,
    {
        dst.push(src[j]);
        proof {
            assert(dst@ =~= src@.subrange(0, j + 1));
        }
        j = j + 1;
    }
    proof {
        assert(src@.subrange(0, n as int) =~= src@);
    }
    dst
}

/// A fresh all-zero payload of `n` words.
fn zero_vec(n: usize) -> (z: Vec<u32>)
    ensures
        zero_words(z@, n as int),
{
    let mut z: Vec<u32> = Vec::new();
    let mut j: usize = 0;
    while j < n
        invariant
            j <= n,
            z@.len() == j,
            forall|t: int| 0 <= t < j ==> #[trigger] z@[t] == 0,
        decreases n - j,
    {
        z.push(0);
        j = j + 1;
    }
    z
}

/// Encodes the chunk `members[start..end]` of one key's member list into
/// full-capacity, zero-padded arrays for a single slot.
pub fn encode_chunk(
    records: &Vec<SpriteRecord>,
    members: &Vec<usize>,
    start: usize,
    end: usize,
    cap: usize,
) -> (e: EncodedArrays)
    requires
        records_wf(records@),
        start <= end <= members@.len(),
        end - start <= cap,
        forall|t: int|
            start <= t < end ==> (#[trigger] members@[t] as int) < records@.len(),
    ensures
        encodes(records@, members@.subrange(start as int, end as int), e, cap as int),
{
    let ghost chunk = members@.subrange(start as int, end as int);
    let live: usize = end - start;
    let mut transforms: Vec<Vec<u32>> = Vec::new();
    let mut colors: Vec<Vec<u32>> = Vec::new();
    let mut atlas_indices: Vec<Vec<u32>> = Vec::new();
    let mut i: usize = 0;
    while i < live
        invariant
            i <= live,
            live == end - start,
            start <= end <= members@.len(),
            records_wf(records@),
            forall|t: int|
                start <= t < end ==> (#[trigger] members@[t] as int) < records@.len(),
            chunk == members@.subrange(start as int, end as int),
            transforms@.len() == i,
            colors@.len() == i,
            atlas_indices@.len() == i,
            forall|t: int|
                0 <= t < i ==> #[trigger] transforms@[t]@ == records@[chunk[t] as int].transform@,
            forall|t: int|
                0 <= t < i ==> #[trigger] colors@[t]@ == records@[chunk[t] as int].color@,
            forall|t: int|
                0 <= t < i ==> #[trigger] atlas_indices@[t]@ == seq![
                    records@[chunk[t] as int].atlas_index,
                    0u32,
                    0u32,
                    0u32,
                ],
        decreases live - i,
    {
        let idx: usize = members[start + i];
        let r = &records[idx];
        transforms.push(copy_words(&r.transform));
        colors.push(copy_words(&r.color));
        let mut a: Vec<u32> = Vec::new();
        a.push(r.atlas_index);
        a.push(0);
        a.push(0);
        a.push(0);
        proof {
            assert(a@ =~= seq![records@[chunk[i as int] as int].atlas_index, 0u32, 0u32, 0u32]);
        }
        atlas_indices.push(a);
        i = i + 1;
    }
    while i < cap
        invariant
            live <= i <= cap,
            records_wf(records@),
            chunk == members@.subrange(start as int, end as int),
            live == chunk.len(),
            transforms@.len() == i,
            colors@.len() == i,
            atlas_indices@.len() == i,
            forall|t: int|
                0 <= t < live ==> #[trigger] transforms@[t]@ == records@[chunk[t] as int].transform@,
            forall|t: int|
                0 <= t < live ==> #[trigger] colors@[t]@ == records@[chunk[t] as int].color@,
            forall|t: int|
                0 <= t < live ==> #[trigger] atlas_indices@[t]@ == seq![
                    records@[chunk[t] as int].atlas_index,
                    0u32,
                    0u32,
                    0u32,
                ],
            forall|t: int|
                live <= t < i ==> zero_words(#[trigger] transforms@[t]@, TRANSFORM_WORDS as int),
            forall|t: int|
                live <= t < i ==> zero_words(#[trigger] colors@[t]@, COLOR_WORDS as int),
            forall|t: int|
                live <= t < i ==> zero_words(#[trigger] atlas_indices@[t]@, COLOR_WORDS as int),
        decreases cap - i,
    {
        transforms.push(zero_vec(TRANSFORM_WORDS));
        colors.push(zero_vec(COLOR_WORDS));
        atlas_indices.push(zero_vec(COLOR_WORDS));
        i = i + 1;
    }
    EncodedArrays { transforms, colors, atlas_indices, live_count: live }
}

} // verus!
