//! Sprite records and batch keys: the read-only per-frame input of the
//! engine, and the grouping criterion derived from it.

use vstd::prelude::*;

verus! {

/// Number of 32-bit words in one column-major 4x4 transform matrix.
pub const TRANSFORM_WORDS: usize = 16;

/// Number of 32-bit words in one RGBA tint color.
pub const COLOR_WORDS: usize = 4;

/// One sprite as the host scene hands it over each frame.
///
/// The engine treats the attribute payloads as opaque bit patterns: a
/// transform is 16 words (column-major 4x4) and a tint color 4 words, both
/// passed through unvalidated. The host computes `depth_bucket` from the
/// sprite's depth before handing the record over.
pub struct SpriteRecord {
    /// Whether the sprite takes part in this frame at all.
    pub visible: bool,
    /// Opaque id of the shared texture/material resource.
    pub resource_id: u64,
    /// Quantized depth, part of the grouping key.
    pub depth_bucket: i32,
    /// Column-major 4x4 transform, 16 words of bits.
    pub transform: Vec<u32>,
    /// RGBA tint, 4 words of bits.
    pub color: Vec<u32>,
    /// Index into the texture atlas.
    pub atlas_index: u32,
}

impl SpriteRecord {
    /// A record is well formed when its attribute payloads have the fixed
    /// widths the encoder expects.
    pub open spec fn wf(self) -> bool {
        &&& self.transform@.len() == TRANSFORM_WORDS
        &&& self.color@.len() == COLOR_WORDS
    }

    /// Builds a visible record from its attributes.
    pub fn new(
        resource_id: u64,
        depth_bucket: i32,
        transform: Vec<u32>,
        color: Vec<u32>,
        atlas_index: u32,
    ) -> (r: SpriteRecord)
        requires
            transform@.len() == TRANSFORM_WORDS,
            color@.len() == COLOR_WORDS,
        ensures
            r.wf(),
            r.visible,
            r.resource_id == resource_id,
            r.depth_bucket == depth_bucket,
            r.transform@ == transform@,
            r.color@ == color@,
            r.atlas_index == atlas_index,
    {
        SpriteRecord { visible: true, resource_id, depth_bucket, transform, color, atlas_index }
    }
}

/// Grouping criterion: sprites that agree on it may share a draw call.
#[derive(PartialEq, Eq, Structural, Clone, Copy, Debug, Hash)]
pub struct BatchKey {
    pub resource_id: u64,
    pub depth_bucket: i32,
}

/// Lexicographic strict order on keys: first by resource, then by depth
/// bucket. Used to assign slots deterministically across frames.
pub open spec fn key_lt(a: BatchKey, b: BatchKey) -> bool {
    ||| a.resource_id < b.resource_id
    ||| (a.resource_id == b.resource_id && a.depth_bucket < b.depth_bucket)
}

/// The key a record groups under.
pub open spec fn key_of(r: SpriteRecord) -> BatchKey {
    BatchKey { resource_id: r.resource_id, depth_bucket: r.depth_bucket }
}

impl BatchKey {
    /// Decides the strict key order.
    pub fn lt(&self, other: &BatchKey) -> (r: bool)
        ensures
            r == key_lt(*self, *other),
    {
        self.resource_id < other.resource_id
            || (self.resource_id == other.resource_id && self.depth_bucket < other.depth_bucket)
    }

    /// Reads the key off a record.
    pub fn of_record(r: &SpriteRecord) -> (k: BatchKey)
        ensures
            k == key_of(*r),
    {
        BatchKey { resource_id: r.resource_id, depth_bucket: r.depth_bucket }
    }
}

/// All records well formed: what every phase of the engine assumes of its
/// input.
pub open spec fn records_wf(s: Seq<SpriteRecord>) -> bool {
    forall|i: int| 0 <= i < s.len() ==> #[trigger] s[i].wf()
}

/// The indices below `n` of visible records grouped under `key`, in
/// ascending order. This is the canonical membership a grouping of the
/// first `n` records must reproduce.
pub open spec fn members_upto(s: Seq<SpriteRecord>, key: BatchKey, n: int) -> Seq<usize>
    decreases n,
{
    if n <= 0 {
        Seq::empty()
    } else if s[n - 1].visible && key_of(s[n - 1]) == key {
        members_upto(s, key, n - 1).push((n - 1) as usize)
    } else {
        members_upto(s, key, n - 1)
    }
}

/// The indices of visible records grouped under `key`, in ascending order.
pub open spec fn members_of(s: Seq<SpriteRecord>, key: BatchKey) -> Seq<usize> {
    members_upto(s, key, s.len() as int)
}

/// How many of the first `n` records are visible.
pub open spec fn visible_count_upto(s: Seq<SpriteRecord>, n: int) -> nat
    decreases n,
{
    if n <= 0 {
        0
    } else if s[n - 1].visible {
        visible_count_upto(s, n - 1) + 1
    } else {
        visible_count_upto(s, n - 1)
    }
}

/// How many records are visible: the total instance demand of the frame.
pub open spec fn visible_count(s: Seq<SpriteRecord>) -> nat {
    visible_count_upto(s, s.len() as int)
}

/// Every member listed for a key below `n` is a valid index of a visible
/// record with that key, and the list is strictly ascending.
pub proof fn lemma_members_upto_sound(s: Seq<SpriteRecord>, key: BatchKey, n: int)
    requires
        n <= s.len(),
        n <= usize::MAX,
    ensures
        forall|t: int|
            0 <= t < members_upto(s, key, n).len() ==> {
                let i = #[trigger] members_upto(s, key, n)[t];
                &&& (i as int) < n
                &&& s[i as int].visible
                &&& key_of(s[i as int]) == key
            },
        forall|t1: int, t2: int|
            0 <= t1 < t2 < members_upto(s, key, n).len() ==> members_upto(s, key, n)[t1]
                < members_upto(s, key, n)[t2],
    decreases n,
{
    if n > 0 {
        lemma_members_upto_sound(s, key, n - 1);
        let prev = members_upto(s, key, n - 1);
        let cur = members_upto(s, key, n);
        if s[n - 1].visible && key_of(s[n - 1]) == key {
            assert(cur == prev.push((n - 1) as usize));
            assert forall|t: int| 0 <= t < cur.len() implies {
                let i = #[trigger] cur[t];
                &&& (i as int) < n
                &&& s[i as int].visible
                &&& key_of(s[i as int]) == key
            } by {
                if t < prev.len() {
                    assert(cur[t] == prev[t]);
                }
            }
            assert forall|t1: int, t2: int| 0 <= t1 < t2 < cur.len() implies cur[t1]
                < cur[t2] by {
                if t2 < prev.len() {
                    assert(cur[t1] == prev[t1] && cur[t2] == prev[t2]);
                } else {
                    assert(cur[t1] == prev[t1] && cur[t2] == (n - 1) as usize);
                }
            }
        }
    }
}

/// If no record below `n` groups under `key`, the key has no members there.
pub proof fn lemma_members_upto_empty(s: Seq<SpriteRecord>, key: BatchKey, n: int)
    requires
        forall|i: int| 0 <= i < n ==> !(#[trigger] s[i].visible && key_of(s[i]) == key),
    ensures
        members_upto(s, key, n) =~= Seq::<usize>::empty(),
    decreases n,
{
    if n > 0 {
        lemma_members_upto_empty(s, key, n - 1);
    }
}

/// At most `n` records group under any one key below `n`.
pub proof fn lemma_members_upto_len(s: Seq<SpriteRecord>, key: BatchKey, n: int)
    ensures
        members_upto(s, key, n).len() <= if n <= 0 { 0 } else { n as nat },
    decreases n,
{
    if n > 0 {
        lemma_members_upto_len(s, key, n - 1);
    }
}

/// No more records are visible than there are records.
pub proof fn lemma_visible_count_le(s: Seq<SpriteRecord>, n: int)
    ensures
        visible_count_upto(s, n) <= if n <= 0 { 0 } else { n as nat },
    decreases n,
{
    if n > 0 {
        lemma_visible_count_le(s, n - 1);
    }
}

} // verus!
