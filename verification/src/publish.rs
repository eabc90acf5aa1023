//! The visibility publisher: registers each slot in the frame's sorted
//! visible list under a depth-derived sort key, for later composition and
//! blend ordering.
//!
//! The sort direction is the caller's policy, but the order is always
//! deterministic and stable: slots with identical sort keys keep their
//! slot order.

use vstd::prelude::*;

verus! {

use crate::frame::DrawCommand;

/// One slot's entry in the frame's visible list.
#[derive(PartialEq, Eq, Structural, Clone, Copy, Debug)]
pub struct VisibleEntry {
    /// The slot's handle.
    pub slot: usize,
    /// Depth-derived ordering value.
    pub sort_key: i64,
}

/// Which way the visible list is ordered.
#[derive(PartialEq, Eq, Structural, Clone, Copy, Debug)]
pub enum SortPolicy {
    /// Smallest sort key first.
    Ascending,
    /// Largest sort key first.
    Descending,
}

/// `a` may stand before `b` under the policy.
pub open spec fn entry_le(policy: SortPolicy, a: VisibleEntry, b: VisibleEntry) -> bool {
    match policy {
        SortPolicy::Ascending => a.sort_key <= b.sort_key,
        SortPolicy::Descending => a.sort_key >= b.sort_key,
    }
}

/// `a` must stand strictly after `b` under the policy.
pub open spec fn entry_after(policy: SortPolicy, a: VisibleEntry, b: VisibleEntry) -> bool {
    match policy {
        SortPolicy::Ascending => a.sort_key > b.sort_key,
        SortPolicy::Descending => a.sort_key < b.sort_key,
    }
}

/// The list is ordered by the policy.
pub open spec fn entries_sorted(policy: SortPolicy, es: Seq<VisibleEntry>) -> bool {
    forall|a: int, b: int| 0 <= a < b < es.len() ==> entry_le(policy, #[trigger] es[a], #[trigger] es[b])
}

/// Entries with identical sort keys keep ascending slot order: the sort
/// is stable with respect to the commands' slot order.
pub open spec fn entries_stable(es: Seq<VisibleEntry>) -> bool {
    forall|a: int, b: int|
        0 <= a < b < es.len() && (#[trigger] es[a]).sort_key == (#[trigger] es[b]).sort_key
            ==> es[a].slot < es[b].slot
}

/// Decides `entry_after` at run time.
fn after(policy: SortPolicy, a: VisibleEntry, b: VisibleEntry) -> (r: bool)
    ensures
        r == entry_after(policy, a, b),
{
    match policy {
        SortPolicy::Ascending => a.sort_key > b.sort_key,
        SortPolicy::Descending => a.sort_key < b.sort_key,
    }
}

/// Builds the frame's sorted visible list: one entry per command, ordered
/// by sort key under the given policy, stable across identical keys, each
/// slot exactly once with exactly its command's sort key.
pub fn publish_visible(commands: &Vec<DrawCommand>, policy: SortPolicy) -> (es: Vec<VisibleEntry>)
    requires
        forall|j: int| 0 <= j < commands@.len() ==> (#[trigger] commands@[j]).slot == j,
    ensures
        es@.len() == commands@.len(),
        forall|a: int|
            0 <= a < es@.len() ==> {
                let e = #[trigger] es@[a];
                &&& (e.slot as int) < commands@.len()
                &&& e.sort_key == commands@[e.slot as int].sort_key
            },
        forall|a: int, b: int|
            0 <= a < b < es@.len() ==> (#[trigger] es@[a]).slot != (#[trigger] es@[b]).slot,
        entries_sorted(policy, es@),
        entries_stable(es@),
{
    let n: usize = commands.len();
    let mut es: Vec<VisibleEntry> = Vec::new();
    let mut j: usize = 0;
    while j < n
        invariant
            j <= n,
            n == commands@.len(),
            forall|j2: int| 0 <= j2 < n ==> (#[trigger] commands@[j2]).slot == j2,
            es@.len() == j,
            forall|a: int|
                0 <= a < es@.len() ==> {
                    let e = #[trigger] es@[a];
                    &&& (e.slot as int) < j
                    &&& e.sort_key == commands@[e.slot as int].sort_key
                },
            forall|a: int, b: int|
                0 <= a < b < es@.len() ==> (#[trigger] es@[a]).slot != (#[trigger] es@[b]).slot,
            entries_sorted(policy, es@),
            entries_stable(es@),
        decreases n - j,
    {
        let entry = VisibleEntry { slot: commands[j].slot, sort_key: commands[j].sort_key };
        let m: usize = es.len();
        let mut p: usize = 0;
        while p < m && !after(policy, es[p], entry)
            invariant
                p <= m,
                m == es@.len(),
                forall|a: int| 0 <= a < p ==> !entry_after(policy, #[trigger] es@[a], entry),
            decreases m - p,
        {
            p = p + 1;
        }
        let ghost old_es = es@;
        es.insert(p, entry);
        proof {
            let es2 = es@;
            assert(es2 == old_es.insert(p as int, entry));
            assert(entry.slot == j);
            assert forall|a: int, b: int| 0 <= a < b < es2.len() implies entry_le(
                policy,
                #[trigger] es2[a],
                #[trigger] es2[b],
            ) by {
                if b < p {
                    assert(es2[a] == old_es[a] && es2[b] == old_es[b]);
                } else if b == p {
                    assert(es2[a] == old_es[a]);
                    assert(!entry_after(policy, old_es[a], entry));
                } else if a < p {
                    assert(es2[a] == old_es[a] && es2[b] == old_es[b - 1]);
                } else if a == p {
                    assert(es2[b] == old_es[b - 1]);
                    if p < m {
                        assert(entry_after(policy, old_es[p as int], entry));
                        if p < b - 1 {
                            assert(entry_le(policy, old_es[p as int], old_es[b - 1]));
                        }
                    }
                } else {
                    assert(es2[a] == old_es[a - 1] && es2[b] == old_es[b - 1]);
                }
            }
            assert forall|a: int, b: int|
                0 <= a < b < es2.len() && (#[trigger] es2[a]).sort_key == (
                #[trigger] es2[b]).sort_key implies es2[a].slot < es2[b].slot by {
                if b < p {
                    assert(es2[a] == old_es[a] && es2[b] == old_es[b]);
                } else if b == p {
                    assert(es2[a] == old_es[a]);
                    assert((old_es[a].slot as int) < j);
                } else if a < p {
                    assert(es2[a] == old_es[a] && es2[b] == old_es[b - 1]);
                } else if a == p {
                    assert(es2[b] == old_es[b - 1]);
                    assert(entry_after(policy, old_es[b - 1], entry) || b - 1 == p);
                    if p < b - 1 {
                        assert(entry_after(policy, old_es[p as int], entry));
                        assert(entry_le(policy, old_es[p as int], old_es[b - 1]));
                    }
                } else {
                    assert(es2[a] == old_es[a - 1] && es2[b] == old_es[b - 1]);
                }
            }
        }
        j = j + 1;
    }
    es
}

} // verus!
