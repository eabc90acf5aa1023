//! The grouping phase: partitions the visible sprites into buckets keyed
//! by shared rendering resource and depth bucket.
//!
//! Groups are kept sorted by key and members in ascending record order,
//! so slot assignment is deterministic across frames and cannot flicker
//! from hash-order iteration.

use vstd::prelude::*;

verus! {

use crate::record::{
    SpriteRecord, BatchKey, key_lt, key_of, members_upto, members_of, visible_count_upto,
    visible_count, lemma_members_upto_empty, lemma_members_upto_sound,
};
use crate::sizing::{ceil_div, lemma_ceil_div_props};

/// One bucket: a key and the indices of the visible records grouped
/// under it, in ascending order.
pub struct Group {
    pub key: BatchKey,
    pub members: Vec<usize>,
}

/// Group keys are strictly ascending: sorted and free of duplicates.
pub open spec fn groups_sorted(gs: Seq<Group>) -> bool {
    forall|a: int, b: int| 0 <= a < b < gs.len() ==> #[trigger] key_lt(gs[a].key, gs[b].key)
}

/// Some group carries this key.
pub open spec fn key_present(gs: Seq<Group>, key: BatchKey) -> bool {
    exists|j: int| 0 <= j < gs.len() && (#[trigger] gs[j].key) == key
}

/// Every group's member list is exactly the canonical membership of its
/// key over the first `n` records.
pub open spec fn groups_match(gs: Seq<Group>, s: Seq<SpriteRecord>, n: int) -> bool {
    forall|j: int|
        0 <= j < gs.len() ==> (#[trigger] gs[j].members@) == members_upto(s, gs[j].key, n)
}

/// Every visible record among the first `n` has a group for its key.
pub open spec fn groups_complete(gs: Seq<Group>, s: Seq<SpriteRecord>, n: int) -> bool {
    forall|k: int| 0 <= k < n && (#[trigger] s[k]).visible ==> key_present(gs, key_of(s[k]))
}

/// No group is empty: zero visible sprites yield zero groups.
pub open spec fn groups_nonempty(gs: Seq<Group>) -> bool {
    forall|j: int| 0 <= j < gs.len() ==> (#[trigger] gs[j].members@).len() > 0
}

/// The full grouping contract: `gs` is the one sorted, duplicate-free,
/// complete and exact partition of the visible records of `s` by key.
pub open spec fn grouping_wf(gs: Seq<Group>, s: Seq<SpriteRecord>) -> bool {
    &&& groups_sorted(gs)
    &&& groups_match(gs, s, s.len() as int)
    &&& groups_complete(gs, s, s.len() as int)
    &&& groups_nonempty(gs)
}

/// Total instance demand of the first `n` groups.
pub open spec fn group_sum_upto(gs: Seq<Group>, n: int) -> int
    decreases n,
{
    if n <= 0 {
        0
    } else {
        group_sum_upto(gs, n - 1) + gs[n - 1].members@.len()
    }
}

/// Total instance demand of a grouping.
pub open spec fn group_total(gs: Seq<Group>) -> int {
    group_sum_upto(gs, gs.len() as int)
}

/// Slot demand of the first `n` groups at capacity `cap`.
pub open spec fn group_slots_upto(gs: Seq<Group>, cap: int, n: int) -> int
    decreases n,
{
    if n <= 0 {
        0
    } else {
        group_slots_upto(gs, cap, n - 1) + ceil_div(gs[n - 1].members@.len() as int, cap)
    }
}

/// Slot demand of a grouping: the sum over keys of
/// `ceil(count_for_key / cap)`.
pub open spec fn group_slots(gs: Seq<Group>, cap: int) -> int {
    group_slots_upto(gs, cap, gs.len() as int)
}

/// Sums over a prefix read only that prefix.
pub proof fn lemma_group_sum_congruence(a: Seq<Group>, b: Seq<Group>, n: int)
    requires
        forall|i: int| 0 <= i < n ==> a[i] == b[i],
    ensures
        group_sum_upto(a, n) == group_sum_upto(b, n),
    decreases n,
{
    if n > 0 {
        lemma_group_sum_congruence(a, b, n - 1);
    }
}

/// Replacing group `j` changes the demand sum by the change in that
/// group's member count.
pub proof fn lemma_group_sum_update(gs: Seq<Group>, j: int, g: Group, n: int)
    requires
        0 <= j < n <= gs.len(),
    ensures
        group_sum_upto(gs.update(j, g), n) == group_sum_upto(gs, n) - gs[j].members@.len()
            + g.members@.len(),
    decreases n,
{
    let u = gs.update(j, g);
    if j == n - 1 {
        lemma_group_sum_congruence(u, gs, n - 1);
    } else {
        lemma_group_sum_update(gs, j, g, n - 1);
    }
}

/// Inserting a group adds its member count to the demand sum.
pub proof fn lemma_group_sum_insert(gs: Seq<Group>, p: int, g: Group, n: int)
    requires
        0 <= p <= n <= gs.len(),
    ensures
        group_sum_upto(gs.insert(p, g), n + 1) == group_sum_upto(gs, n) + g.members@.len(),
    decreases n - p,
{
    let ins = gs.insert(p, g);
    if n == p {
        assert(ins[p] == g);
        assert forall|i: int| 0 <= i < n implies ins[i] == gs[i] by {}
        lemma_group_sum_congruence(ins, gs, n);
    } else {
        assert(ins[n] == gs[n - 1]);
        lemma_group_sum_insert(gs, p, g, n - 1);
    }
}

/// Finds where `key` stands in the sorted group list: the index of its
/// group if present, else the position where it must be inserted to keep
/// the list sorted.
fn find_position(groups: &Vec<Group>, key: &BatchKey) -> (r: (usize, bool))
    requires
        groups_sorted(groups@),
    ensures
        r.0 <= groups@.len(),
        forall|j: int| 0 <= j < r.0 ==> key_lt((#[trigger] groups@[j]).key, *key),
        r.1 <==> (r.0 < groups@.len() && groups@[r.0 as int].key == *key),
        !r.1 && (r.0 as int) < groups@.len() ==> key_lt(*key, groups@[r.0 as int].key),
{
    let n: usize = groups.len();
    let mut p: usize = 0;
    while p < n && groups[p].key.lt(key)
        invariant
            p <= n,
            n == groups@.len(),
            forall|j: int| 0 <= j < p ==> key_lt((#[trigger] groups@[j]).key, *key),
        decreases n - p,
    {
        p = p + 1;
    }
    if p < n {
        let found = groups[p].key == *key;
        (p, found)
    } else {
        (p, false)
    }
}

/// Partitions the visible records into sorted, exact, duplicate-free
/// groups by key. The total membership equals the number of visible
/// records: every visible sprite lands in exactly one bucket.
pub fn group_visible(records: &Vec<SpriteRecord>) -> (groups: Vec<Group>)
    ensures
        grouping_wf(groups@, records@),
        group_total(groups@) == visible_count(records@),
{
    let n: usize = records.len();
    let mut groups: Vec<Group> = Vec::new();
    let mut i: usize = 0;
    while i < n
        invariant
            i <= n,
            n == records@.len(),
            groups_sorted(groups@),
            groups_match(groups@, records@, i as int),
            groups_complete(groups@, records@, i as int),
            groups_nonempty(groups@),
            group_total(groups@) == visible_count_upto(records@, i as int),
        decreases n - i,
    {
        let ghost old_gs = groups@;
        let ghost s = records@;
        if records[i].visible {
            let key = BatchKey::of_record(&records[i]);
            let (p, found) = find_position(&groups, &key);
            if found {
                let mut g = groups.remove(p);
                let ghost old_g = g;
                g.members.push(i);
                let ghost new_g = g;
                groups.insert(p, g);
                proof {
                    let gs2 = groups@;
                    assert(gs2 =~= old_gs.update(p as int, new_g));
                    assert(new_g.members@ == old_g.members@.push(i));
                    assert(new_g.key == key);
                    // keys are unchanged, so order, completeness and
                    // exactness for the other groups carry over
                    assert forall|a: int, b: int| 0 <= a < b < gs2.len() implies #[trigger]
                        key_lt(gs2[a].key, gs2[b].key) by {
                        assert(gs2[a].key == old_gs[a].key);
                        assert(gs2[b].key == old_gs[b].key);
                    }
                    assert forall|j: int| 0 <= j < gs2.len() implies (#[trigger] gs2[j].members@)
                        == members_upto(s, gs2[j].key, i + 1) by {
                        if j == p {
                            assert(members_upto(s, key, i + 1) == members_upto(
                                s,
                                key,
                                i as int,
                            ).push(i));
                        } else {
                            assert(gs2[j] == old_gs[j]);
                            // a different group's key differs from `key`,
                            // since keys are strictly sorted
                            if j < p {
                                assert(key_lt(old_gs[j].key, old_gs[p as int].key));
                            } else {
                                assert(key_lt(old_gs[p as int].key, old_gs[j].key));
                            }
                            assert(old_gs[j].key != key);
                            assert(members_upto(s, old_gs[j].key, i + 1) == members_upto(
                                s,
                                old_gs[j].key,
                                i as int,
                            ));
                        }
                    }
                    assert forall|k: int|
                        0 <= k < i + 1 && (#[trigger] s[k]).visible implies key_present(
                        gs2,
                        key_of(s[k]),
                    ) by {
                        if k < i {
                            assert(key_present(old_gs, key_of(s[k])));
                            let j: int = choose|j: int|
                                0 <= j < old_gs.len() && (#[trigger] old_gs[j].key) == key_of(
                                    s[k],
                                );
                            assert(gs2[j].key == key_of(s[k]));
                        } else {
                            assert(gs2[p as int].key == key_of(s[k]));
                        }
                    }
                    lemma_group_sum_update(old_gs, p as int, new_g, old_gs.len() as int);
                }
            } else {
                let mut members: Vec<usize> = Vec::new();
                members.push(i);
                let g = Group { key, members };
                let ghost new_g = g;
                groups.insert(p, g);
                proof {
                    let gs2 = groups@;
                    assert(gs2 == old_gs.insert(p as int, new_g));
                    // no group carried this key before
                    assert forall|j: int| 0 <= j < old_gs.len() implies (#[trigger] old_gs[j].key)
                        != key by {
                        if j < p {
                            assert(key_lt(old_gs[j].key, key));
                        } else if j == p {
                            assert(key_lt(key, old_gs[j].key));
                        } else {
                            assert(key_lt(key, old_gs[p as int].key));
                            assert(key_lt(old_gs[p as int].key, old_gs[j].key));
                        }
                    }
                    // hence no earlier record grouped under it either
                    assert forall|k: int| 0 <= k < i implies !(#[trigger] s[k].visible && key_of(
                        s[k],
                    ) == key) by {
                        if s[k].visible && key_of(s[k]) == key {
                            assert(key_present(old_gs, key));
                        }
                    }
                    lemma_members_upto_empty(s, key, i as int);
                    assert(members_upto(s, key, i + 1) == members_upto(s, key, i as int).push(
                        i,
                    ));
                    assert(new_g.members@ =~= members_upto(s, key, i + 1));
                    // the insert keeps the keys strictly sorted
                    assert forall|a: int, b: int| 0 <= a < b < gs2.len() implies #[trigger]
                        key_lt(gs2[a].key, gs2[b].key) by {
                        if b < p {
                            assert(gs2[a] == old_gs[a] && gs2[b] == old_gs[b]);
                        } else if b == p {
                            assert(gs2[a] == old_gs[a]);
                            assert(key_lt(old_gs[a].key, key));
                        } else if a < p {
                            assert(gs2[a] == old_gs[a] && gs2[b] == old_gs[b - 1]);
                            assert(key_lt(old_gs[a].key, key) || a as int == p);
                            if p <= b - 1 {
                                if p < b - 1 {
                                    assert(key_lt(old_gs[p as int].key, old_gs[b - 1].key));
                                }
                                assert(key_lt(key, old_gs[b - 1].key) || p == b - 1);
                            }
                        } else if a == p {
                            assert(gs2[b] == old_gs[b - 1]);
                            assert(key_lt(key, old_gs[p as int].key));
                            if p < b - 1 {
                                assert(key_lt(old_gs[p as int].key, old_gs[b - 1].key));
                            }
                        } else {
                            assert(gs2[a] == old_gs[a - 1] && gs2[b] == old_gs[b - 1]);
                        }
                    }
                    assert forall|j: int| 0 <= j < gs2.len() implies (#[trigger] gs2[j].members@)
                        == members_upto(s, gs2[j].key, i + 1) by {
                        if j < p {
                            assert(gs2[j] == old_gs[j]);
                            assert(old_gs[j].key != key);
                            assert(members_upto(s, old_gs[j].key, i + 1) == members_upto(
                                s,
                                old_gs[j].key,
                                i as int,
                            ));
                        } else if j == p {
                        } else {
                            assert(gs2[j] == old_gs[j - 1]);
                            assert(old_gs[j - 1].key != key);
                            assert(members_upto(s, old_gs[j - 1].key, i + 1) == members_upto(
                                s,
                                old_gs[j - 1].key,
                                i as int,
                            ));
                        }
                    }
                    assert forall|k: int|
                        0 <= k < i + 1 && (#[trigger] s[k]).visible implies key_present(
                        gs2,
                        key_of(s[k]),
                    ) by {
                        if k < i {
                            let j: int = choose|j: int|
                                0 <= j < old_gs.len() && (#[trigger] old_gs[j].key) == key_of(
                                    s[k],
                                );
                            if j < p {
                                assert(gs2[j].key == key_of(s[k]));
                            } else {
                                assert(gs2[j + 1].key == key_of(s[k]));
                            }
                        } else {
                            assert(gs2[p as int].key == key_of(s[k]));
                        }
                    }
                    lemma_group_sum_insert(old_gs, p as int, new_g, old_gs.len() as int);
                }
            }
        } else {
            proof {
                assert forall|j: int| 0 <= j < groups@.len() implies (#[trigger] groups@[j].members@)
                    == members_upto(s, groups@[j].key, i + 1) by {
                    assert(members_upto(s, groups@[j].key, i + 1) == members_upto(
                        s,
                        groups@[j].key,
                        i as int,
                    ));
                }
            }
        }
        i = i + 1;
    }
    groups
}

/// Computes the frame's slot demand: the sum over keys of
/// `ceil(count_for_key / cap)`, exactly as the sizing invariant asks.
pub fn required_slots(groups: &Vec<Group>, cap: usize) -> (r: usize)
    requires
        cap >= 1,
        group_total(groups@) <= usize::MAX,
    ensures
        r == group_slots(groups@, cap as int),
        r <= group_total(groups@),
{
    proof {
        lemma_group_sums_nonneg(groups@, cap as int, groups@.len() as int);
    }
    let n: usize = groups.len();
    let mut acc: usize = 0;
    let mut j: usize = 0;
    while j < n
        invariant
            j <= n,
            cap >= 1,
            n == groups@.len(),
            group_total(groups@) <= usize::MAX,
            acc == group_slots_upto(groups@, cap as int, j as int),
            acc <= group_sum_upto(groups@, j as int),
        decreases n - j,
    {
        let c: usize = groups[j].members.len();
        let per: usize = crate::sizing::slots_for_count(c, cap);
        proof {
            lemma_ceil_div_props(c as int, cap as int);
            lemma_group_sums_nonneg(groups@, cap as int, n as int);
            lemma_group_sum_mono(groups@, j + 1, n as int);
        }
        acc = acc + per;
        j = j + 1;
    }
    proof {
        lemma_group_sum_mono(groups@, n as int, n as int);
    }
    acc
}

/// Prefix demand sums are nonnegative and slot demand never exceeds
/// instance demand.
pub proof fn lemma_group_sums_nonneg(gs: Seq<Group>, cap: int, n: int)
    requires
        cap >= 1,
        n <= gs.len(),
    ensures
        0 <= group_slots_upto(gs, cap, n) <= group_sum_upto(gs, n),
        0 <= group_sum_upto(gs, n),
    decreases n,
{
    if n > 0 {
        lemma_group_sums_nonneg(gs, cap, n - 1);
        lemma_ceil_div_props(gs[n - 1].members@.len() as int, cap);
    }
}

/// Two sorted, duplicate-free group lists that carry the same keys carry
/// them at the same positions: a grouping's key order is unique.
proof fn lemma_sorted_same_keys_equal(gs1: Seq<Group>, gs2: Seq<Group>)
    requires
        groups_sorted(gs1),
        groups_sorted(gs2),
        forall|k: BatchKey| key_present(gs1, k) <==> key_present(gs2, k),
    ensures
        gs1.len() == gs2.len(),
        forall|j: int| 0 <= j < gs1.len() ==> (#[trigger] gs1[j]).key == gs2[j].key,
    decreases gs1.len(),
{
    if gs1.len() == 0 {
        if gs2.len() > 0 {
            assert(key_present(gs2, gs2[0].key));
            assert(false);
        }
    } else if gs2.len() == 0 {
        assert(key_present(gs1, gs1[0].key));
        assert(false);
    } else {
        assert(key_present(gs1, gs1[0].key));
        let j1: int = choose|j: int| 0 <= j < gs2.len() && (#[trigger] gs2[j].key) == gs1[0].key;
        if j1 > 0 {
            assert(key_lt(gs2[0].key, gs2[j1].key));
        }
        assert(key_present(gs2, gs2[0].key));
        let j2: int = choose|j: int| 0 <= j < gs1.len() && (#[trigger] gs1[j].key) == gs2[0].key;
        if j2 > 0 {
            assert(key_lt(gs1[0].key, gs1[j2].key));
        }
        assert(gs1[0].key == gs2[0].key);
        let t1 = gs1.subrange(1, gs1.len() as int);
        let t2 = gs2.subrange(1, gs2.len() as int);
        assert forall|a: int, b: int| 0 <= a < b < t1.len() implies #[trigger] key_lt(
            t1[a].key,
            t1[b].key,
        ) by {
            assert(t1[a] == gs1[a + 1] && t1[b] == gs1[b + 1]);
        }
        assert forall|a: int, b: int| 0 <= a < b < t2.len() implies #[trigger] key_lt(
            t2[a].key,
            t2[b].key,
        ) by {
            assert(t2[a] == gs2[a + 1] && t2[b] == gs2[b + 1]);
        }
        assert forall|k: BatchKey| key_present(t1, k) <==> key_present(t2, k) by {
            if key_present(t1, k) {
                let j: int = choose|j: int| 0 <= j < t1.len() && (#[trigger] t1[j].key) == k;
                assert(gs1[j + 1].key == k);
                assert(key_lt(gs1[0].key, k));
                assert(key_present(gs1, k));
                let i: int = choose|i: int| 0 <= i < gs2.len() && (#[trigger] gs2[i].key) == k;
                assert(i > 0);
                assert(t2[i - 1].key == k);
                assert(key_present(t2, k));
            }
            if key_present(t2, k) {
                let j: int = choose|j: int| 0 <= j < t2.len() && (#[trigger] t2[j].key) == k;
                assert(gs2[j + 1].key == k);
                assert(key_lt(gs2[0].key, k));
                assert(key_present(gs2, k));
                let i: int = choose|i: int| 0 <= i < gs1.len() && (#[trigger] gs1[i].key) == k;
                assert(i > 0);
                assert(t1[i - 1].key == k);
                assert(key_present(t1, k));
            }
        }
        lemma_sorted_same_keys_equal(t1, t2);
        assert forall|j: int| 0 <= j < gs1.len() implies (#[trigger] gs1[j]).key
            == gs2[j].key by {
            if j > 0 {
                assert(t1[j - 1].key == t2[j - 1].key);
                assert(t1[j - 1] == gs1[j] && t2[j - 1] == gs2[j]);
            }
        }
    }
}

/// Slot demand reads only the per-group member counts.
proof fn lemma_group_slots_congruent(gs1: Seq<Group>, gs2: Seq<Group>, cap: int, n: int)
    requires
        n <= gs1.len(),
        n <= gs2.len(),
        forall|j: int|
            0 <= j < n ==> (#[trigger] gs1[j]).members@.len() == gs2[j].members@.len(),
    ensures
        group_slots_upto(gs1, cap, n) == group_slots_upto(gs2, cap, n),
    decreases n,
{
    if n > 0 {
        lemma_group_slots_congruent(gs1, gs2, cap, n - 1);
    }
}

/// Law: sizing is idempotent in the composition. Shrinking the visible
/// set and later restoring the identical composition — the same instance
/// count under every key — yields the same slot count, whatever the
/// record order or identity.
pub proof fn lemma_sizing_idempotent(
    s1: Seq<SpriteRecord>,
    gs1: Seq<Group>,
    s2: Seq<SpriteRecord>,
    gs2: Seq<Group>,
    cap: int,
)
    requires
        cap >= 1,
        s1.len() <= usize::MAX,
        s2.len() <= usize::MAX,
        grouping_wf(gs1, s1),
        grouping_wf(gs2, s2),
        forall|k: BatchKey| (#[trigger] members_of(s1, k)).len() == members_of(s2, k).len(),
    ensures
        group_slots(gs1, cap) == group_slots(gs2, cap),
{
    assert forall|k: BatchKey| key_present(gs1, k) <==> key_present(gs2, k) by {
        if key_present(gs1, k) {
            let j: int = choose|j: int| 0 <= j < gs1.len() && (#[trigger] gs1[j].key) == k;
            assert(gs1[j].members@ == members_of(s1, k));
            assert(members_of(s2, k).len() > 0);
            lemma_members_upto_sound(s2, k, s2.len() as int);
            let i: usize = members_of(s2, k)[0];
            assert(s2[i as int].visible && key_of(s2[i as int]) == k);
            assert(key_present(gs2, key_of(s2[i as int])));
        }
        if key_present(gs2, k) {
            let j: int = choose|j: int| 0 <= j < gs2.len() && (#[trigger] gs2[j].key) == k;
            assert(gs2[j].members@ == members_of(s2, k));
            assert(members_of(s1, k).len() > 0);
            lemma_members_upto_sound(s1, k, s1.len() as int);
            let i: usize = members_of(s1, k)[0];
            assert(s1[i as int].visible && key_of(s1[i as int]) == k);
            assert(key_present(gs1, key_of(s1[i as int])));
        }
    }
    lemma_sorted_same_keys_equal(gs1, gs2);
    assert forall|j: int| 0 <= j < gs1.len() implies (#[trigger] gs1[j]).members@.len()
        == gs2[j].members@.len() by {
        assert(gs1[j].members@ == members_of(s1, gs1[j].key));
        assert(gs2[j].members@ == members_of(s2, gs2[j].key));
        assert(members_of(s1, gs1[j].key).len() == members_of(s2, gs1[j].key).len());
    }
    lemma_group_slots_congruent(gs1, gs2, cap, gs1.len() as int);
}

/// Law: grouping is deterministic. Any two groupings of the same records
/// agree key for key and member for member, so slot assignment cannot
/// flicker between frames that see the same scene.
pub proof fn lemma_grouping_deterministic(s: Seq<SpriteRecord>, gs1: Seq<Group>, gs2: Seq<Group>)
    requires
        s.len() <= usize::MAX,
        grouping_wf(gs1, s),
        grouping_wf(gs2, s),
    ensures
        gs1.len() == gs2.len(),
        forall|j: int|
            0 <= j < gs1.len() ==> (#[trigger] gs1[j]).key == gs2[j].key && gs1[j].members@
                == gs2[j].members@,
{
    assert forall|k: BatchKey| key_present(gs1, k) <==> key_present(gs2, k) by {
        if key_present(gs1, k) {
            let j: int = choose|j: int| 0 <= j < gs1.len() && (#[trigger] gs1[j].key) == k;
            assert(gs1[j].members@ == members_of(s, k));
            lemma_members_upto_sound(s, k, s.len() as int);
            let i: usize = members_of(s, k)[0];
            assert(s[i as int].visible && key_of(s[i as int]) == k);
            assert(key_present(gs2, key_of(s[i as int])));
        }
        if key_present(gs2, k) {
            let j: int = choose|j: int| 0 <= j < gs2.len() && (#[trigger] gs2[j].key) == k;
            assert(gs2[j].members@ == members_of(s, k));
            lemma_members_upto_sound(s, k, s.len() as int);
            let i: usize = members_of(s, k)[0];
            assert(s[i as int].visible && key_of(s[i as int]) == k);
            assert(key_present(gs1, key_of(s[i as int])));
        }
    }
    lemma_sorted_same_keys_equal(gs1, gs2);
    assert forall|j: int| 0 <= j < gs1.len() implies (#[trigger] gs1[j]).key == gs2[j].key
        && gs1[j].members@ == gs2[j].members@ by {
        assert(gs1[j].members@ == members_of(s, gs1[j].key));
        assert(gs2[j].members@ == members_of(s, gs2[j].key));
    }
}

/// Prefix demand sums grow with the prefix.
pub proof fn lemma_group_sum_mono(gs: Seq<Group>, m: int, n: int)
    requires
        m <= n <= gs.len(),
    ensures
        group_sum_upto(gs, m) <= group_sum_upto(gs, n),
    decreases n - m,
{
    if m < n {
        lemma_group_sum_mono(gs, m, n - 1);
    }
}

} // verus!
