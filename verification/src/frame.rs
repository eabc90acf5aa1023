//! The per-frame entry point: groups the visible sprites, sizes the pool
//! to the exact slot demand, encodes every chunk into its own slot, and
//! emits one draw command per slot, plus the decision logic of the draw
//! dispatcher.
//!
//! The frame plan associates every key explicitly with its slots: command
//! `j` drives slot `j`, and the command for chunk `t` of group `g` stands
//! at index `group_slots_upto(g) + t`. Nothing depends on hash order or
//! on positional zipping of independently sorted lists.

use vstd::prelude::*;

verus! {

use vstd::arithmetic::mul::lemma_mul_inequality;
use crate::record::{
    SpriteRecord, BatchKey, records_wf, visible_count, members_of, lemma_members_upto_sound,
};
use crate::group::{
    Group, grouping_wf, group_total, group_sum_upto, group_slots, group_slots_upto, group_visible,
    required_slots, lemma_group_sums_nonneg,
};
use crate::sizing::{ceil_div, lemma_ceil_div_props};
use crate::pool::{BatchPool, BatchSlot, SlotState};
use crate::encode::{EncodedArrays, encodes, encode_chunk};
use crate::record::{lemma_visible_count_le, key_of};

/// First instance of chunk `t` within a key's member list.
pub open spec fn chunk_lo(t: int, cap: int) -> int {
    t * cap
}

/// One past the last instance of chunk `t` of a member list of length
/// `len`: full capacity for every chunk but possibly the last.
pub open spec fn chunk_hi(len: int, t: int, cap: int) -> int {
    if (t + 1) * cap < len {
        (t + 1) * cap
    } else {
        len
    }
}

/// How many of a key's `len` members the first `t` chunks cover.
pub open spec fn covered(len: int, cap: int, t: int) -> int {
    if t * cap < len {
        t * cap
    } else {
        len
    }
}

/// The slot (and command) index of chunk `t` of group `g`.
pub open spec fn cmd_index(gs: Seq<Group>, cap: int, g: int, t: int) -> int {
    group_slots_upto(gs, cap, g) + t
}

/// One instanced draw call's worth of work for the dispatcher.
pub struct DrawCommand {
    /// Handle of the slot this command drives; command `j` drives slot
    /// `j`.
    pub slot: usize,
    /// The single key whose instances this slot holds this frame.
    pub key: BatchKey,
    /// The slot's encoded, zero-padded instance buffers.
    pub arrays: EncodedArrays,
    /// Depth-derived ordering value for the visibility publisher.
    pub sort_key: i64,
    /// Which records the slot holds: chunk `chunk` of group `group`.
    pub members: Ghost<Seq<usize>>,
    pub group: Ghost<int>,
    pub chunk: Ghost<int>,
}

/// Everything one frame tick produces for the host.
pub struct FramePlan {
    /// One command per slot, in slot order.
    pub commands: Vec<DrawCommand>,
    /// Handles of the slots released by the resize, for the host to free.
    pub released: Vec<usize>,
    /// The grouping the plan was built from.
    pub groups: Ghost<Seq<Group>>,
}

/// Every command names its place: command `j` drives slot `j` and is
/// chunk `chunk` of group `group`, whose key it carries.
pub open spec fn plan_cmds_tagged(cmds: Seq<DrawCommand>, gs: Seq<Group>, cap: int) -> bool {
    forall|j: int|
        0 <= j < cmds.len() ==> {
            let c = #[trigger] cmds[j];
            &&& c.slot == j
            &&& 0 <= c.group@ < gs.len()
            &&& 0 <= c.chunk@ < ceil_div(gs[c.group@].members@.len() as int, cap)
            &&& j == cmd_index(gs, cap, c.group@, c.chunk@)
            &&& c.key == gs[c.group@].key
        }
}

/// Every chunk of every group has its command, holding exactly that
/// chunk of the key's members, encoded and zero-padded, with the
/// depth-derived sort key.
pub open spec fn plan_chunks_exact(
    cmds: Seq<DrawCommand>,
    gs: Seq<Group>,
    s: Seq<SpriteRecord>,
    cap: int,
    camera: int,
) -> bool {
    forall|g: int, t: int|
        0 <= g < gs.len() && 0 <= t < ceil_div(gs[g].members@.len() as int, cap) ==> {
            let j = #[trigger] cmd_index(gs, cap, g, t);
            let len = gs[g].members@.len() as int;
            &&& 0 <= j < cmds.len()
            &&& cmds[j].key == gs[g].key
            &&& cmds[j].members@ == gs[g].members@.subrange(
                chunk_lo(t, cap),
                chunk_hi(len, t, cap),
            )
            &&& encodes(s, cmds[j].members@, cmds[j].arrays, cap)
            &&& cmds[j].sort_key == camera - gs[g].key.depth_bucket
        }
}

/// Total live instances over the first `n` commands.
pub open spec fn live_sum_upto(cmds: Seq<DrawCommand>, n: int) -> int
    decreases n,
{
    if n <= 0 {
        0
    } else {
        live_sum_upto(cmds, n - 1) + cmds[n - 1].arrays.live_count
    }
}

/// Total live instances over a plan's commands.
pub open spec fn live_sum(cmds: Seq<DrawCommand>) -> int {
    live_sum_upto(cmds, cmds.len() as int)
}

/// Prefix live sums read only that prefix.
proof fn lemma_live_sum_push(cmds: Seq<DrawCommand>, c: DrawCommand, n: int)
    requires
        0 <= n <= cmds.len(),
    ensures
        live_sum_upto(cmds.push(c), n) == live_sum_upto(cmds, n),
    decreases n,
{
    if n > 0 {
        lemma_live_sum_push(cmds, c, n - 1);
    }
}

/// Runs one frame tick: reset, group, resize, encode, bind.
///
/// On return the pool holds exactly `group_slots` slots — the sum over
/// keys of `ceil(count_for_key / capacity)` — every slot is Bound to one
/// chunk of one key, command `j` drives slot `j`, and the total of live
/// instance counts equals the number of visible records: every visible
/// sprite is represented exactly once, none dropped, none duplicated.
/// A pool size that disagrees with the sizing formula cannot arise: the
/// equality is proved to hold after every tick.
pub fn run_frame(
    pool: &mut BatchPool,
    records: &Vec<SpriteRecord>,
    camera_depth_bucket: i32,
) -> (plan: FramePlan)
    requires
        old(pool).wf(),
        records_wf(records@),
    ensures
        final(pool).wf(),
        final(pool).capacity == old(pool).capacity,
        grouping_wf(plan.groups@, records@),
        group_total(plan.groups@) == visible_count(records@),
        final(pool).slots@.len() == group_slots(plan.groups@, old(pool).capacity as int),
        plan.commands@.len() == final(pool).slots@.len(),
        forall|i: int|
            0 <= i < final(pool).slots@.len() ==> (#[trigger] final(pool).slots@[i]).state
                == SlotState::Bound,
        plan_cmds_tagged(plan.commands@, plan.groups@, old(pool).capacity as int),
        plan_chunks_exact(
            plan.commands@,
            plan.groups@,
            records@,
            old(pool).capacity as int,
            camera_depth_bucket as int,
        ),
        live_sum(plan.commands@) == visible_count(records@),
        plan.released@.len() == if final(pool).slots@.len() < old(pool).slots@.len() {
            old(pool).slots@.len() - final(pool).slots@.len()
        } else {
            0
        },
        forall|t: int|
            0 <= t < plan.released@.len() ==> (#[trigger] plan.released@[t]) as int
                == final(pool).slots@.len() + t,
{
    pool.reset_all();
    let groups = group_visible(records);
    let ghost gs = groups@;
    let ghost s = records@;
    let cap: usize = pool.capacity;
    let n_records: usize = records.len();
    proof {
        assert(s.len() == n_records);
        lemma_visible_count_le(s, s.len() as int);
    }
    let required: usize = required_slots(&groups, cap);
    let released = pool.resize(required);
    let mut commands: Vec<DrawCommand> = Vec::new();
    let n_groups: usize = groups.len();
    let mut g: usize = 0;
    while g < n_groups
        invariant
            g <= n_groups,
            n_groups == gs.len(),
            gs == groups@,
            s == records@,
            s.len() <= usize::MAX,
            records_wf(s),
            grouping_wf(gs, s),
            pool.wf(),
            pool.capacity == cap,
            cap >= 1,
            pool.slots@.len() == required,
            required == group_slots(gs, cap as int),
            commands@.len() == group_slots_upto(gs, cap as int, g as int),
            live_sum_upto(commands@, commands@.len() as int) == group_sum_upto(gs, g as int),
            forall|i: int|
                0 <= i < commands@.len() ==> (#[trigger] pool.slots@[i]).state == SlotState::Bound,
            forall|i: int|
                commands@.len() <= i < required ==> (#[trigger] pool.slots@[i]).state
                    == SlotState::Unused,
            plan_cmds_tagged(commands@, gs, cap as int),
            forall|g2: int, t2: int|
                0 <= g2 < g && 0 <= t2 < ceil_div(gs[g2].members@.len() as int, cap as int) ==> {
                    let j = #[trigger] cmd_index(gs, cap as int, g2, t2);
                    let len = gs[g2].members@.len() as int;
                    &&& 0 <= j < commands@.len()
                    &&& commands@[j].key == gs[g2].key
                    &&& commands@[j].members@ == gs[g2].members@.subrange(
                        chunk_lo(t2, cap as int),
                        chunk_hi(len, t2, cap as int),
                    )
                    &&& encodes(s, commands@[j].members@, commands@[j].arrays, cap as int)
                    &&& commands@[j].sort_key == camera_depth_bucket as int
                        - gs[g2].key.depth_bucket
                },
        decreases n_groups - g,
    {
        let len_g: usize = groups[g].members.len();
        let ghost key_g = gs[g as int].key;
        proof {
            // the members of this group are valid, visible record indices
            assert(gs[g as int].members@ == members_of(s, key_g));
            lemma_members_upto_sound(s, key_g, s.len() as int);
            lemma_ceil_div_props(len_g as int, cap as int);
            lemma_group_slots_prefix_le(gs, cap as int, g as int);
        }
        let chunks: usize = crate::sizing::slots_for_count(len_g, cap);
        let mut t: usize = 0;
        while t < chunks
            invariant
                t <= chunks,
                g < n_groups,
                n_groups == gs.len(),
                gs == groups@,
                s == records@,
                records_wf(s),
                grouping_wf(gs, s),
                pool.wf(),
                pool.capacity == cap,
                cap >= 1,
                pool.slots@.len() == required,
                required == group_slots(gs, cap as int),
                len_g == gs[g as int].members@.len(),
                key_g == gs[g as int].key,
                chunks == ceil_div(len_g as int, cap as int),
                group_slots_upto(gs, cap as int, g as int) + chunks <= required,
                commands@.len() == cmd_index(gs, cap as int, g as int, t as int),
                live_sum_upto(commands@, commands@.len() as int) == group_sum_upto(gs, g as int)
                    + covered(len_g as int, cap as int, t as int),
                forall|i: int|
                    0 <= i < commands@.len() ==> (#[trigger] pool.slots@[i]).state
                        == SlotState::Bound,
                forall|i: int|
                    commands@.len() <= i < required ==> (#[trigger] pool.slots@[i]).state
                        == SlotState::Unused,
                plan_cmds_tagged(commands@, gs, cap as int),
                forall|g2: int, t2: int|
                    0 <= g2 < g && 0 <= t2 < ceil_div(gs[g2].members@.len() as int, cap as int)
                        ==> {
                        let j = #[trigger] cmd_index(gs, cap as int, g2, t2);
                        let len = gs[g2].members@.len() as int;
                        &&& 0 <= j < commands@.len()
                        &&& commands@[j].key == gs[g2].key
                        &&& commands@[j].members@ == gs[g2].members@.subrange(
                            chunk_lo(t2, cap as int),
                            chunk_hi(len, t2, cap as int),
                        )
                        &&& encodes(s, commands@[j].members@, commands@[j].arrays, cap as int)
                        &&& commands@[j].sort_key == camera_depth_bucket as int
                            - gs[g2].key.depth_bucket
                    },
                forall|t2: int|
                    0 <= t2 < t ==> {
                        let j = #[trigger] cmd_index(gs, cap as int, g as int, t2);
                        &&& 0 <= j < commands@.len()
                        &&& commands@[j].key == gs[g as int].key
                        &&& commands@[j].members@ == gs[g as int].members@.subrange(
                            chunk_lo(t2, cap as int),
                            chunk_hi(len_g as int, t2, cap as int),
                        )
                        &&& encodes(s, commands@[j].members@, commands@[j].arrays, cap as int)
                        &&& commands@[j].sort_key == camera_depth_bucket as int
                            - gs[g as int].key.depth_bucket
                    },
                forall|tm: int|
                    0 <= tm < gs[g as int].members@.len() ==> (#[trigger] gs[g as int].members@[tm]
                        as int) < s.len(),
            decreases chunks - t,
        {
            proof {
                lemma_ceil_div_props(len_g as int, cap as int);
                // chunk t starts strictly inside the member list
                lemma_mul_inequality(t as int, chunks as int - 1, cap as int);
                assert(chunks as int * (cap as int) - (cap as int) == (chunks as int - 1) * (
                cap as int)) by (nonlinear_arith);
                assert((t as int) * (cap as int) <= (chunks as int - 1) * (cap as int));
                assert((chunks as int - 1) * (cap as int) < len_g as int);
            }
            let lo: usize = t * cap;
            proof {
                assert((t as int + 1) * (cap as int) == (t as int) * (cap as int) + (cap as int))
                    by (nonlinear_arith);
            }
            let hi: usize = if len_g - lo > cap {
                lo + cap
            } else {
                len_g
            };
            proof {
                assert(hi as int == chunk_hi(len_g as int, t as int, cap as int));
            }
            let e = encode_chunk(records, &groups[g].members, lo, hi, cap);
            let j: usize = commands.len();
            proof {
                assert(j < required);
            }
            pool.bind(j);
            let sort_key: i64 = camera_depth_bucket as i64 - (groups[g].key.depth_bucket as i64);
            let cmd = DrawCommand {
                slot: j,
                key: groups[g].key,
                arrays: e,
                sort_key,
                members: Ghost(gs[g as int].members@.subrange(lo as int, hi as int)),
                group: Ghost(g as int),
                chunk: Ghost(t as int),
            };
            let ghost old_cmds = commands@;
            commands.push(cmd);
            proof {
                let cmds2 = commands@;
                assert(cmds2 == old_cmds.push(cmd));
                lemma_live_sum_push(old_cmds, cmd, old_cmds.len() as int);
                assert(live_sum_upto(cmds2, cmds2.len() as int) == live_sum_upto(
                    old_cmds,
                    old_cmds.len() as int,
                ) + e.live_count);
                // the new chunk extends the covered prefix by its size
                assert(covered(len_g as int, cap as int, t as int + 1) == covered(
                    len_g as int,
                    cap as int,
                    t as int,
                ) + (hi - lo));
                assert forall|j2: int| 0 <= j2 < cmds2.len() implies {
                    let c = #[trigger] cmds2[j2];
                    &&& c.slot == j2
                    &&& 0 <= c.group@ < gs.len()
                    &&& 0 <= c.chunk@ < ceil_div(gs[c.group@].members@.len() as int, cap as int)
                    &&& j2 == cmd_index(gs, cap as int, c.group@, c.chunk@)
                    &&& c.key == gs[c.group@].key
                } by {
                    if j2 < old_cmds.len() {
                        assert(cmds2[j2] == old_cmds[j2]);
                    } else {
                        assert(cmds2[j2] == cmd);
                    }
                }
            }
            t = t + 1;
        }
        proof {
            // all chunks of this group are done: the covered prefix is the
            // whole member list, and the command count steps to the next
            // group's first slot
            lemma_ceil_div_props(len_g as int, cap as int);
            assert(covered(len_g as int, cap as int, chunks as int) == len_g as int);
            assert(group_slots_upto(gs, cap as int, g as int + 1) == group_slots_upto(
                gs,
                cap as int,
                g as int,
            ) + chunks);
            assert(group_sum_upto(gs, g as int + 1) == group_sum_upto(gs, g as int)
                + len_g as int);
        }
        g = g + 1;
    }
    FramePlan { commands, released, groups: Ghost(gs) }
}

/// A prefix's slot demand, plus its own group's, never exceeds the whole
/// frame's.
pub proof fn lemma_group_slots_prefix_le(gs: Seq<Group>, cap: int, g: int)
    requires
        cap >= 1,
        0 <= g < gs.len(),
    ensures
        group_slots_upto(gs, cap, g) + ceil_div(gs[g].members@.len() as int, cap) <= group_slots(
            gs,
            cap,
        ),
        0 <= group_slots_upto(gs, cap, g),
    decreases gs.len() - g,
{
    lemma_group_sums_nonneg(gs, cap, g);
    lemma_group_slots_mono(gs, cap, g + 1, gs.len() as int);
}

/// Slot demand grows with the prefix.
pub proof fn lemma_group_slots_mono(gs: Seq<Group>, cap: int, m: int, n: int)
    requires
        cap >= 1,
        0 <= m <= n <= gs.len(),
    ensures
        group_slots_upto(gs, cap, m) <= group_slots_upto(gs, cap, n),
    decreases n - m,
{
    if m < n {
        lemma_ceil_div_props(gs[n - 1].members@.len() as int, cap);
        lemma_group_slots_mono(gs, cap, m, n - 1);
    }
}

/// Law: every slot's arrays are exactly its chunk's attributes, and every
/// padding entry — index at or past the live count — is zero, for every
/// slot of every frame plan.
pub proof fn lemma_plan_padding_zero(
    cmds: Seq<DrawCommand>,
    gs: Seq<Group>,
    s: Seq<SpriteRecord>,
    cap: int,
    camera: int,
)
    requires
        plan_cmds_tagged(cmds, gs, cap),
        plan_chunks_exact(cmds, gs, s, cap, camera),
    ensures
        forall|j: int|
            0 <= j < cmds.len() ==> encodes(s, (#[trigger] cmds[j]).members@, cmds[j].arrays, cap),
{
    assert forall|j: int| 0 <= j < cmds.len() implies encodes(
        s,
        (#[trigger] cmds[j]).members@,
        cmds[j].arrays,
        cap,
    ) by {
        let c = cmds[j];
        let g: int = c.group@;
        let t: int = c.chunk@;
        assert(j == cmd_index(gs, cap, g, t));
        assert(0 <= g < gs.len() && 0 <= t < ceil_div(gs[g].members@.len() as int, cap));
    }
}

/// Law: no slot ever holds instances from two distinct keys within one
/// frame. Every record a command's slot holds is visible and groups
/// under the command's one key.
pub proof fn lemma_slot_single_key(
    cmds: Seq<DrawCommand>,
    gs: Seq<Group>,
    s: Seq<SpriteRecord>,
    cap: int,
    camera: int,
)
    requires
        s.len() <= usize::MAX,
        grouping_wf(gs, s),
        cap >= 1,
        plan_cmds_tagged(cmds, gs, cap),
        plan_chunks_exact(cmds, gs, s, cap, camera),
    ensures
        forall|j: int, a: int|
            0 <= j < cmds.len() && 0 <= a < cmds[j].members@.len() ==> {
                let i = #[trigger] cmds[j].members@[a];
                &&& (i as int) < s.len()
                &&& s[i as int].visible
                &&& key_of(s[i as int]) == cmds[j].key
            },
{
    assert forall|j: int, a: int|
        0 <= j < cmds.len() && 0 <= a < cmds[j].members@.len() implies {
        let i = #[trigger] cmds[j].members@[a];
        &&& (i as int) < s.len()
        &&& s[i as int].visible
        &&& key_of(s[i as int]) == cmds[j].key
    } by {
        let c = cmds[j];
        let g: int = c.group@;
        let t: int = c.chunk@;
        assert(j == cmd_index(gs, cap, g, t));
        assert(0 <= g < gs.len() && 0 <= t < ceil_div(gs[g].members@.len() as int, cap));
        let key = gs[g].key;
        assert(gs[g].members@ == members_of(s, key));
        lemma_members_upto_sound(s, key, s.len() as int);
        let len: int = gs[g].members@.len() as int;
        let chunks: int = ceil_div(len, cap);
        lemma_ceil_div_props(len, cap);
        lemma_mul_inequality(t, chunks - 1, cap);
        assert(chunks * cap - cap == (chunks - 1) * cap) by (nonlinear_arith);
        assert(t * cap >= 0) by (nonlinear_arith)
            requires t >= 0, cap >= 1;
        assert((t + 1) * cap == t * cap + cap) by (nonlinear_arith);
        assert(chunk_lo(t, cap) < len);
        assert(c.members@ == gs[g].members@.subrange(chunk_lo(t, cap), chunk_hi(len, t, cap)));
        assert(c.members@[a] == gs[g].members@[chunk_lo(t, cap) + a]);
    }
}

/// What the dispatcher decides for one slot.
#[derive(PartialEq, Eq, Structural, Clone, Copy, Debug)]
pub enum DrawOutcome {
    /// Issue one instanced draw call over the live instances — never over
    /// the full capacity.
    Drawn { instance_count: usize },
    /// The shared geometry's backend buffers could not be resolved: skip
    /// this slot's draw and carry on with the rest of the batch.
    SkippedResourceLookup,
}

/// Decides one slot's draw and advances the slot Bound -> Drawn.
///
/// A failed geometry lookup skips only this slot's draw call; the slot is
/// still accounted for, and the caller continues with the remaining
/// slots. A drawn slot draws exactly `live_count` instances.
pub fn dispatch_slot(
    pool: &mut BatchPool,
    cmd: &DrawCommand,
    geometry_resolved: bool,
) -> (out: DrawOutcome)
    requires
        old(pool).wf(),
        cmd.slot < old(pool).slots@.len(),
        old(pool).slots@[cmd.slot as int].state == SlotState::Bound,
    ensures
        final(pool).wf(),
        final(pool).capacity == old(pool).capacity,
        final(pool).slots@ == old(pool).slots@.update(
            cmd.slot as int,
            BatchSlot { id: cmd.slot, state: SlotState::Drawn },
        ),
        geometry_resolved ==> out == (DrawOutcome::Drawn { instance_count: cmd.arrays.live_count }),
        !geometry_resolved ==> out == DrawOutcome::SkippedResourceLookup,
{
    pool.mark_drawn(cmd.slot);
    if geometry_resolved {
        DrawOutcome::Drawn { instance_count: cmd.arrays.live_count }
    } else {
        DrawOutcome::SkippedResourceLookup
    }
}

} // verus!
