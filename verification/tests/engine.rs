use sprite_batch::encode::EncodedArrays;
use sprite_batch::frame::{dispatch_slot, run_frame, DrawOutcome, FramePlan};
use sprite_batch::group::{group_visible, required_slots};
use sprite_batch::pool::{BatchPool, SlotState};
use sprite_batch::publish::{publish_visible, SortPolicy, VisibleEntry};
use sprite_batch::record::SpriteRecord;
use sprite_batch::sizing::slots_for_count;

fn record(resource_id: u64, depth_bucket: i32, seed: u32) -> SpriteRecord {
    let transform: Vec<u32> = (0..16).map(|w| seed.wrapping_mul(31).wrapping_add(w)).collect();
    let color: Vec<u32> = vec![seed, seed + 1, seed + 2, seed + 3];
    SpriteRecord::new(resource_id, depth_bucket, transform, color, seed)
}

fn hidden(resource_id: u64, depth_bucket: i32, seed: u32) -> SpriteRecord {
    let mut r = record(resource_id, depth_bucket, seed);
    r.visible = false;
    r
}

fn many(resource_id: u64, depth_bucket: i32, n: usize) -> Vec<SpriteRecord> {
    (0..n).map(|i| record(resource_id, depth_bucket, i as u32)).collect()
}

#[test]
fn ceil_slots_for_count() {
    assert_eq!(slots_for_count(0, 200), 0);
    assert_eq!(slots_for_count(1, 200), 1);
    assert_eq!(slots_for_count(199, 200), 1);
    assert_eq!(slots_for_count(200, 200), 1);
    assert_eq!(slots_for_count(201, 200), 2);
    assert_eq!(slots_for_count(400, 200), 2);
    assert_eq!(slots_for_count(401, 200), 3);
    assert_eq!(slots_for_count(7, 1), 7);
}

#[test]
fn slot_count_is_sum_of_ceilings() {
    // keys with counts 250 and 50 at capacity 200: 2 + 1 = 3 slots
    let mut records = many(1, 0, 250);
    records.extend(many(2, 0, 50));
    let groups = group_visible(&records);
    assert_eq!(groups.len(), 2);
    assert_eq!(required_slots(&groups, 200), 3);

    let mut pool = BatchPool::new(200);
    let plan = run_frame(&mut pool, &records, 0);
    assert_eq!(pool.len(), 3);
    assert_eq!(plan.commands.len(), 3);
}

#[test]
fn zero_visible_shrinks_pool_to_zero() {
    let mut pool = BatchPool::new(200);
    let records = many(1, 0, 450);
    run_frame(&mut pool, &records, 0);
    assert_eq!(pool.len(), 3);

    // next tick: nothing visible; the pool shrinks to zero slots and
    // every handle is released for the host to free
    let empty: Vec<SpriteRecord> = Vec::new();
    let plan = run_frame(&mut pool, &empty, 0);
    assert_eq!(pool.len(), 0);
    assert_eq!(plan.commands.len(), 0);
    assert_eq!(plan.released, vec![0, 1, 2]);
}

#[test]
fn invisible_records_do_not_group() {
    let records = vec![hidden(1, 0, 0), hidden(2, 3, 1)];
    let groups = group_visible(&records);
    assert_eq!(groups.len(), 0);
    assert_eq!(required_slots(&groups, 200), 0);
}

#[test]
fn rising_count_grows_pool_without_dropping_instances() {
    // single key, count rising 10 -> 210 across consecutive frames:
    // slot count goes 1 -> 2 and every instance stays represented
    let mut pool = BatchPool::new(200);
    let plan10 = run_frame(&mut pool, &many(7, 0, 10), 0);
    assert_eq!(pool.len(), 1);
    let lives10: Vec<usize> = plan10.commands.iter().map(|c| c.arrays.live_count).collect();
    assert_eq!(lives10, vec![10]);

    let plan210 = run_frame(&mut pool, &many(7, 0, 210), 0);
    assert_eq!(pool.len(), 2);
    let lives210: Vec<usize> = plan210.commands.iter().map(|c| c.arrays.live_count).collect();
    assert_eq!(lives210, vec![200, 10]);
    let total: usize = lives210.iter().sum();
    assert_eq!(total, 210);
}

#[test]
fn grouping_sorts_keys_and_keeps_record_order() {
    let records = vec![
        record(9, 0, 0),
        record(2, 5, 1),
        hidden(2, 5, 2),
        record(2, -1, 3),
        record(9, 0, 4),
        record(2, 5, 5),
    ];
    let groups = group_visible(&records);
    assert_eq!(groups.len(), 3);
    assert_eq!(groups[0].key.resource_id, 2);
    assert_eq!(groups[0].key.depth_bucket, -1);
    assert_eq!(groups[0].members, vec![3]);
    assert_eq!(groups[1].key.resource_id, 2);
    assert_eq!(groups[1].key.depth_bucket, 5);
    assert_eq!(groups[1].members, vec![1, 5]);
    assert_eq!(groups[2].key.resource_id, 9);
    assert_eq!(groups[2].key.depth_bucket, 0);
    assert_eq!(groups[2].members, vec![0, 4]);
}

fn assert_arrays_padded(arrays: &EncodedArrays, cap: usize) {
    assert_eq!(arrays.transforms.len(), cap);
    assert_eq!(arrays.colors.len(), cap);
    assert_eq!(arrays.atlas_indices.len(), cap);
    for i in arrays.live_count..cap {
        assert_eq!(arrays.transforms[i], vec![0u32; 16]);
        assert_eq!(arrays.colors[i], vec![0u32; 4]);
        assert_eq!(arrays.atlas_indices[i], vec![0u32; 4]);
    }
}

#[test]
fn encoded_arrays_are_full_capacity_and_zero_padded() {
    let mut pool = BatchPool::new(4);
    let records = vec![record(1, 0, 10), record(1, 0, 11), record(1, 0, 12)];
    let plan = run_frame(&mut pool, &records, 0);
    assert_eq!(plan.commands.len(), 1);
    let arrays = &plan.commands[0].arrays;
    assert_eq!(arrays.live_count, 3);
    assert_arrays_padded(arrays, 4);
    for (i, r) in records.iter().enumerate() {
        assert_eq!(arrays.transforms[i], r.transform);
        assert_eq!(arrays.colors[i], r.color);
        assert_eq!(arrays.atlas_indices[i], vec![r.atlas_index, 0, 0, 0]);
    }
}

#[test]
fn every_chunk_is_padded_every_frame() {
    let mut pool = BatchPool::new(4);
    let mut records = many(1, 0, 6);
    records.extend(many(3, 2, 5));
    let plan = run_frame(&mut pool, &records, 0);
    assert_eq!(plan.commands.len(), 4);
    for c in plan.commands.iter() {
        assert_arrays_padded(&c.arrays, 4);
    }
    let lives: Vec<usize> = plan.commands.iter().map(|c| c.arrays.live_count).collect();
    assert_eq!(lives, vec![4, 2, 4, 1]);
}

#[test]
fn upload_layout_is_contiguous_in_fixed_order() {
    let mut pool = BatchPool::new(2);
    let records = vec![record(1, 0, 10)];
    let plan = run_frame(&mut pool, &records, 0);
    let arrays = &plan.commands[0].arrays;
    let words = arrays.upload_words();
    // transforms, then colors, then atlas indices, each capacity entries
    let mut expected: Vec<u32> = Vec::new();
    expected.extend_from_slice(&records[0].transform);
    expected.extend_from_slice(&[0u32; 16]);
    expected.extend_from_slice(&records[0].color);
    expected.extend_from_slice(&[0u32; 4]);
    expected.extend_from_slice(&[10, 0, 0, 0]);
    expected.extend_from_slice(&[0u32; 4]);
    assert_eq!(words.len(), 2 * (16 + 4 + 4));
    assert_eq!(words, expected);
}

#[test]
fn no_slot_mixes_keys() {
    let mut pool = BatchPool::new(4);
    let mut records = many(1, 0, 6);
    records.extend(many(3, 2, 5));
    let plan = run_frame(&mut pool, &records, 0);
    // chunks of key (1,0) fill slots 0..2, chunks of key (3,2) slots 2..4
    assert_eq!(plan.commands[0].key.resource_id, 1);
    assert_eq!(plan.commands[1].key.resource_id, 1);
    assert_eq!(plan.commands[2].key.resource_id, 3);
    assert_eq!(plan.commands[3].key.resource_id, 3);
    for (j, c) in plan.commands.iter().enumerate() {
        assert_eq!(c.slot, j);
        // all atlas words of live entries come from records of this key:
        // the two keys used distinct seed ranges, none shared
        for i in 0..c.arrays.live_count {
            let encoded = &c.arrays.atlas_indices[i];
            let src = &records[if c.key.resource_id == 1 {
                encoded[0] as usize
            } else {
                6 + encoded[0] as usize
            }];
            assert_eq!(src.resource_id, c.key.resource_id);
            assert_eq!(src.depth_bucket, c.key.depth_bucket);
        }
    }
}

#[test]
fn sort_keys_derive_from_camera_and_depth() {
    let mut pool = BatchPool::new(8);
    let records = vec![record(1, 3, 0), record(2, -4, 1)];
    let plan = run_frame(&mut pool, &records, 10);
    assert_eq!(plan.commands.len(), 2);
    assert_eq!(plan.commands[0].sort_key, 10 - 3);
    assert_eq!(plan.commands[1].sort_key, 10 - (-4));
}

#[test]
fn publish_sorts_by_policy() {
    let mut pool = BatchPool::new(8);
    let records = vec![record(1, 9, 0), record(2, 1, 1), record(3, 5, 2)];
    let plan = run_frame(&mut pool, &records, 10);
    let keys = |es: &Vec<VisibleEntry>| es.iter().map(|e| e.sort_key).collect::<Vec<i64>>();
    let asc = publish_visible(&plan.commands, SortPolicy::Ascending);
    assert_eq!(keys(&asc), vec![1, 5, 9]);
    let desc = publish_visible(&plan.commands, SortPolicy::Descending);
    assert_eq!(keys(&desc), vec![9, 5, 1]);
}

#[test]
fn publish_is_stable_for_equal_depths() {
    let mut pool = BatchPool::new(8);
    // three keys at the same depth, one deeper: equal sort keys keep
    // ascending slot order under either policy
    let records = vec![record(5, 2, 0), record(1, 2, 1), record(3, 2, 2), record(4, 7, 3)];
    // groups sort by key: slots 0 (1,2), 1 (3,2), 2 (4,7), 3 (5,2);
    // sort keys are 8, 8, 3, 8
    let plan = run_frame(&mut pool, &records, 10);
    let asc = publish_visible(&plan.commands, SortPolicy::Ascending);
    let slots: Vec<usize> = asc.iter().map(|e| e.slot).collect();
    // sort key 3 first, then the three entries with sort key 8 keep
    // ascending slot order
    assert_eq!(asc[0].sort_key, 3);
    assert_eq!(slots, vec![2, 0, 1, 3]);
    let desc = publish_visible(&plan.commands, SortPolicy::Descending);
    let desc_slots: Vec<usize> = desc.iter().map(|e| e.slot).collect();
    assert_eq!(desc_slots, vec![0, 1, 3, 2]);
}

#[test]
fn dispatch_draws_live_count_not_capacity() {
    let mut pool = BatchPool::new(200);
    let records = many(1, 0, 17);
    let plan = run_frame(&mut pool, &records, 0);
    let out = dispatch_slot(&mut pool, &plan.commands[0], true);
    assert_eq!(out, DrawOutcome::Drawn { instance_count: 17 });
    assert_eq!(pool.slots[0].state, SlotState::Drawn);
}

#[test]
fn dispatch_skips_slot_on_unresolved_geometry() {
    let mut pool = BatchPool::new(4);
    let records = many(1, 0, 6);
    let plan = run_frame(&mut pool, &records, 0);
    // the first slot's geometry lookup fails: only that draw is skipped,
    // the remaining slot still draws
    let out0 = dispatch_slot(&mut pool, &plan.commands[0], false);
    assert_eq!(out0, DrawOutcome::SkippedResourceLookup);
    assert_eq!(pool.slots[0].state, SlotState::Drawn);
    let out1 = dispatch_slot(&mut pool, &plan.commands[1], true);
    assert_eq!(out1, DrawOutcome::Drawn { instance_count: 2 });
}

#[test]
fn resize_releases_exactly_the_truncated_handles() {
    let mut pool = BatchPool::new(200);
    let released = pool.resize(5);
    assert_eq!(released.len(), 0);
    assert_eq!(pool.len(), 5);
    let ids: Vec<usize> = pool.slots.iter().map(|s| s.id).collect();
    assert_eq!(ids, vec![0, 1, 2, 3, 4]);
    let released = pool.resize(2);
    assert_eq!(released, vec![2, 3, 4]);
    assert_eq!(pool.len(), 2);
}

#[test]
fn slot_states_walk_the_lifecycle() {
    let mut pool = BatchPool::new(200);
    let records = many(1, 0, 3);
    let plan = run_frame(&mut pool, &records, 0);
    assert_eq!(pool.slots[0].state, SlotState::Bound);
    dispatch_slot(&mut pool, &plan.commands[0], true);
    assert_eq!(pool.slots[0].state, SlotState::Drawn);
    // the next tick resets the slot before it is reused
    let plan2: FramePlan = run_frame(&mut pool, &records, 0);
    assert_eq!(pool.slots[0].state, SlotState::Bound);
    assert_eq!(plan2.commands.len(), 1);
}

#[test]
fn record_new_is_visible_with_given_attributes() {
    let r = record(8, -3, 42);
    assert!(r.visible);
    assert_eq!(r.resource_id, 8);
    assert_eq!(r.depth_bucket, -3);
    assert_eq!(r.atlas_index, 42);
    assert_eq!(r.transform.len(), 16);
    assert_eq!(r.color.len(), 4);
}

#[test]
fn restoring_composition_restores_slot_count() {
    // shrink the visible set, then restore the identical composition:
    // the slot count returns to its old value
    let mut pool = BatchPool::new(200);
    let mut records = many(1, 0, 250);
    records.extend(many(2, 0, 50));
    run_frame(&mut pool, &records, 0);
    assert_eq!(pool.len(), 3);
    run_frame(&mut pool, &many(1, 0, 10), 0);
    assert_eq!(pool.len(), 1);
    // same composition, different record order and identities
    let mut restored = many(2, 0, 50);
    restored.extend(many(1, 0, 250));
    run_frame(&mut pool, &restored, 0);
    assert_eq!(pool.len(), 3);
}
