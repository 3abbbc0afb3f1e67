use blips::store::StableVec;
use blips::tick::{
    agent_seed, below_floor, correct_floor, decide_all, merge_spawns, settle_population,
};

#[test]
fn agent_seed_mixes_time_bits_and_index() {
    let bits = 0.02f64.to_bits();
    assert_eq!(bits, 0x3f94_7ae1_47ae_147b);
    assert_eq!(agent_seed(bits, 0), bits);
    assert_eq!(agent_seed(bits, 5), 4581421828931458174);
    assert_eq!(agent_seed(0, 17), 17);
    assert_eq!(agent_seed(u64::MAX, 1), u64::MAX - 1);
}

#[test]
fn agent_seeds_differ_between_slots() {
    let bits = 1.5f64.to_bits();
    for i in 0usize..64 {
        for j in 0usize..64 {
            if i != j {
                assert_ne!(agent_seed(bits, i), agent_seed(bits, j));
            }
        }
    }
}

#[test]
fn children_of_slots_five_and_two_arrive_in_slot_order() {
    let mut first = StableVec::from_inner(vec![Some("a"), Some("b")]);
    merge_spawns(&mut first, vec![(5, "child of 5"), (2, "child of 2")]);
    assert_eq!(
        first.inner(),
        &vec![Some("a"), Some("b"), Some("child of 2"), Some("child of 5")]
    );

    let mut second = StableVec::from_inner(vec![Some("a"), Some("b")]);
    merge_spawns(&mut second, vec![(2, "child of 2"), (5, "child of 5")]);
    assert_eq!(first, second);
}

#[test]
fn merge_ignores_the_order_of_collection() {
    let events = [(9usize, 90u32), (1, 10), (4, 40), (0, 5), (7, 70)];
    let orders = [[0usize, 1, 2, 3, 4], [4, 3, 2, 1, 0], [2, 0, 4, 1, 3], [3, 1, 2, 4, 0]];
    for order in orders.iter() {
        let mut store = StableVec::from_inner(vec![None, Some(1u32)]);
        let spawns: Vec<(usize, u32)> = order.iter().map(|&k| events[k]).collect();
        merge_spawns(&mut store, spawns);
        assert_eq!(
            store.into_inner(),
            vec![None, Some(1), Some(5), Some(10), Some(40), Some(70), Some(90)]
        );
    }
}

#[test]
fn merge_of_nothing_changes_nothing() {
    let mut store = StableVec::from_inner(vec![Some(1u8), None]);
    merge_spawns(&mut store, Vec::new());
    assert_eq!(store.into_inner(), vec![Some(1), None]);
}

#[test]
fn below_floor_compares_the_live_count() {
    let store = StableVec::from_inner(vec![Some(1u8), None, Some(2)]);
    assert!(below_floor(&store, 3));
    assert!(!below_floor(&store, 2));
    assert!(!below_floor(&store, 0));
}

#[test]
fn correct_floor_adds_one_when_short() {
    let mut store = StableVec::from_inner(vec![Some(1u8), None, Some(2)]);
    let mut made = 0;
    assert!(correct_floor(&mut store, 3, || {
        made += 1;
        99
    }));
    assert_eq!(made, 1);
    assert_eq!(store.inner(), &vec![Some(1), None, Some(2), Some(99)]);
    assert!(store.len() >= 3);
}

#[test]
fn correct_floor_leaves_a_full_population() {
    let mut store = StableVec::from_inner(vec![Some(1u8), Some(2)]);
    let mut made = 0;
    assert!(!correct_floor(&mut store, 2, || {
        made += 1;
        99
    }));
    assert_eq!(made, 0);
    assert_eq!(store.inner(), &vec![Some(1), Some(2)]);
}

#[test]
fn correct_floor_adds_a_single_agent_however_short() {
    let mut store: StableVec<u8> = StableVec::new();
    assert!(correct_floor(&mut store, 3, || 1));
    assert_eq!(store.len(), 1);
    assert!(below_floor(&store, 3));
}

#[test]
fn tick_steps_repeat_exactly() {
    let run = |order: [usize; 3]| {
        let mut store: StableVec<(u64, i32)> = StableVec::new();
        for i in 0..6usize {
            store.push((agent_seed(7, i), 3));
        }
        for tick in 0..50u64 {
            let bits = (0.02f64 * tick as f64).to_bits();
            let mut slots = store.into_inner();
            let mut spawns = Vec::new();
            for (index, slot) in slots.iter_mut().enumerate() {
                if let Some(agent) = slot {
                    let seed = agent_seed(bits, index);
                    agent.0 = agent.0.rotate_left(7) ^ seed;
                    agent.1 -= (agent.0 % 3) as i32;
                    if agent.0 % 5 == 0 {
                        spawns.push((index, (seed, 4)));
                    }
                }
            }
            if spawns.len() >= 3 {
                let picked: Vec<_> = order.iter().map(|&k| spawns[k]).collect();
                spawns.splice(0..3, picked);
            } else {
                spawns.reverse();
            }
            store = StableVec::from_inner(slots);
            merge_spawns(&mut store, spawns);
            store.retain(|agent| agent.1 > 0);
            correct_floor(&mut store, 4, || (bits, 5));
        }
        store
    };
    let a = run([0, 1, 2]);
    let b = run([2, 0, 1]);
    assert_eq!(a, b);
}

#[test]
fn decide_all_maps_each_live_slot_by_itself() {
    let old = StableVec::from_inner(vec![Some(10u64), None, Some(30), Some(40)]);
    let (new, spawns) = decide_all(&old, 8, |index, seed, value| {
        let child = if *value >= 30 { Some(*value + 1) } else { None };
        (*value + seed + index as u64, child)
    });
    assert_eq!(
        new.into_inner(),
        vec![Some(10 + 8), None, Some(30 + (8 ^ 2) + 2), Some(40 + (8 ^ 3) + 3)]
    );
    assert_eq!(spawns, vec![(2, 31), (3, 41)]);
    assert_eq!(old.inner(), &vec![Some(10), None, Some(30), Some(40)]);
}

#[test]
fn decide_all_on_one_slot_does_not_depend_on_the_others() {
    let step = |index: usize, seed: u64, value: &u64| (value.wrapping_mul(31) ^ seed ^ index as u64, None);
    let full = StableVec::from_inner(vec![Some(1u64), Some(2), Some(3)]);
    let other = StableVec::from_inner(vec![Some(100u64), Some(2), None]);
    let (a, _) = decide_all(&full, 77, step);
    let (b, _) = decide_all(&other, 77, step);
    assert_eq!(a.get(1), b.get(1));
    assert_eq!(a.get(1), Some(&((2 * 31) ^ (77 ^ 1) ^ 1)));
}

#[test]
fn decide_all_on_an_empty_store() {
    let old: StableVec<u8> = StableVec::new();
    let (new, spawns) = decide_all(&old, 0, |_, _, v| (*v, None));
    assert_eq!(new.slot_count(), 0);
    assert!(spawns.is_empty());
}

#[test]
fn settle_merges_then_culls_then_corrects() {
    let mut store = StableVec::from_inner(vec![Some(3i32), Some(-1), None, Some(0), Some(8)]);
    let added = settle_population(
        &mut store,
        vec![(4, 7), (0, -5), (3, 2)],
        |v| *v > 0,
        5,
        || 100,
    );
    assert!(added);
    assert_eq!(
        store.into_inner(),
        vec![Some(3), None, None, None, Some(8), None, Some(2), Some(7), Some(100)]
    );
}

#[test]
fn settle_leaves_a_population_at_the_floor() {
    let mut store = StableVec::from_inner(vec![Some(3i32), Some(4)]);
    let mut made = 0;
    let added = settle_population(&mut store, vec![(1, 6), (0, 5)], |v| *v > 0, 4, || {
        made += 1;
        100
    });
    assert!(!added);
    assert_eq!(made, 0);
    assert_eq!(store.len(), 4);
    assert_eq!(store.into_inner(), vec![Some(3), Some(4), Some(5), Some(6)]);
}

#[test]
fn settle_counts_the_children_before_it_corrects() {
    let mut store = StableVec::from_inner(vec![Some(1i32)]);
    let added = settle_population(&mut store, vec![(0, 2)], |v| *v > 0, 2, || 100);
    assert!(!added);
    assert_eq!(store.into_inner(), vec![Some(1), Some(2)]);
}

#[test]
fn settle_after_everything_died_adds_one() {
    let mut store = StableVec::from_inner(vec![Some(0i32), Some(-2)]);
    let added = settle_population(&mut store, Vec::new(), |v| *v > 0, 3, || 9);
    assert!(added);
    assert_eq!(store.len(), 1);
    assert_eq!(store.into_inner(), vec![None, None, Some(9)]);
}

#[test]
fn settle_does_not_depend_on_the_order_of_the_events() {
    let events = [(6usize, 60i32), (2, -20), (5, 50), (0, 1)];
    let mut results = Vec::new();
    for order in [[0usize, 1, 2, 3], [3, 2, 1, 0], [1, 3, 0, 2]] {
        let mut store = StableVec::from_inner(vec![Some(1i32), Some(-1), Some(2)]);
        let spawns: Vec<(usize, i32)> = order.iter().map(|&k| events[k]).collect();
        settle_population(&mut store, spawns, |v| *v > 0, 0, || 0);
        results.push(store.into_inner());
    }
    assert_eq!(results[0], results[1]);
    assert_eq!(results[0], results[2]);
    assert_eq!(
        results[0],
        vec![Some(1), None, Some(2), Some(1), None, Some(50), Some(60)]
    );
}
