//! The steps of a tick that put the population back in a fixed order after
//! the agents have decided in parallel: the seed of each agent's private
//! random stream, the merge of the spawned children, and the correction of
//! a population that fell below its floor.

use crate::store::{filled, live_count, slot_kept, StableVec};
use vstd::prelude::*;

verus! {

/// The seed of the stream that the agent in slot `index` draws from during
/// the tick that ends at the time whose bit pattern is `time_bits`.
pub open spec fn seed_of(time_bits: u64, index: usize) -> u64 {
    time_bits ^ (index as u64)
}

/// The seed of the stream that the agent in slot `index` draws from.
pub fn agent_seed(time_bits: u64, index: usize) -> (seed: u64)
    ensures
        seed == seed_of(time_bits, index),
{
    time_bits ^ (index as u64)
}

/// Within one tick no two slots share a seed.
pub proof fn lemma_seeds_differ(time_bits: u64, i: usize, j: usize)
    requires
        i != j,
    ensures
        seed_of(time_bits, i) != seed_of(time_bits, j),
{
    let a = i as u64;
    let b = j as u64;
    assert(a != b);
    assert(time_bits ^ a != time_bits ^ b) by (bit_vector)
        requires
            a != b,
    ;
}

/// Whether no event of `events` comes from slot `i`.
pub open spec fn no_event_from<T>(events: Seq<(usize, T)>, i: int) -> bool {
    forall|k: int| 0 <= k < events.len() ==> (#[trigger] events[k]).0 != i
}

/// Whether the origins strictly ascend along `events`.
pub open spec fn origins_strictly_ascend<T>(events: Seq<(usize, T)>) -> bool {
    forall|k: int, l: int| 0 <= k < l < events.len() ==> events[k].0 < events[l].0
}

/// What the decision phase owes slot `i`. An empty slot stays empty and
/// spawns nothing. A live slot holds the state that `decide` gave for this
/// slot's own index, seed and old state, and `events` holds its child where
/// `decide` gave one and nothing from this slot where it gave none. No other
/// slot's state enters.
pub open spec fn slot_decided<T, D: Fn(usize, u64, &T) -> (T, Option<T>)>(
    before: Option<T>,
    after: Option<T>,
    i: int,
    time_bits: u64,
    decide: D,
    events: Seq<(usize, T)>,
) -> bool {
    match before {
        None => after.is_none() && no_event_from(events, i),
        Some(x) => exists|y: T, s: Option<T>| #[trigger]
            decide.ensures((i as usize, seed_of(time_bits, i as usize), &x), (y, s)) && after
                == Some(y) && match s {
                Some(c) => events.contains((i as usize, c)),
                None => no_event_from(events, i),
            },
    }
}

/// An event from another slot does not change what a slot was owed.
pub proof fn lemma_slot_decided_grows<T, D: Fn(usize, u64, &T) -> (T, Option<T>)>(
    before: Option<T>,
    after: Option<T>,
    i: int,
    time_bits: u64,
    decide: D,
    events: Seq<(usize, T)>,
    event: (usize, T),
)
    requires
        slot_decided(before, after, i, time_bits, decide, events),
        event.0 != i,
    ensures
        slot_decided(before, after, i, time_bits, decide, events.push(event)),
{
    let grown = events.push(event);
    assert forall|k: int| 0 <= k < events.len() implies events[k] == grown[k] by {}
    if no_event_from(events, i) {
        assert forall|k: int| 0 <= k < grown.len() implies (#[trigger] grown[k]).0 != i by {
            if k < events.len() {
                assert(events[k].0 != i);
            }
        }
    }
    match before {
        None => {},
        Some(x) => {
            let (y, s) = choose|y: T, s: Option<T>| #[trigger]
                decide.ensures((i as usize, seed_of(time_bits, i as usize), &x), (y, s)) && after
                    == Some(y) && match s {
                    Some(c) => events.contains((i as usize, c)),
                    None => no_event_from(events, i),
                };
            match s {
                Some(c) => {
                    let k = choose|k: int| 0 <= k < events.len() && events[k] == (i as usize, c);
                    assert(grown[k] == (i as usize, c));
                },
                None => {},
            }
            assert(decide.ensures((i as usize, seed_of(time_bits, i as usize), &x), (y, s))
                && after == Some(y) && match s {
                Some(c) => grown.contains((i as usize, c)),
                None => no_event_from(grown, i),
            });
        },
    }
}

/// The decision phase, slot after slot: every live slot gets the state that
/// `decide` gives for its index, its seed and its old state, and the
/// children come back with the index of their parent, ascending. Run on
/// several threads, the phase has to give what this gives.
pub fn decide_all<T, D: Fn(usize, u64, &T) -> (T, Option<T>)>(
    old_store: &StableVec<T>,
    time_bits: u64,
    decide: D,
) -> (r: (StableVec<T>, Vec<(usize, T)>))
    requires
        forall|i: int|
            old_store.is_live(i) ==> decide.requires(
                (i as usize, seed_of(time_bits, i as usize), &old_store@[i].unwrap()),
            ),
    ensures
        r.0@.len() == old_store@.len(),
        forall|i: int|
            0 <= i < old_store@.len() ==> slot_decided(
                old_store@[i],
                #[trigger] r.0@[i],
                i,
                time_bits,
                decide,
                r.1@,
            ),
        origins_strictly_ascend(r.1@),
        forall|k: int| 0 <= k < r.1@.len() ==> old_store.is_live((#[trigger] r.1@[k]).0 as int),
{
    let slots = old_store.inner();
    let mut next: Vec<Option<T>> = Vec::with_capacity(slots.len());
    let mut events: Vec<(usize, T)> = Vec::new();
    let mut i: usize = 0;
    while i < slots.len()
        invariant
            i <= slots@.len(),
            slots@ == old_store@,
            next@.len() == i,
            forall|j: int|
                0 <= j < i ==> slot_decided(
                    old_store@[j],
                    #[trigger] next@[j],
                    j,
                    time_bits,
                    decide,
                    events@,
                ),
            forall|k: int| 0 <= k < events@.len() ==> (#[trigger] events@[k]).0 < i,
            forall|k: int|
                0 <= k < events@.len() ==> old_store.is_live((#[trigger] events@[k]).0 as int),
            origins_strictly_ascend(events@),
            forall|j: int|
                old_store.is_live(j) ==> decide.requires(
                    (j as usize, seed_of(time_bits, j as usize), &old_store@[j].unwrap()),
                ),
        decreases slots@.len() - i,
    {
        let ghost events_before = events@;
        let ghost next_before = next@;
        match &slots[i] {
            None => {
                next.push(None);
            },
            Some(x) => {
                assert(old_store.is_live(i as int));
                let seed = agent_seed(time_bits, i);
                let (state, spawn) = decide(i, seed, x);
                next.push(Some(state));
                if let Some(child) = spawn {
                    events.push((i, child));
                    proof {
                        assert(events@[events_before.len() as int] == (i, child));
                        assert forall|j: int| 0 <= j < i implies slot_decided(
                            old_store@[j],
                            #[trigger] next@[j],
                            j,
                            time_bits,
                            decide,
                            events@,
                        ) by {
                            assert(next@[j] == next_before[j]);
                            lemma_slot_decided_grows(
                                old_store@[j],
                                next_before[j],
                                j,
                                time_bits,
                                decide,
                                events_before,
                                (i, child),
                            );
                        }
                    }
                }
            },
        }
        proof {
            assert forall|j: int| 0 <= j < i implies slot_decided(
                old_store@[j],
                #[trigger] next@[j],
                j,
                time_bits,
                decide,
                events@,
            ) by {
                assert(next@[j] == next_before[j]);
            }
        }
        i += 1;
    }
    (StableVec::from_inner(next), events)
}

/// Whether the origins never descend along `order`.
pub open spec fn origins_ascend<T>(order: Seq<(usize, T)>) -> bool {
    forall|i: int, j: int| 0 <= i < j < order.len() ==> order[i].0 <= order[j].0
}

/// Whether no two events of `spawns` come from the same slot.
pub open spec fn origins_distinct<T>(spawns: Seq<(usize, T)>) -> bool {
    forall|i: int, j: int| 0 <= i < j < spawns.len() ==> spawns[i].0 != spawns[j].0
}

/// The children of the events, in the events' order.
pub open spec fn children<T>(order: Seq<(usize, T)>) -> Seq<T> {
    Seq::new(order.len(), |i: int| order[i].1)
}

/// Whether `order` holds exactly the events of `spawns`, by ascending
/// origin.
pub open spec fn is_spawn_order<T>(order: Seq<(usize, T)>, spawns: Seq<(usize, T)>) -> bool {
    origins_ascend(order) && order.to_multiset() == spawns.to_multiset()
}

/// Events whose origins strictly ascend, as the decision phase returns
/// them, have distinct origins.
pub proof fn lemma_strict_is_distinct<T>(events: Seq<(usize, T)>)
    requires
        origins_strictly_ascend(events),
    ensures
        origins_distinct(events),
        origins_ascend(events),
{
}

/// Events with distinct origins have one spawn order only: two ascending
/// arrangements of the same events are the same sequence, so the order in
/// which the events were collected cannot show in what is merged.
pub proof fn lemma_spawn_order_unique<T>(a: Seq<(usize, T)>, b: Seq<(usize, T)>)
    requires
        origins_ascend(a),
        origins_ascend(b),
        origins_distinct(a),
        a.to_multiset() == b.to_multiset(),
    ensures
        a == b,
    decreases a.len(),
{
    a.to_multiset_ensures();
    b.to_multiset_ensures();
    assert(a.len() == b.len());
    if a.len() == 0 {
        assert(a =~= b);
    } else {
        let n = a.len() - 1;
        let x = a[n];
        let y = b[n];
        assert(a.contains(x));
        assert(b.contains(y));
        assert(b.to_multiset().count(x) > 0);
        assert(a.to_multiset().count(y) > 0);
        let m = choose|m: int| 0 <= m < a.len() && a[m] == y;
        let k = choose|k: int| 0 <= k < b.len() && b[k] == x;
        assert(x.0 <= y.0) by {
            if k < n {
                assert(b[k].0 <= b[n].0);
            }
        }
        assert(y.0 <= x.0) by {
            if m < n {
                assert(a[m].0 <= a[n].0);
            }
        }
        assert(m == n) by {
            if m < n {
                assert(a[m].0 != a[n].0);
            }
        }
        assert(x == y);
        assert(a.remove(n) =~= a.drop_last());
        assert(b.remove(n) =~= b.drop_last());
        assert(a.drop_last().to_multiset() == b.drop_last().to_multiset());
        lemma_spawn_order_unique(a.drop_last(), b.drop_last());
        assert(a =~= a.drop_last().push(x));
        assert(b =~= b.drop_last().push(y));
    }
}

/// However the events of the decision phase were shuffled on their way to
/// the merge, their spawn order is the sequence that the phase gives when
/// it goes slot after slot.
pub proof fn lemma_merge_restores_slot_order<T>(
    events: Seq<(usize, T)>,
    shuffled: Seq<(usize, T)>,
    order: Seq<(usize, T)>,
)
    requires
        origins_strictly_ascend(events),
        shuffled.to_multiset() == events.to_multiset(),
        is_spawn_order(order, shuffled),
    ensures
        order == events,
{
    lemma_strict_is_distinct(events);
    lemma_spawn_order_unique(events, order);
}

/// Whatever order two collections of the same events, with distinct
/// origins, came in: merging either into the same slots gives the same
/// slots.
pub proof fn lemma_merge_order_independent<T>(
    before: Seq<Option<T>>,
    first: Seq<(usize, T)>,
    second: Seq<(usize, T)>,
    order_first: Seq<(usize, T)>,
    order_second: Seq<(usize, T)>,
)
    requires
        first.to_multiset() == second.to_multiset(),
        origins_distinct(first),
        is_spawn_order(order_first, first),
        is_spawn_order(order_second, second),
    ensures
        before + filled(children(order_first)) == before + filled(children(order_second)),
{
    lemma_distinct_survives(first, order_first);
    lemma_spawn_order_unique(order_first, order_second);
}

/// Rearranging events keeps their origins distinct.
pub proof fn lemma_distinct_survives<T>(spawns: Seq<(usize, T)>, order: Seq<(usize, T)>)
    requires
        origins_distinct(spawns),
        order.to_multiset() == spawns.to_multiset(),
    ensures
        origins_distinct(order),
{
    spawns.to_multiset_ensures();
    order.to_multiset_ensures();
    assert forall|i: int, j: int| 0 <= i < j < order.len() implies order[i].0 != order[j].0 by {
        if order[i].0 == order[j].0 {
            let x = order[i];
            let y = order[j];
            assert(order.contains(x));
            assert(order.contains(y));
            assert(spawns.to_multiset().count(x) > 0);
            assert(spawns.to_multiset().count(y) > 0);
            let p = choose|p: int| 0 <= p < spawns.len() && spawns[p] == x;
            let q = choose|q: int| 0 <= q < spawns.len() && spawns[q] == y;
            if p < q {
                assert(spawns[p].0 != spawns[q].0);
            } else if q < p {
                assert(spawns[q].0 != spawns[p].0);
            } else {
                // The same event stands twice in `order` but once in `spawns`.
                lemma_count_at_least_two(order, i, j);
                lemma_count_at_most_one(spawns, x);
            }
        }
    }
}

/// An event that stands at two places of a sequence is counted twice.
proof fn lemma_count_at_least_two<T>(s: Seq<(usize, T)>, i: int, j: int)
    requires
        0 <= i < j < s.len(),
        s[i] == s[j],
    ensures
        s.to_multiset().count(s[i]) >= 2,
{
    s.to_multiset_ensures();
    let x = s[i];
    let rest = s.remove(j);
    rest.to_multiset_ensures();
    assert(rest[i] == x);
    assert(rest.contains(x));
    assert(rest.to_multiset().count(x) > 0);
    assert(rest.to_multiset() =~= s.to_multiset().remove(x));
}

/// With distinct origins no event is counted twice.
proof fn lemma_count_at_most_one<T>(s: Seq<(usize, T)>, x: (usize, T))
    requires
        origins_distinct(s),
    ensures
        s.to_multiset().count(x) <= 1,
{
    s.to_multiset_ensures();
    if s.to_multiset().count(x) >= 2 {
        assert(s.contains(x));
        let p = choose|p: int| 0 <= p < s.len() && s[p] == x;
        let rest = s.remove(p);
        rest.to_multiset_ensures();
        assert(rest.to_multiset() =~= s.to_multiset().remove(x));
        assert(rest.to_multiset().count(x) > 0);
        assert(rest.contains(x));
        let q = choose|q: int| 0 <= q < rest.len() && rest[q] == x;
        if q < p {
            assert(s[q] == x);
            assert(s[q].0 != s[p].0);
        } else {
            assert(s[q + 1] == x);
            assert(s[p].0 != s[q + 1].0);
        }
    }
}

/// Placing an event behind all events of no greater origin keeps an
/// ascending order ascending.
proof fn lemma_insert_keeps_order<T>(order: Seq<(usize, T)>, p: int, event: (usize, T))
    requires
        origins_ascend(order),
        0 <= p <= order.len(),
        forall|q: int| 0 <= q < p ==> (#[trigger] order[q]).0 <= event.0,
        forall|q: int| p <= q < order.len() ==> (#[trigger] order[q]).0 >= event.0,
    ensures
        origins_ascend(order.insert(p, event)),
{
    let grown = order.insert(p, event);
    assert forall|i: int, j: int| 0 <= i < j < grown.len() implies grown[i].0 <= grown[j].0 by {
        let a = if i < p {
            order[i]
        } else if i == p {
            event
        } else {
            order[i - 1]
        };
        let b = if j < p {
            order[j]
        } else if j == p {
            event
        } else {
            order[j - 1]
        };
        assert(grown[i] == a);
        assert(grown[j] == b);
    }
}

/// The events by ascending origin. Each event is placed from the back, so
/// events that were collected nearly in order take one comparison each.
fn sorted_by_origin<T>(spawns: Vec<(usize, T)>) -> (sorted: Vec<(usize, T)>)
    ensures
        is_spawn_order(sorted@, spawns@),
{
    let ghost all = spawns@;
    let mut sorted: Vec<(usize, T)> = Vec::with_capacity(spawns.len());
    proof {
        assert(all.take(0) =~= sorted@);
    }
    for event in it: spawns.into_iter()
        invariant
            it.seq() == all,
            origins_ascend(sorted@),
            sorted@.to_multiset() == all.take(it.index() as int).to_multiset(),
    {
        let ghost placed = sorted@;
        let mut p: usize = sorted.len();
        while p > 0 && sorted[p - 1].0 > event.0
            invariant
                sorted@ == placed,
                p <= placed.len(),
                forall|q: int| p <= q < placed.len() ==> (#[trigger] placed[q]).0 >= event.0,
            decreases p,
        {
            p -= 1;
        }
        proof {
            let k = it.index() as int;
            assert forall|q: int| 0 <= q < p implies (#[trigger] placed[q]).0 <= event.0 by {
                assert(placed[q].0 <= placed[p - 1].0);
            }
            lemma_insert_keeps_order(placed, p as int, event);
            vstd::seq_lib::to_multiset_insert(placed, p as int, event);
            all.take(k).to_multiset_ensures();
            assert(all.take(k + 1) =~= all.take(k).push(event));
        }
        sorted.insert(p, event);
    }
    proof {
        assert(all.take(all.len() as int) =~= all);
    }
    sorted
}

/// Appends the children of `spawns` to `store` by ascending origin, in
/// whatever order the events were collected.
pub fn merge_spawns<T>(store: &mut StableVec<T>, spawns: Vec<(usize, T)>)
    ensures
        exists|order: Seq<(usize, T)>| #[trigger]
            is_spawn_order(order, spawns@) && final(store)@ == old(store)@ + filled(
                children(order),
            ),
        final(store)@.len() == old(store)@.len() + spawns@.len(),
        live_count(final(store)@) == live_count(old(store)@) + spawns@.len(),
{
    let ghost before = store@;
    let sorted = sorted_by_origin(spawns);
    let ghost order = sorted@;
    proof {
        order.to_multiset_ensures();
        spawns@.to_multiset_ensures();
        assert(before + filled(children(order.take(0))) =~= before);
    }
    for event in it: sorted.into_iter()
        invariant
            it.seq() == order,
            store@ == before + filled(children(order.take(it.index() as int))),
            live_count(store@) == live_count(before) + it.index(),
    {
        proof {
            let k = it.index() as int;
            assert(before + filled(children(order.take(k + 1))) =~= (before + filled(
                children(order.take(k)),
            )).push(Some(order[k].1)));
        }
        store.push(event.1);
    }
    proof {
        assert(order.take(order.len() as int) =~= order);
        assert(is_spawn_order(order, spawns@));
    }
}

/// Whether the population is below `floor`.
pub fn below_floor<T>(store: &StableVec<T>, floor: usize) -> (r: bool)
    ensures
        r == (live_count(store@) < floor),
{
    store.len() < floor
}

/// Appends one element, made by `fresh`, where the population is below
/// `floor`, and says whether it did. `fresh` is only called in that case.
/// A population that was at most one short of the floor reaches it.
pub fn correct_floor<T, G: FnOnce() -> T>(
    store: &mut StableVec<T>,
    floor: usize,
    fresh: G,
) -> (added: bool)
    requires
        fresh.requires(()),
    ensures
        added == (live_count(old(store)@) < floor),
        added ==> exists|x: T| #[trigger]
            fresh.ensures((), x) && final(store)@ == old(store)@.push(Some(x)),
        !added ==> final(store)@ == old(store)@,
        added ==> live_count(final(store)@) == live_count(old(store)@) + 1,
        live_count(old(store)@) + 1 >= floor ==> live_count(final(store)@) >= floor,
{
    if store.len() < floor {
        let agent = fresh();
        store.push(agent);
        true
    } else {
        false
    }
}

/// Whether `after` is `merged` with exactly the elements gone that `alive`
/// refused, every slot in its place.
pub open spec fn culled_from<T, F: Fn(&T) -> bool>(
    merged: Seq<Option<T>>,
    after: Seq<Option<T>>,
    alive: F,
) -> bool {
    after.len() == merged.len() && forall|i: int|
        0 <= i < merged.len() ==> slot_kept(merged[i], #[trigger] after[i], alive)
}

/// What is left of `before` once the children of `spawns` were merged in
/// `order`, the dead were culled to `culled` and, where `added` says so, one
/// fresh element was appended.
pub open spec fn settled<T, F: Fn(&T) -> bool, G: FnOnce() -> T>(
    before: Seq<Option<T>>,
    spawns: Seq<(usize, T)>,
    alive: F,
    floor: usize,
    fresh: G,
    order: Seq<(usize, T)>,
    culled: Seq<Option<T>>,
    added: bool,
    after: Seq<Option<T>>,
) -> bool {
    &&& is_spawn_order(order, spawns)
    &&& culled_from(before + filled(children(order)), culled, alive)
    &&& added == (live_count(culled) < floor)
    &&& if added {
        exists|x: T| #[trigger] fresh.ensures((), x) && after == culled.push(Some(x))
    } else {
        after == culled
    }
}

/// The population steps of a tick in their fixed order: merge the children
/// by ascending origin, cull what `alive` refuses, then append one fresh
/// element where fewer than `floor` are left. Says whether it appended.
pub fn settle_population<T, F: Fn(&T) -> bool, G: FnOnce() -> T>(
    store: &mut StableVec<T>,
    spawns: Vec<(usize, T)>,
    alive: F,
    floor: usize,
    fresh: G,
) -> (added: bool)
    requires
        forall|i: int|
            old(store).is_live(i) ==> alive.requires((&(#[trigger] old(store)@[i]).unwrap(),)),
        forall|k: int| 0 <= k < spawns@.len() ==> alive.requires((&(#[trigger] spawns@[k]).1,)),
        fresh.requires(()),
    ensures
        exists|order: Seq<(usize, T)>, culled: Seq<Option<T>>| #[trigger]
            settled(
                old(store)@,
                spawns@,
                alive,
                floor,
                fresh,
                order,
                culled,
                added,
                final(store)@,
            ),
        !added ==> live_count(final(store)@) >= floor,
        added ==> 1 <= live_count(final(store)@) <= floor,
{
    let ghost before = store@;
    merge_spawns(store, spawns);
    let ghost merged = store@;
    let ghost order = choose|order: Seq<(usize, T)>| #[trigger]
        is_spawn_order(order, spawns@) && merged == before + filled(children(order));
    proof {
        order.to_multiset_ensures();
        spawns@.to_multiset_ensures();
        assert forall|i: int| 0 <= i < merged.len() && merged[i].is_some() implies alive.requires(
            (&merged[i].unwrap(),),
        ) by {
            if i < before.len() {
                assert(merged[i] == before[i]);
            } else {
                let k = i - before.len();
                assert(merged[i] == Some(order[k].1));
                assert(order.contains(order[k]));
                assert(spawns@.to_multiset().count(order[k]) > 0);
                let j = choose|j: int| 0 <= j < spawns@.len() && spawns@[j] == order[k];
                assert(alive.requires((&spawns@[j].1,)));
            }
        }
    }
    store.retain(alive);
    let ghost culled = store@;
    let added = correct_floor(store, floor, fresh);
    proof {
        assert(culled_from(merged, culled, alive));
        assert(settled(before, spawns@, alive, floor, fresh, order, culled, added, store@));
    }
    added
}

} // verus!
