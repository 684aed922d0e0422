use delta_queue::event::{bucket_key, counter_key, Event, EventQueue};
use delta_queue::object::Modifier;
use delta_queue::state::{State, Transaction};
use delta_queue::store::{Identifier, KvStore};

fn pkey() -> Identifier {
    Identifier { w0: 10, w1: 11, w2: 12, w3: 13 }
}

fn install_player_and_object(state: &mut State, objindex: u64, chain: Vec<u64>) {
    let install = Transaction { command: 1, data: vec![] };
    assert_eq!(install.install_player(&pkey(), &mut state.store), 0);
    let mut data = vec![objindex];
    data.extend_from_slice(&chain);
    let tx = Transaction { command: 3, data };
    assert_eq!(tx.install_object(&pkey(), state), 0);
}

#[test]
fn codec_round_trip() {
    let e = Event { owner: pkey(), object_index: 2, modifier_index: 3, delta: 5 };
    let mut buf: Vec<u64> = Vec::new();
    e.compact(&mut buf);
    assert_eq!(buf, vec![10, 11, 12, 13, (2u64 << 48) | (3u64 << 32) | 5]);
    let back = Event::fetch(&mut buf);
    assert!(buf.is_empty());
    assert_eq!(back, e);
}

#[test]
fn codec_widest_fields() {
    let e = Event {
        owner: Identifier { w0: u64::MAX, w1: 0, w2: 1, w3: u64::MAX },
        object_index: 0xffff,
        modifier_index: 0xffff,
        delta: 0xffff_ffff,
    };
    let mut buf: Vec<u64> = Vec::new();
    e.compact(&mut buf);
    assert_eq!(buf[4], 0xffff_ffff_ffff_ffff);
    let back = Event::fetch(&mut buf);
    assert_eq!(back, e);
}

#[test]
fn insert_keeps_sorted_deltas() {
    // Sorted-delta invariant on a concrete mix of delays: the cumulative
    // sums from the head are the sorted absolute fire times, and equal
    // delays keep first-in-first-out order.
    let mut q = EventQueue::new();
    let owner = pkey();
    q.insert(1, &owner, 5, 0);
    q.insert(2, &owner, 3, 0);
    q.insert(3, &owner, 9, 0);
    q.insert(4, &owner, 3, 0);
    let deltas: Vec<u64> = q.list.iter().map(|e| e.delta).collect();
    assert_eq!(deltas, vec![3, 0, 2, 4]);
    let order: Vec<u64> = q.list.iter().map(|e| e.object_index).collect();
    assert_eq!(order, vec![2, 4, 1, 3]);
    // cumulative sums: 3, 3, 5, 9 — non-decreasing, matching the delays fed in
    let mut acc = 0u64;
    let mut times = Vec::new();
    for e in q.list.iter() {
        acc += e.delta;
        times.push(acc);
    }
    assert_eq!(times, vec![3, 3, 5, 9]);
}

#[test]
fn tick_increments_counter_once() {
    let mut state = State::new();
    let r = state.queue.tick(&mut state.store, &state.modifiers);
    assert!(r.is_ok());
    assert_eq!(state.queue.counter, 1);
    let r = state.queue.tick(&mut state.store, &state.modifiers);
    assert!(r.is_ok());
    assert_eq!(state.queue.counter, 2);
}

#[test]
fn five_events_fire_at_their_tick() {
    // Five events for one object, all due at absolute tick 10.
    let mods = vec![Modifier { delay: 10, attribute_deltas: vec![1] }];
    let mut state = State::with_modifiers(mods);
    install_player_and_object(&mut state, 1, vec![0]);
    for _ in 0..4 {
        state.queue.insert(1, &pkey(), 10, 0);
    }
    assert_eq!(state.queue.list.len(), 5);
    for _ in 0..3 {
        state.queue.tick(&mut state.store, &state.modifiers).unwrap();
    }
    // after 3 ticks nothing fired and the head is 10 - 3 = 7 away
    assert_eq!(state.queue.counter, 3);
    assert_eq!(state.queue.list.len(), 5);
    assert_eq!(state.queue.list[0].delta, 7);
    for _ in 0..10 {
        state.queue.tick(&mut state.store, &state.modifiers).unwrap();
    }
    // the five fires all applied their +1 to the one attribute, and five
    // continuations are pending for tick 20
    assert_eq!(state.queue.counter, 13);
    assert_eq!(state.queue.list.len(), 5);
    assert_eq!(state.queue.list[0].delta, 7);
    let rec = state.store.get(delta_queue::object::object_key(&pkey(), 1));
    let obj = delta_queue::object::Object::from_data(&rec).unwrap();
    assert_eq!(obj.attributes, vec![5]);
}

#[test]
fn store_groups_same_tick_into_one_bucket() {
    // Two objects destined for absolute tick 5 end up serialized in the
    // same bucket, not two buckets.
    let mods = vec![Modifier { delay: 5, attribute_deltas: vec![0] }];
    let mut state = State::with_modifiers(mods);
    install_player_and_object(&mut state, 1, vec![0]);
    let tx = Transaction { command: 3, data: vec![2, 0] };
    assert_eq!(tx.install_object(&pkey(), &mut state), 0);
    assert_eq!(state.queue.list.len(), 2);
    state.finalize().unwrap();
    assert_eq!(state.queue.list.len(), 0);
    let bucket = state.store.get(bucket_key(5));
    assert_eq!(bucket.len(), 10);
    // in queue order: object 1 first, then object 2; deltas relative (5, 0)
    assert_eq!(bucket[4] & 0xffff_ffff, 5);
    assert_eq!(bucket[4] >> 48, 1);
    assert_eq!(bucket[9] & 0xffff_ffff, 0);
    assert_eq!(bucket[9] >> 48, 2);
    assert_eq!(state.store.get(bucket_key(4)).len(), 0);
    assert_eq!(state.store.get(bucket_key(6)).len(), 0);
}

#[test]
fn store_fetch_reproduces_schedule() {
    // Spill, reload, spill again: the bucketed schedule and the counter
    // survive the round trip unchanged.
    let mods = vec![Modifier { delay: 5, attribute_deltas: vec![0] }];
    let mut state = State::with_modifiers(mods);
    install_player_and_object(&mut state, 1, vec![0]);
    state.queue.tick(&mut state.store, &state.modifiers).unwrap();
    state.queue.tick(&mut state.store, &state.modifiers).unwrap();
    state.finalize().unwrap();
    let bucket_before = state.store.get(bucket_key(5));
    let counter_before = state.store.get(counter_key());
    assert_eq!(counter_before, vec![2]);

    state.initialize().unwrap();
    assert_eq!(state.queue.counter, 2);
    assert_eq!(state.queue.list.len(), 0);
    state.finalize().unwrap();
    assert_eq!(state.store.get(bucket_key(5)), bucket_before);
    assert_eq!(state.store.get(counter_key()), vec![2]);
}

#[test]
fn bucketed_events_fire_after_reload() {
    // An event parked in a bucket by one batch fires in a later batch when
    // its tick arrives.
    let mods = vec![Modifier { delay: 3, attribute_deltas: vec![7] }];
    let mut state = State::with_modifiers(mods);
    install_player_and_object(&mut state, 1, vec![0]);
    state.finalize().unwrap();

    state.initialize().unwrap();
    assert_eq!(state.queue.counter, 0);
    for _ in 0..4 {
        state.queue.tick(&mut state.store, &state.modifiers).unwrap();
    }
    let rec = state.store.get(delta_queue::object::object_key(&pkey(), 1));
    let obj = delta_queue::object::Object::from_data(&rec).unwrap();
    assert_eq!(obj.attributes, vec![7]);
    // the continuation went back into the resident list
    assert_eq!(state.queue.list.len(), 1);
}

#[test]
fn malformed_bucket_stops_tick() {
    let mut state = State::new();
    state.store.set(bucket_key(0), vec![1, 2, 3]);
    let r = state.queue.tick(&mut state.store, &state.modifiers);
    assert_eq!(r, Err(delta_queue::err::ERROR_MALFORMED_BUCKET));
    assert_eq!(state.queue.counter, 0);
}

#[test]
fn malformed_counter_slot_stops_initialize() {
    let mut state = State::new();
    state.store.set(counter_key(), vec![1, 2]);
    let r = state.initialize();
    assert_eq!(r, Err(delta_queue::err::ERROR_MALFORMED_COUNTER));
}

#[test]
fn oversized_delta_stops_finalize() {
    let mut state = State::new();
    state.queue.insert(1, &pkey(), 1u64 << 32, 0);
    let r = state.finalize();
    assert_eq!(r, Err(delta_queue::err::ERROR_INVALID_EVENT));
    assert_eq!(state.queue.list.len(), 1);
}

#[test]
fn schedule_overflow_stops_finalize() {
    let mut state = State::new();
    state.store.set(counter_key(), vec![u64::MAX - 1]);
    state.initialize().unwrap();
    assert_eq!(state.queue.counter, u64::MAX - 1);
    state.queue.insert(1, &pkey(), 0xffff_ffff, 0);
    let r = state.finalize();
    assert_eq!(r, Err(delta_queue::err::ERROR_SCHEDULE_OVERFLOW));
}

#[test]
fn store_get_set_semantics() {
    let mut s = KvStore::new();
    let k = Identifier { w0: 1, w1: 2, w2: 3, w3: 4 };
    assert_eq!(s.get(k), Vec::<u64>::new());
    s.set(k, vec![9, 8]);
    assert_eq!(s.get(k), vec![9, 8]);
    s.set(k, vec![7]);
    assert_eq!(s.get(k), vec![7]);
    let k2 = Identifier { w0: 1, w1: 2, w2: 3, w3: 5 };
    assert_eq!(s.get(k2), Vec::<u64>::new());
}

#[test]
fn quiescent_tick_only_decrements_head() {
    let mut state = State::new();
    state.queue.insert(1, &pkey(), 4, 0);
    state.queue.tick(&mut state.store, &state.modifiers).unwrap();
    assert_eq!(state.queue.counter, 1);
    assert_eq!(state.queue.list.len(), 1);
    assert_eq!(state.queue.list[0].delta, 3);
}

#[test]
fn two_objects_advance_independently() {
    // object 1 cycles a two-step chain (delays 2 and 3), object 2 a
    // one-step chain of delay 4; ticks interleave their fires.
    let mods = vec![
        Modifier { delay: 2, attribute_deltas: vec![1] },
        Modifier { delay: 3, attribute_deltas: vec![10] },
        Modifier { delay: 4, attribute_deltas: vec![100] },
    ];
    let mut state = State::with_modifiers(mods);
    install_player_and_object(&mut state, 1, vec![0, 1]);
    let tx = Transaction { command: 3, data: vec![2, 2] };
    assert_eq!(tx.install_object(&pkey(), &mut state), 0);
    for _ in 0..13 {
        state.queue.tick(&mut state.store, &state.modifiers).unwrap();
    }
    // object 1 fired at ticks 2, 5, 7, 10, 12: deltas 1,10,1,10,1
    let rec = state.store.get(delta_queue::object::object_key(&pkey(), 1));
    let obj1 = delta_queue::object::Object::from_data(&rec).unwrap();
    assert_eq!(obj1.attributes, vec![23]);
    assert_eq!(obj1.modifier_index, 1);
    // object 2 fired at ticks 4, 8, 12
    let rec = state.store.get(delta_queue::object::object_key(&pkey(), 2));
    let obj2 = delta_queue::object::Object::from_data(&rec).unwrap();
    assert_eq!(obj2.attributes, vec![300]);
    // one pending entry per object, never more
    assert_eq!(state.queue.list.len(), 2);
    let mut keys: Vec<(u64, u64)> =
        state.queue.list.iter().map(|e| (e.owner.w0, e.object_index)).collect();
    keys.sort();
    assert_eq!(keys, vec![(10, 1), (10, 2)]);
}
