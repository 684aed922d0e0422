use delta_queue::err::{
    ERROR_ATTRIBUTE_MISMATCH, ERROR_BAD_COMMAND, ERROR_BAD_MODIFIER, ERROR_INDEX_OUT_OF_BOUND,
    ERROR_MALFORMED_OBJECT, ERROR_OBJECT_ALREADY_EXIST, ERROR_OBJECT_NOT_EXIST,
};
use delta_queue::object::{
    apply_modifier, apply_object_modifier, object_key, restart_object_modifier, Modifier, Object,
    ObjectStatus,
};
use delta_queue::state::{State, Transaction};
use delta_queue::store::Identifier;

fn pkey() -> Identifier {
    Identifier { w0: 20, w1: 21, w2: 22, w3: 23 }
}

fn setup(modifiers: Vec<Modifier>, chain: Vec<u64>) -> State {
    let mut state = State::with_modifiers(modifiers);
    let install = Transaction { command: 1, data: vec![] };
    assert_eq!(install.install_player(&pkey(), &mut state.store), 0);
    let mut data = vec![1u64];
    data.extend_from_slice(&chain);
    let tx = Transaction { command: 3, data };
    assert_eq!(tx.install_object(&pkey(), &mut state), 0);
    state
}

fn load_object(state: &State, objindex: u64) -> Object {
    Object::from_data(&state.store.get(object_key(&pkey(), objindex))).unwrap()
}

#[test]
fn apply_modifier_success_advances_chain() {
    let mut o = Object {
        status: ObjectStatus::Running,
        modifier_index: 1,
        modifiers: vec![4, 9, 2],
        attributes: vec![10, 0],
    };
    let m = Modifier { delay: 1, attribute_deltas: vec![-10, 5] };
    assert!(apply_modifier(&mut o, &m));
    assert_eq!(o.attributes, vec![0, 5]);
    assert_eq!(o.modifier_index, 2);
    assert_eq!(o.status, ObjectStatus::Running);
    // the chain is circular: one more success wraps to position 0
    let m2 = Modifier { delay: 1, attribute_deltas: vec![0, 0] };
    assert!(apply_modifier(&mut o, &m2));
    assert_eq!(o.modifier_index, 0);
}

#[test]
fn apply_modifier_failure_halts_without_mutation() {
    // Driving an attribute negative fails the whole application: no
    // attribute moves, the object halts at its current position.
    let mut o = Object {
        status: ObjectStatus::Running,
        modifier_index: 0,
        modifiers: vec![0],
        attributes: vec![3, 100],
    };
    let m = Modifier { delay: 1, attribute_deltas: vec![-4, 50] };
    assert!(!apply_modifier(&mut o, &m));
    assert_eq!(o.attributes, vec![3, 100]);
    assert_eq!(o.modifier_index, 0);
    assert_eq!(o.status, ObjectStatus::Halted);
}

#[test]
fn halted_object_restarts_where_it_failed() {
    // A modifier that would go negative halts the object; restart reports
    // the same (delay, position) the object halted at.
    let mods = vec![Modifier { delay: 2, attribute_deltas: vec![-1] }];
    let mut state = setup(mods, vec![0]);
    for _ in 0..3 {
        state.queue.tick(&mut state.store, &state.modifiers).unwrap();
    }
    assert_eq!(state.queue.list.len(), 0);
    let obj = load_object(&state, 1);
    assert_eq!(obj.status, ObjectStatus::Halted);
    assert_eq!(obj.modifier_index, 0);
    assert_eq!(obj.attributes, vec![0]);

    let r = restart_object_modifier(&mut state.store, &state.modifiers, &pkey(), 1, &vec![]);
    assert_eq!(r, Ok(Some((2, 0))));
    assert_eq!(load_object(&state, 1).status, ObjectStatus::Running);
}

#[test]
fn restart_replaces_chain_when_given_one() {
    let mods = vec![
        Modifier { delay: 2, attribute_deltas: vec![-1] },
        Modifier { delay: 9, attribute_deltas: vec![5] },
    ];
    let mut state = setup(mods, vec![0]);
    for _ in 0..3 {
        state.queue.tick(&mut state.store, &state.modifiers).unwrap();
    }
    assert_eq!(load_object(&state, 1).status, ObjectStatus::Halted);
    let r = restart_object_modifier(&mut state.store, &state.modifiers, &pkey(), 1, &vec![1]);
    assert_eq!(r, Ok(Some((9, 0))));
    let obj = load_object(&state, 1);
    assert_eq!(obj.modifiers, vec![1]);
    assert_eq!(obj.status, ObjectStatus::Running);
}

#[test]
fn restart_on_running_object_marks_pending() {
    let mods = vec![Modifier { delay: 5, attribute_deltas: vec![1] }];
    let mut state = setup(mods, vec![0]);
    let r = restart_object_modifier(&mut state.store, &state.modifiers, &pkey(), 1, &vec![]);
    assert_eq!(r, Ok(None));
    assert_eq!(load_object(&state, 1).status, ObjectStatus::RestartPending);
    // at its next fire the object skips the modifier and just moves on
    for _ in 0..6 {
        state.queue.tick(&mut state.store, &state.modifiers).unwrap();
    }
    let obj = load_object(&state, 1);
    assert_eq!(obj.status, ObjectStatus::Running);
    assert_eq!(obj.attributes, vec![0]);
}

#[test]
fn fire_missing_object_is_fatal() {
    let mut state = State::new();
    let r = apply_object_modifier(&mut state.store, &state.modifiers, &pkey(), 1, 0);
    assert_eq!(r, Err(ERROR_OBJECT_NOT_EXIST));
}

#[test]
fn fire_malformed_record_is_fatal() {
    let mut state = State::new();
    state.store.set(object_key(&pkey(), 1), vec![99]);
    let r = apply_object_modifier(&mut state.store, &state.modifiers, &pkey(), 1, 0);
    assert_eq!(r, Err(ERROR_MALFORMED_OBJECT));
}

#[test]
fn fire_bad_chain_position_is_fatal() {
    let mods = vec![Modifier { delay: 5, attribute_deltas: vec![1] }];
    let mut state = setup(mods, vec![0]);
    let r = apply_object_modifier(&mut state.store, &state.modifiers, &pkey(), 1, 7);
    assert_eq!(r, Err(ERROR_INDEX_OUT_OF_BOUND));
}

#[test]
fn restart_missing_object_is_fatal() {
    let mut state = State::new();
    let r = restart_object_modifier(&mut state.store, &state.modifiers, &pkey(), 1, &vec![]);
    assert_eq!(r, Err(ERROR_OBJECT_NOT_EXIST));
}

#[test]
fn install_object_rejections() {
    let mods = vec![
        Modifier { delay: 5, attribute_deltas: vec![1] },
        Modifier { delay: 5, attribute_deltas: vec![1, 2] },
    ];
    let mut state = setup(mods, vec![0]);
    // short command data
    let tx = Transaction { command: 3, data: vec![2] };
    assert_eq!(tx.install_object(&pkey(), &mut state), ERROR_BAD_COMMAND);
    // chain id outside the table
    let tx = Transaction { command: 3, data: vec![2, 5] };
    assert_eq!(tx.install_object(&pkey(), &mut state), ERROR_BAD_MODIFIER);
    // chain mixing attribute dimensions
    let tx = Transaction { command: 3, data: vec![2, 0, 1] };
    assert_eq!(tx.install_object(&pkey(), &mut state), ERROR_ATTRIBUTE_MISMATCH);
    // same object twice
    let tx = Transaction { command: 3, data: vec![1, 0] };
    assert_eq!(tx.install_object(&pkey(), &mut state), ERROR_OBJECT_ALREADY_EXIST);
}

#[test]
fn object_codec_round_trip() {
    let o = Object {
        status: ObjectStatus::RestartPending,
        modifier_index: 1,
        modifiers: vec![3, 1, 4],
        attributes: vec![10, 20],
    };
    let mut words: Vec<u64> = Vec::new();
    o.to_data(&mut words);
    assert_eq!(words, vec![2, 1, 3, 3, 1, 4, 2, 10, 20]);
    let back = Object::from_data(&words).unwrap();
    assert_eq!(back.status, ObjectStatus::RestartPending);
    assert_eq!(back.modifier_index, 1);
    assert_eq!(back.modifiers, vec![3, 1, 4]);
    assert_eq!(back.attributes, vec![10, 20]);
}

#[test]
fn object_decode_rejects_malformed() {
    assert!(Object::from_data(&vec![]).is_none());
    assert!(Object::from_data(&vec![3, 0, 1, 5, 0]).is_none());
    assert!(Object::from_data(&vec![0, 1, 1, 5, 0]).is_none());
    assert!(Object::from_data(&vec![0, 0, 1, 5, 7]).is_none());
    assert!(Object::from_data(&vec![0, 0, 1, 5, 0]).is_some());
}
