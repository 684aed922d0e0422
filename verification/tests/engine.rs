use delta_queue::config::Config;
use delta_queue::err::{
    ErrorEncoder, PlayerError, ERROR_PLAYER_ALREADY_EXIST, ERROR_PLAYER_NOT_EXIST,
};
use delta_queue::game::{CommitmentInfo, Game, Monster, RoundInfo};
use delta_queue::object::Modifier;
use delta_queue::player::{player_key, PlayerData};
use delta_queue::state::{State, Transaction};
use delta_queue::store::Identifier;

fn pkey() -> Identifier {
    Identifier { w0: 30, w1: 31, w2: 32, w3: 33 }
}

fn rand_seed() -> Identifier {
    Identifier { w0: 0, w1: 0, w2: 0, w3: 0 }
}

#[test]
fn decode_splits_tag_and_data() {
    let params = [0x30002u64, 5, 6, 7];
    let tx = Transaction::decode(&params);
    assert_eq!(tx.command, 2);
    assert_eq!(tx.data, vec![5, 6, 7]);
}

#[test]
fn decode_error_names() {
    assert_eq!(Transaction::decode_error(ERROR_PLAYER_ALREADY_EXIST), "PlayerAlreadyExist");
    assert_eq!(Transaction::decode_error(ERROR_PLAYER_NOT_EXIST), "PlayerNotExist");
    assert_eq!(Transaction::decode_error(9999), "Unknown");
}

#[test]
fn process_install_and_inc_counter() {
    let mut state = State::new();
    let install = Transaction::decode(&[1u64, 0, 0, 0]);
    assert_eq!(install.process(&pkey(), &rand_seed(), &mut state), vec![0]);
    // installing the same player twice is refused
    assert_eq!(
        install.process(&pkey(), &rand_seed(), &mut state),
        vec![ERROR_PLAYER_ALREADY_EXIST as u64]
    );
    let inc = Transaction::decode(&[2u64]);
    assert_eq!(inc.process(&pkey(), &rand_seed(), &mut state), vec![0]);
    assert_eq!(inc.process(&pkey(), &rand_seed(), &mut state), vec![0]);
    // the player record holds its nonce word and the stepped counter
    assert_eq!(state.store.get(player_key(&pkey())), vec![0, 2]);
}

#[test]
fn inc_counter_needs_player() {
    let mut state = State::new();
    let inc = Transaction::decode(&[2u64]);
    assert_eq!(inc.process(&pkey(), &rand_seed(), &mut state), vec![ERROR_PLAYER_NOT_EXIST as u64]);
}

#[test]
fn process_tick_command() {
    let mut state = State::new();
    let tick = Transaction::decode(&[0u64]);
    assert_eq!(tick.process(&pkey(), &rand_seed(), &mut state), vec![0]);
    assert_eq!(state.queue.counter, 1);
}

#[test]
fn process_unknown_command_is_ignored() {
    let mut state = State::new();
    let tx = Transaction::decode(&[0x77u64, 1, 2]);
    assert_eq!(tx.process(&pkey(), &rand_seed(), &mut state), vec![0]);
    assert_eq!(state.queue.counter, 0);
}

#[test]
fn full_session_over_process() {
    // install a player and an object through the command surface, tick the
    // engine past the first fire, then spill and reload the batch.
    let mods = vec![Modifier { delay: 2, attribute_deltas: vec![3] }];
    let mut state = State::with_modifiers(mods);
    let install = Transaction::decode(&[1u64]);
    assert_eq!(install.process(&pkey(), &rand_seed(), &mut state), vec![0]);
    let install_obj = Transaction::decode(&[3u64, 1, 0]);
    assert_eq!(install_obj.process(&pkey(), &rand_seed(), &mut state), vec![0]);
    let tick = Transaction::decode(&[0u64]);
    for _ in 0..3 {
        assert_eq!(tick.process(&pkey(), &rand_seed(), &mut state), vec![0]);
    }
    let rec = state.store.get(delta_queue::object::object_key(&pkey(), 1));
    let obj = delta_queue::object::Object::from_data(&rec).unwrap();
    assert_eq!(obj.attributes, vec![3]);
    state.finalize().unwrap();
    state.initialize().unwrap();
    assert_eq!(state.queue.counter, 3);
}

#[test]
fn restart_command_round_trip() {
    let mods = vec![Modifier { delay: 2, attribute_deltas: vec![-1] }];
    let mut state = State::with_modifiers(mods);
    let install = Transaction::decode(&[1u64]);
    assert_eq!(install.process(&pkey(), &rand_seed(), &mut state), vec![0]);
    let install_obj = Transaction::decode(&[3u64, 1, 0]);
    assert_eq!(install_obj.process(&pkey(), &rand_seed(), &mut state), vec![0]);
    let tick = Transaction::decode(&[0u64]);
    for _ in 0..3 {
        assert_eq!(tick.process(&pkey(), &rand_seed(), &mut state), vec![0]);
    }
    // the object has halted; a restart command reschedules it
    assert_eq!(state.queue.list.len(), 0);
    let restart = Transaction::decode(&[4u64, 1]);
    assert_eq!(restart.process(&pkey(), &rand_seed(), &mut state), vec![0]);
    assert_eq!(state.queue.list.len(), 1);
    assert_eq!(state.queue.list[0].delta, 2);
    assert_eq!(state.queue.list[0].modifier_index, 0);
}

#[test]
fn error_encoder_stamps_module() {
    assert_eq!(PlayerError::encode(1), 0x10001);
    assert_eq!(PlayerError::decode(0x10001), Some(1));
    assert_eq!(PlayerError::decode(0x40001), None);
}

#[test]
fn config_reports_autotick() {
    assert!(Config::autotick());
    assert_eq!(Config::new().version, 1);
}

#[test]
fn commitment_info_holds_words() {
    let c = CommitmentInfo::new(5, 6);
    assert_eq!(c, CommitmentInfo(5, 6));
}

#[test]
fn game_settle_locks_round_on_kill() {
    let monsters = vec![
        Monster { health: 10, rewards: 4, buf: vec![] },
        Monster { health: 100, rewards: 50, buf: vec![] },
    ];
    let mut g = Game {
        total_dps: 3,
        progress: 5,
        target: 0,
        last_round_info: RoundInfo { locked_dps: 0, locked_rewards: 0 },
    };
    g.settle(&monsters);
    // 5 + 3 < 10: still fighting the first monster
    assert_eq!(g.progress, 8);
    assert_eq!(g.target, 0);
    g.settle(&monsters);
    // 8 + 3 >= 10: the round locks and the target advances
    assert_eq!(g.progress, 0);
    assert_eq!(g.target, 1);
    assert_eq!(g.last_round_info, RoundInfo { locked_dps: 3, locked_rewards: 4 });
}

#[test]
fn player_data_codec_round_trip() {
    let p = PlayerData {
        inventory: vec![5, 9],
        energe: 1,
        target: 2,
        remain: 3,
        dps: 4,
        time_stamp: 5,
        balance: 6,
    };
    let mut words: Vec<u64> = Vec::new();
    p.to_data(&mut words);
    assert_eq!(words, vec![2, 5, 9, 1, 2, 3, 4, 5, 6]);
    let back = PlayerData::from_data(&words).unwrap();
    assert_eq!(back.inventory, vec![5, 9]);
    assert_eq!(back.balance, 6);
    assert!(PlayerData::from_data(&vec![1, 2, 3]).is_none());
    let d = PlayerData::default();
    assert_eq!(d.inventory.len(), 0);
    assert_eq!(d.balance, 0);
}

#[test]
fn malformed_player_record_stops_inc_counter() {
    let mut state = State::new();
    state.store.set(player_key(&pkey()), vec![1, 2, 3]);
    let inc = Transaction::decode(&[2u64]);
    assert_eq!(
        inc.process(&pkey(), &rand_seed(), &mut state),
        vec![delta_queue::err::ERROR_MALFORMED_PLAYER as u64]
    );
}
