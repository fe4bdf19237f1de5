use position_server::game::{GameState, PlayerState};
use position_server::messages::{GameOutputMessage, GameStateMsg};
use position_server::registry::Registry;
use position_server::rules::{
    fix_position_within_bounds, movement_within_limit, rate_allows, MAX_MOVEMENT, MAX_X_Y, MIN_X_Y,
    START_X_Y, TIME_PER_TICK,
};

fn snapshot(gs: &GameState) -> Vec<(u64, (i64, i64))> {
    match gs.to_output_msg() {
        GameOutputMessage::PlayerPositions { positions } => positions,
        GameOutputMessage::YouAre { .. } => panic!("tick snapshot must be PlayerPositions"),
    }
}

#[test]
fn constants_match_configuration() {
    assert_eq!(TIME_PER_TICK, 156);
    assert_eq!(MAX_MOVEMENT, 20);
    assert_eq!(START_X_Y, 50);
    assert_eq!(MIN_X_Y, 0);
    assert_eq!(MAX_X_Y, 500);
}

#[test]
fn clamp_leaves_interior_points_alone() {
    let mut x = 123i64;
    let mut y = 456i64;
    fix_position_within_bounds(&mut x, &mut y);
    assert_eq!((x, y), (123, 456));
}

#[test]
fn clamp_forces_each_axis_to_its_bound() {
    let mut x = -40i64;
    let mut y = 777i64;
    fix_position_within_bounds(&mut x, &mut y);
    assert_eq!((x, y), (MIN_X_Y, MAX_X_Y));

    let mut x = 501i64;
    let mut y = -1i64;
    fix_position_within_bounds(&mut x, &mut y);
    assert_eq!((x, y), (MAX_X_Y, MIN_X_Y));
}

#[test]
fn movement_limit_boundaries() {
    assert!(movement_within_limit(MAX_MOVEMENT, -MAX_MOVEMENT));
    assert!(!movement_within_limit(MAX_MOVEMENT + 1, 0));
    assert!(!movement_within_limit(0, -(MAX_MOVEMENT + 1)));
}

#[test]
fn rate_limit_boundaries() {
    assert!(rate_allows(TIME_PER_TICK, 0));
    assert!(!rate_allows(TIME_PER_TICK - 1, 0));
    // a clock that appears to run backwards admits nothing
    assert!(!rate_allows(0, 10_000));
}

#[test]
fn registry_ids_are_monotonic_and_unique() {
    let mut reg = Registry::new();
    let a = reg.allocate();
    let b = reg.allocate();
    let c = reg.allocate();
    assert_eq!((a, b, c), (0, 1, 2));
    assert_eq!(reg.next_id, 3);
}

#[test]
fn register_then_tick_shows_start_position() {
    let mut gs = GameState::new();
    let msg = gs.register_player(7, 0);
    assert!(matches!(msg, GameOutputMessage::YouAre { id: 7 }));
    let snap = snapshot(&gs);
    assert_eq!(snap, vec![(7, (START_X_Y, START_X_Y))]);
}

#[test]
fn accepted_move_displaces_and_stamps_time() {
    let mut gs = GameState::new();
    gs.register_player(7, 0);
    gs.move_by(7, 10, 5, TIME_PER_TICK);
    assert_eq!(snapshot(&gs), vec![(7, (60, 55))]);
}

#[test]
fn oversized_move_is_dropped_wholesale() {
    let mut gs = GameState::new();
    gs.register_player(7, 0);
    gs.move_by(7, 500, 0, TIME_PER_TICK);
    assert_eq!(snapshot(&gs), vec![(7, (START_X_Y, START_X_Y))]);
    // the rejected command did not consume the rate window either
    gs.move_by(7, 10, 5, TIME_PER_TICK);
    assert_eq!(snapshot(&gs), vec![(7, (60, 55))]);
}

#[test]
fn second_move_within_interval_is_dropped() {
    let mut gs = GameState::new();
    gs.register_player(7, 0);
    gs.move_by(7, 10, 5, TIME_PER_TICK);
    gs.move_by(7, 10, 5, 2 * TIME_PER_TICK - 1);
    assert_eq!(snapshot(&gs), vec![(7, (60, 55))]);
    gs.move_by(7, 10, 5, 2 * TIME_PER_TICK);
    assert_eq!(snapshot(&gs), vec![(7, (70, 60))]);
}

#[test]
fn moves_clamp_at_the_world_edge() {
    let mut gs = GameState::new();
    gs.register_player(1, 0);
    gs.move_by(1, -20, -20, TIME_PER_TICK);
    gs.move_by(1, -20, -20, 2 * TIME_PER_TICK);
    gs.move_by(1, -20, -20, 3 * TIME_PER_TICK);
    // 50 -> 30 -> 10 -> clamped at the minimum
    assert_eq!(snapshot(&gs), vec![(1, (MIN_X_Y, MIN_X_Y))]);
}

#[test]
fn unknown_id_move_is_a_noop() {
    let mut gs = GameState::new();
    gs.register_player(1, 0);
    gs.move_by(99, 10, 10, TIME_PER_TICK);
    assert_eq!(snapshot(&gs), vec![(1, (START_X_Y, START_X_Y))]);
}

#[test]
fn removal_drops_failed_ids_and_keeps_the_rest() {
    let mut gs = GameState::new();
    gs.register_player(1, 0);
    gs.register_player(2, 0);
    gs.register_player(3, 0);
    gs.move_by(2, 5, 5, TIME_PER_TICK);
    let before = snapshot(&gs);
    assert_eq!(before.len(), 3);
    // player 2's outbound send failed during the tick fan-out
    gs.remove_players(&vec![2]);
    let after = snapshot(&gs);
    assert_eq!(after, vec![(1, (50, 50)), (3, (50, 50))]);
    // the removed id stays gone; everyone else is untouched by later ticks
    assert_eq!(snapshot(&gs), after);
}

#[test]
fn process_dispatches_all_three_commands() {
    let mut gs = GameState::new();
    let hello = gs.process(&GameStateMsg::PlayerRegistered { id: 4 }, 0);
    assert!(matches!(hello, Some(GameOutputMessage::YouAre { id: 4 })));
    let silent = gs.process(&GameStateMsg::MoveBy { id: 4, mx: 1, my: 2 }, TIME_PER_TICK);
    assert!(silent.is_none());
    let tick = gs.process(&GameStateMsg::Tick, TIME_PER_TICK);
    match tick {
        Some(GameOutputMessage::PlayerPositions { positions }) => {
            assert_eq!(positions, vec![(4, (51, 52))]);
        }
        _ => panic!("tick must broadcast a positions snapshot"),
    }
}

#[test]
fn scenario_register_reject_then_accept() {
    // register player 7, flood-proof and cheat-proof movement, then a clean
    // move reflected in the next snapshot
    let mut gs = GameState::new();
    let mut reg = Registry::new();
    for _ in 0..7 {
        reg.allocate();
    }
    let id = reg.allocate();
    assert_eq!(id, 7);
    let hello = gs.process(&GameStateMsg::PlayerRegistered { id }, 0);
    assert!(matches!(hello, Some(GameOutputMessage::YouAre { id: 7 })));

    // a claimed movement of 500 with MAX_MOVEMENT == 20 is dropped
    gs.process(&GameStateMsg::MoveBy { id, mx: 500, my: 0 }, TIME_PER_TICK);
    assert_eq!(snapshot(&gs), vec![(7, (START_X_Y, START_X_Y))]);

    // one tick period later a legal move lands
    gs.process(&GameStateMsg::MoveBy { id, mx: 10, my: 5 }, 2 * TIME_PER_TICK);
    assert_eq!(snapshot(&gs), vec![(7, (60, 55))]);
}

#[test]
fn player_state_fields_are_plain_values() {
    let p = PlayerState { x: 1, y: 2, last_cmd_at: 3 };
    assert_eq!((p.x, p.y, p.last_cmd_at), (1, 2, 3));
}
