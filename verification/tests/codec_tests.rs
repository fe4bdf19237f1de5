use position_server::messages::{GameInputMessage, GameOutputMessage};

fn in_round_trip(m: GameInputMessage) -> GameInputMessage {
    let bytes = m.serialize_json();
    GameInputMessage::deserialize_json(&bytes).expect("canonical frame must decode")
}

fn out_round_trip(m: &GameOutputMessage) -> GameOutputMessage {
    let bytes = m.serialize_json();
    GameOutputMessage::deserialize_json(&bytes).expect("canonical frame must decode")
}

#[test]
fn input_encodes_to_expected_json() {
    let m = GameInputMessage::Move { mx: 10, my: 5 };
    assert_eq!(m.serialize_json(), b"{\"Move\":{\"mx\":10,\"my\":5}}".to_vec());
    let m = GameInputMessage::Move { mx: -3, my: 0 };
    assert_eq!(m.serialize_json(), b"{\"Move\":{\"mx\":-3,\"my\":0}}".to_vec());
}

#[test]
fn input_round_trip() {
    for (mx, my) in [
        (0i64, 0i64),
        (10, 5),
        (-20, 20),
        (i64::MAX, i64::MIN),
        (1_000_000_007, -987_654_321),
    ] {
        let back = in_round_trip(GameInputMessage::Move { mx, my });
        assert_eq!(back, GameInputMessage::Move { mx, my });
    }
}

#[test]
fn input_decode_accepts_only_canonical_frames() {
    for bad in [
        &b""[..],
        b"{}",
        b"{\"Move\":{\"mx\":10,\"my\":5}",
        b"{\"Move\":{\"mx\":10,\"my\":5}}x",
        b"{\"Move\":{\"mx\": 10,\"my\":5}}",
        b"{\"Move\":{\"mx\":01,\"my\":5}}",
        b"{\"Move\":{\"mx\":-0,\"my\":5}}",
        b"{\"Move\":{\"mx\":10.0,\"my\":5}}",
        b"{\"move\":{\"mx\":10,\"my\":5}}",
        b"{\"Move\":{\"my\":5,\"mx\":10}}",
    ] {
        assert!(GameInputMessage::deserialize_json(&bad.to_vec()).is_none());
    }
}

#[test]
fn output_you_are_encodes_to_expected_json() {
    let m = GameOutputMessage::YouAre { id: 7 };
    assert_eq!(m.serialize_json(), b"{\"YouAre\":{\"id\":7}}".to_vec());
    let m = GameOutputMessage::YouAre { id: u64::MAX };
    assert_eq!(
        m.serialize_json(),
        b"{\"YouAre\":{\"id\":18446744073709551615}}".to_vec()
    );
}

#[test]
fn output_positions_encode_to_expected_json() {
    let empty = GameOutputMessage::PlayerPositions { positions: vec![] };
    assert_eq!(
        empty.serialize_json(),
        b"{\"PlayerPositions\":{\"positions\":{}}}".to_vec()
    );
    let two = GameOutputMessage::PlayerPositions {
        positions: vec![(1, (2, 3)), (4, (-5, 6))],
    };
    assert_eq!(
        two.serialize_json(),
        b"{\"PlayerPositions\":{\"positions\":{\"1\":[2,3],\"4\":[-5,6]}}}".to_vec()
    );
}

#[test]
fn output_you_are_round_trip() {
    for id in [0u64, 7, 1_000, u64::MAX] {
        match out_round_trip(&GameOutputMessage::YouAre { id }) {
            GameOutputMessage::YouAre { id: back } => assert_eq!(back, id),
            _ => panic!("YouAre must decode as YouAre"),
        }
    }
}

#[test]
fn output_positions_round_trip() {
    for positions in [
        vec![],
        vec![(7, (50, 50))],
        vec![(1, (2, 3)), (4, (-5, 6)), (18446744073709551615, (500, 0))],
    ] {
        let m = GameOutputMessage::PlayerPositions { positions: positions.clone() };
        match out_round_trip(&m) {
            GameOutputMessage::PlayerPositions { positions: back } => {
                assert_eq!(back, positions);
            }
            _ => panic!("PlayerPositions must decode as PlayerPositions"),
        }
    }
}

#[test]
fn output_decode_accepts_only_canonical_frames() {
    for bad in [
        &b""[..],
        b"{\"YouAre\":{\"id\":}}",
        b"{\"YouAre\":{\"id\":7}",
        b"{\"YouAre\":{\"id\":07}}",
        b"{\"YouAre\":{\"id\":-7}}",
        b"{\"YouAre\":{\"id\":7}}}",
        b"{\"PlayerPositions\":{\"positions\":{}}",
        b"{\"PlayerPositions\":{\"positions\":{\"1\":[2,3],}}}",
        b"{\"PlayerPositions\":{\"positions\":{\"1\":[2,3}}}",
        b"{\"PlayerPositions\":{\"positions\":{\"1\":[2]}}}",
    ] {
        assert!(GameOutputMessage::deserialize_json(&bad.to_vec()).is_none());
    }
}

#[test]
fn decode_of_the_other_direction_frame_fails() {
    let hello = GameOutputMessage::YouAre { id: 3 }.serialize_json();
    assert!(GameInputMessage::deserialize_json(&hello).is_none());
    let mv = GameInputMessage::Move { mx: 1, my: 2 }.serialize_json();
    assert!(GameOutputMessage::deserialize_json(&mv).is_none());
}
