use minigames::protocol::{NetworkEvent, Role};

fn round_trip(m: NetworkEvent) {
    let bytes = m.to_u8_vec();
    let (decoded, used) = NetworkEvent::from_buffer(&bytes).expect("complete message");
    assert_eq!(decoded, m);
    assert_eq!(used, bytes.len());
}

#[test]
fn every_variant_survives_the_round_trip() {
    round_trip(NetworkEvent::Error(b"boom".to_vec()));
    round_trip(NetworkEvent::EnterRoom { name: b"alice".to_vec(), role: Role::Player });
    round_trip(NetworkEvent::EnterPermitted { role: Role::Visitor, name: b"bob".to_vec() });
    round_trip(NetworkEvent::RoomIsFull);
    round_trip(NetworkEvent::Ping { send_time: 0 });
    round_trip(NetworkEvent::Ping { send_time: 1_700_000_000_123 });
    round_trip(NetworkEvent::Pong { send_time: u64::MAX });
    round_trip(NetworkEvent::RoomDisbanded);
    round_trip(NetworkEvent::LeaveRoom);
    round_trip(NetworkEvent::SetPrepared(true));
    round_trip(NetworkEvent::SetPrepared(false));
    round_trip(NetworkEvent::StartGame);
    round_trip(NetworkEvent::PutChess { x: 7, y: 11 });
    round_trip(NetworkEvent::ChatMessage(b"hello there".to_vec()));
    round_trip(NetworkEvent::ChatMessage(Vec::new()));
    round_trip(NetworkEvent::UndoRequest);
    round_trip(NetworkEvent::PutChessSucceed);
    round_trip(NetworkEvent::UndoReply(true));
    round_trip(NetworkEvent::UndoReply(false));
    round_trip(NetworkEvent::Escape);
}

#[test]
fn put_chess_has_the_documented_layout() {
    let bytes = NetworkEvent::PutChess { x: 3, y: 9 }.to_u8_vec();
    assert_eq!(bytes, vec![0, 0, 0, 9, 3, 9]);
}

#[test]
fn error_messages_use_the_reserved_tag() {
    let bytes = NetworkEvent::Error(b"x".to_vec()).to_u8_vec();
    // 114514 in big-endian bytes, then the length-prefixed text
    assert_eq!(bytes, vec![0x00, 0x01, 0xbf, 0x52, 1, b'x']);
}

#[test]
fn a_short_buffer_yields_nothing_and_keeps_its_bytes() {
    assert!(NetworkEvent::from_buffer(&[]).is_none());
    assert!(NetworkEvent::from_buffer(&[0, 0, 0]).is_none());
    // a Ping needs twelve bytes
    let bytes = NetworkEvent::Ping { send_time: 55 }.to_u8_vec();
    assert!(NetworkEvent::from_buffer(&bytes[..11]).is_none());
    // a name shorter than its length prefix promises is incomplete
    let partial = vec![0, 0, 0, 0, 0, 5, b'a', b'b'];
    assert!(NetworkEvent::from_buffer(&partial).is_none());
}

#[test]
fn an_unknown_tag_becomes_a_diagnostic_error_message() {
    let bytes = vec![0, 0, 0, 99];
    let (decoded, used) = NetworkEvent::from_buffer(&bytes).expect("parsed");
    assert_eq!(used, 4);
    assert_eq!(
        decoded,
        NetworkEvent::Error(b"Unrecognizable message type 99".to_vec())
    );
}

#[test]
fn an_unknown_role_byte_becomes_an_error_without_consuming() {
    let bytes = vec![0, 0, 0, 0, 7, 0];
    let (decoded, used) = NetworkEvent::from_buffer(&bytes).expect("parsed");
    assert_eq!(used, 0);
    assert_eq!(decoded, NetworkEvent::Error(b"Invalid role ID 7".to_vec()));
}

#[test]
fn diagnostics_spell_multi_digit_numbers_out() {
    let bytes = vec![0, 1, 0xbf, 0x51];
    let (decoded, used) = NetworkEvent::from_buffer(&bytes).expect("parsed");
    assert_eq!(used, 4);
    assert_eq!(
        decoded,
        NetworkEvent::Error(b"Unrecognizable message type 114513".to_vec())
    );
    let role = vec![0, 0, 0, 1, 200, 0];
    let (decoded2, used2) = NetworkEvent::from_buffer(&role).expect("parsed");
    assert_eq!(used2, 0);
    assert_eq!(decoded2, NetworkEvent::Error(b"Invalid role ID 200".to_vec()));
}

#[test]
fn nonzero_prepared_bytes_read_as_true() {
    let bytes = vec![0, 0, 0, 7, 42];
    let (decoded, used) = NetworkEvent::from_buffer(&bytes).expect("parsed");
    assert_eq!(used, 5);
    assert_eq!(decoded, NetworkEvent::SetPrepared(true));
}

#[test]
fn roles_travel_as_their_bytes() {
    assert_eq!(Role::Player.to_u8(), 0);
    assert_eq!(Role::Visitor.to_u8(), 1);
    assert_eq!(Role::from_u8(0), Role::Player);
    assert_eq!(Role::from_u8(1), Role::Visitor);
    assert_eq!(Role::from_u8(200), Role::Invalid);
}

#[test]
fn trailing_bytes_stay_for_the_next_read() {
    let mut bytes = NetworkEvent::StartGame.to_u8_vec();
    let follow = NetworkEvent::PutChess { x: 1, y: 2 }.to_u8_vec();
    bytes.extend_from_slice(&follow);
    let (first, used) = NetworkEvent::from_buffer(&bytes).expect("parsed");
    assert_eq!(first, NetworkEvent::StartGame);
    assert_eq!(used, 4);
    let (second, used2) = NetworkEvent::from_buffer(&bytes[used..]).expect("parsed");
    assert_eq!(second, NetworkEvent::PutChess { x: 1, y: 2 });
    assert_eq!(used2, 6);
}
