use chatstore::codec::{
    decode_message, decode_room, decode_user, encode_message, encode_room, encode_user,
};
use chatstore::keys::msg_key_bytes;
use chatstore::order::{bytes_lt, u128_to_be};
use chatstore::types::{Content, Message, MessageType, Room, Timestamp, User};

fn ts(millis: u128) -> Timestamp {
    Timestamp {
        before_epoch: false,
        millis,
    }
}

#[test]
fn user_record_round_trips() {
    let user = User {
        uuid: 0x0123_4567_89ab_cdef_0123_4567_89ab_cdef,
        address: "alice@example".to_string(),
        created: ts(1_234_567),
    };
    let bytes = encode_user(&user);
    let back = decode_user(&bytes).expect("an encoded user decodes");
    assert_eq!(back.uuid, user.uuid);
    assert_eq!(back.address, user.address);
    assert_eq!(back.created, user.created);
}

#[test]
fn room_record_round_trips() {
    let room = Room {
        uuid: 77,
        name: "the lounge".to_string(),
        created: ts(99),
        owners: vec![1, 2, 3],
        members: vec![4, 5],
    };
    let bytes = encode_room(&room);
    let back = decode_room(&bytes).expect("an encoded room decodes");
    assert_eq!(back.uuid, room.uuid);
    assert_eq!(back.name, room.name);
    assert_eq!(back.created, room.created);
    assert_eq!(back.owners, room.owners);
    assert_eq!(back.members, room.members);
}

#[test]
fn message_record_round_trips_with_unicode_text() {
    // Characters outside ASCII exercise the real scalar conversion: a decoder
    // that handed raw bytes through unchanged would not give these back.
    let msg = Message {
        uuid: 42,
        message_type: MessageType::Text,
        created: ts(1_700_000_000_123),
        owner: 7,
        content: Content::Text("héllo ☃ 漢字".to_string()),
    };
    let bytes = encode_message(&msg);
    let back = decode_message(&bytes).expect("an encoded message decodes");
    assert_eq!(back.uuid, msg.uuid);
    assert!(matches!(back.message_type, MessageType::Text));
    assert_eq!(back.created, msg.created);
    assert_eq!(back.owner, msg.owner);
    match (&back.content, &msg.content) {
        (Content::Text(a), Content::Text(b)) => assert_eq!(a, b),
        _ => panic!("text payload expected"),
    }
}

#[test]
fn file_message_round_trips() {
    let msg = Message {
        uuid: 9,
        message_type: MessageType::File,
        created: ts(5),
        owner: 3,
        content: Content::File("blob://somewhere/far".to_string()),
    };
    let bytes = encode_message(&msg);
    let back = decode_message(&bytes).expect("an encoded message decodes");
    assert!(matches!(back.message_type, MessageType::File));
    match &back.content {
        Content::File(s) => assert_eq!(s, "blob://somewhere/far"),
        _ => panic!("file payload expected"),
    }
}

#[test]
fn truncated_record_does_not_decode() {
    let user = User {
        uuid: 1,
        address: "short".to_string(),
        created: ts(10),
    };
    let mut bytes = encode_user(&user);
    bytes.pop();
    assert!(decode_user(&bytes).is_none());
    assert!(decode_user(&Vec::new()).is_none());
}

#[test]
fn trailing_garbage_does_not_decode() {
    let user = User {
        uuid: 1,
        address: "short".to_string(),
        created: ts(10),
    };
    let mut bytes = encode_user(&user);
    bytes.push(0);
    assert!(decode_user(&bytes).is_none());
}

#[test]
fn big_endian_rendering_is_exact() {
    let b = u128_to_be(0x0102);
    let mut expected = vec![0u8; 16];
    expected[14] = 1;
    expected[15] = 2;
    assert_eq!(b, expected);
}

#[test]
fn byte_order_follows_numeric_order() {
    let a = u128_to_be(0x00ff);
    let b = u128_to_be(0x0100);
    assert!(bytes_lt(&a, &b));
    assert!(!bytes_lt(&b, &a));
}

#[test]
fn newer_messages_key_earlier() {
    // Within a room, the key of a later message sorts before the key of an
    // earlier one: ascending key order is newest-first.
    let room = 11u128;
    let early = u128::MAX - 1_000;
    let late = u128::MAX - 2_000;
    let k_early = msg_key_bytes(room, early, 1);
    let k_late = msg_key_bytes(room, late, 1);
    assert!(bytes_lt(&k_late, &k_early));
}
