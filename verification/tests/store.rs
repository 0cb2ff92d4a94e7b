use chatstore::db::{Db, DbConnection};
use chatstore::store::{Column, ConfigName, ConfigValue, DbError, RocksDb};
use chatstore::types::{Content, Message, MessageType, Room, Timestamp, User};

fn open_db() -> RocksDb {
    let config = vec![(
        ConfigName::Path,
        ConfigValue::Path("chat-store-test".to_string()),
    )];
    RocksDb::open(&config).expect("Db should be opened")
}

fn ts(millis: u128) -> Timestamp {
    Timestamp {
        before_epoch: false,
        millis,
    }
}

fn text_message(uuid: u128, millis: u128, owner: u128, text: &str) -> Message {
    Message {
        uuid,
        message_type: MessageType::Text,
        created: ts(millis),
        owner,
        content: Content::Text(text.to_string()),
    }
}

#[test]
fn test_store_and_retrieve_user() {
    let user1 = User::new("user1".to_string());
    let user_uuid = user1.uuid;
    let created = user1.created;

    let mut db = open_db();
    db.save_user(&user1).expect("User should be saved");

    let u1 = db.find_user(user_uuid).unwrap();

    assert_eq!(u1.uuid, user_uuid);
    assert_eq!(u1.created, created);
}

#[test]
fn test_store_and_retrieve_room() {
    let user1 = User::new("user1".to_string());
    let room_name = "Room1";
    let room1 = Room::new(room_name, &user1);
    let room_uuid = room1.uuid;
    let created = room1.created;

    let mut db = open_db();
    db.save_room(&room1).expect("Room should be saved");

    let r1 = db.find_room(room_uuid).unwrap();

    assert_eq!(r1.uuid, room_uuid);
    assert_eq!(r1.created, created);
    assert_eq!(r1.name, room_name);
    let member_uuid = r1.members.iter().nth(0).unwrap();
    assert_eq!(*member_uuid, user1.uuid);
    let owner_uuid = r1.owners.iter().nth(0).unwrap();
    assert_eq!(*owner_uuid, user1.uuid);
}

#[test]
fn test_store_and_retrieve_message() {
    let mut db = open_db();

    let user1 = User::new("user1".to_string());
    let user2 = User::new("user2".to_string());
    let chat1 = &Room::new("chat1", &user1);
    // Generate 20 messages - 10 from user1 and 10 from user 2, 5 ms apart.
    let base: u128 = 1_700_000_000_000;
    let mut at = base;
    let mut id: u128 = 1;
    for i in 0..10 {
        db.save_message(
            &chat1,
            &text_message(id, at, user1.uuid, &format!("user1: Message {i}")),
        )
        .expect("Message should be saved");
        id += 1;
        at += 5;

        db.save_message(
            &chat1,
            &text_message(id, at, user2.uuid, &format!("user2: Message {i}")),
        )
        .expect("Message should be saved");
        id += 1;
        at += 5;
    }

    let mut next_token = None;
    let mut message_id = 9;
    let mut count_messages = 0;
    let page_size = 12;
    loop {
        let messages = db
            .find_messages(chat1.uuid, page_size, next_token)
            .expect(&format!("Return {} messages", page_size));
        next_token = messages.1;
        let messages = messages.0;
        if count_messages == 0 {
            assert_eq!(messages.len(), page_size);
        } else {
            assert_eq!(messages.len(), 20 - page_size);
        }

        let mut user_id = 1;
        for m in &messages {
            count_messages += 1;
            if user_id == 1 {
                user_id = 2;
            } else {
                user_id = 1;
            }
            let text = match &m.content {
                Content::Text(text) => text,
                _ => "undefined",
            };
            assert_eq!(text, &format!("user{}: Message {}", user_id, message_id));
            if user_id == 1 {
                message_id -= 1;
            }
        }
        if next_token.is_none() {
            break;
        }
    }
    assert_eq!(count_messages, 20);
}

#[test]
fn reverse_chronological_order() {
    let mut db = open_db();
    let user = User::new("sender".to_string());
    let room = Room::new("history", &user);
    for i in 0..5u128 {
        db.save_message(&room, &text_message(100 + i, 1_000 + i, user.uuid, &format!("m{i}")))
            .unwrap();
    }
    let (page, next) = db.find_messages(room.uuid, 5, None).unwrap();
    assert!(next.is_none());
    assert_eq!(page.len(), 5);
    for (j, m) in page.iter().enumerate() {
        assert_eq!(m.uuid, 100 + (4 - j as u128));
        assert_eq!(m.created.millis, 1_000 + (4 - j as u128));
    }
}

#[test]
fn pagination_walk_visits_each_message_once() {
    let mut db = open_db();
    let user = User::new("sender".to_string());
    let room = Room::new("pages", &user);
    let n: u128 = 10;
    for i in 0..n {
        db.save_message(&room, &text_message(i, 2_000 + i, user.uuid, &format!("m{i}")))
            .unwrap();
    }
    // Page size 3: pages of 3, 3, 3, then the remainder of 1.
    let mut cursor = None;
    let mut seen: Vec<u128> = Vec::new();
    let mut sizes: Vec<usize> = Vec::new();
    loop {
        let (page, next) = db.find_messages(room.uuid, 3, cursor).unwrap();
        sizes.push(page.len());
        for m in &page {
            seen.push(m.uuid);
        }
        if next.is_none() {
            break;
        }
        cursor = next;
    }
    assert_eq!(sizes, vec![3, 3, 3, 1]);
    let expected: Vec<u128> = (0..n).rev().collect();
    assert_eq!(seen, expected);
}

#[test]
fn tie_break_same_millisecond() {
    let mut db = open_db();
    let user = User::new("sender".to_string());
    let room = Room::new("ties", &user);
    // Two messages in the same millisecond: both survive, each once.
    db.save_message(&room, &text_message(7, 3_000, user.uuid, "first"))
        .unwrap();
    db.save_message(&room, &text_message(9, 3_000, user.uuid, "second"))
        .unwrap();
    let (page, next) = db.find_messages(room.uuid, 10, None).unwrap();
    assert!(next.is_none());
    assert_eq!(page.len(), 2);
    // The smaller identifier breaks the tie, first in the page.
    assert_eq!(page[0].uuid, 7);
    assert_eq!(page[1].uuid, 9);
}

#[test]
fn same_key_overwrites() {
    let mut db = open_db();
    let user = User::new("sender".to_string());
    let room = Room::new("rewrite", &user);
    db.save_message(&room, &text_message(5, 4_000, user.uuid, "old"))
        .unwrap();
    db.save_message(&room, &text_message(5, 4_000, user.uuid, "new"))
        .unwrap();
    let (page, next) = db.find_messages(room.uuid, 10, None).unwrap();
    assert!(next.is_none());
    assert_eq!(page.len(), 1);
    match &page[0].content {
        Content::Text(t) => assert_eq!(t, "new"),
        _ => panic!("text message expected"),
    }
}

#[test]
fn empty_room_returns_empty_page() {
    let db = open_db();
    let user = User::new("sender".to_string());
    let room = Room::new("empty", &user);
    let (page, next) = db.find_messages(room.uuid, 8, None).unwrap();
    assert!(page.is_empty());
    assert!(next.is_none());
}

#[test]
fn rooms_do_not_mix() {
    let mut db = open_db();
    let user = User::new("sender".to_string());
    let room_a = Room::new("a", &user);
    let room_b = Room::new("b", &user);
    db.save_message(&room_a, &text_message(1, 5_000, user.uuid, "in a"))
        .unwrap();
    db.save_message(&room_b, &text_message(2, 5_001, user.uuid, "in b"))
        .unwrap();
    let (page_a, _) = db.find_messages(room_a.uuid, 10, None).unwrap();
    let (page_b, _) = db.find_messages(room_b.uuid, 10, None).unwrap();
    assert_eq!(page_a.len(), 1);
    assert_eq!(page_a[0].uuid, 1);
    assert_eq!(page_b.len(), 1);
    assert_eq!(page_b[0].uuid, 2);
}

#[test]
fn find_user_absent_is_not_found() {
    let db = open_db();
    assert_eq!(db.find_user(42).unwrap_err(), DbError::NotFound);
}

#[test]
fn find_room_absent_is_not_found() {
    let db = open_db();
    assert_eq!(db.find_room(42).unwrap_err(), DbError::NotFound);
}

#[test]
fn open_without_path_fails() {
    let config: Vec<(ConfigName, ConfigValue)> = Vec::new();
    match RocksDb::open(&config) {
        Err(e) => assert_eq!(e, DbError::OpenError),
        Ok(_) => panic!("open without a path must fail"),
    }
}

#[test]
fn save_message_before_epoch_fails() {
    let mut db = open_db();
    let user = User::new("sender".to_string());
    let room = Room::new("clock", &user);
    let msg = Message {
        uuid: 1,
        message_type: MessageType::Text,
        created: Timestamp {
            before_epoch: true,
            millis: 12,
        },
        owner: user.uuid,
        content: Content::Text("too early".to_string()),
    };
    assert_eq!(db.save_message(&room, &msg).unwrap_err(), DbError::EncodingError);
    let (page, next) = db.find_messages(room.uuid, 10, None).unwrap();
    assert!(page.is_empty());
    assert!(next.is_none());
}

#[test]
fn cursor_before_epoch_fails() {
    let db = open_db();
    let user = User::new("sender".to_string());
    let room = Room::new("clock2", &user);
    let bad = Timestamp {
        before_epoch: true,
        millis: 1,
    };
    assert_eq!(
        db.find_messages(room.uuid, 10, Some(bad)).unwrap_err(),
        DbError::EncodingError
    );
}

#[test]
fn save_user_overwrites_by_identifier() {
    let mut db = open_db();
    let mut user = User::new("old address".to_string());
    db.save_user(&user).unwrap();
    user.address = "new address".to_string();
    db.save_user(&user).unwrap();
    let got = db.find_user(user.uuid).unwrap();
    assert_eq!(got.address, "new address");
}

#[test]
fn column_names() {
    assert_eq!(Column::col_name(Column::Users), "users");
    assert_eq!(Column::col_name(Column::Rooms), "rooms");
    assert_eq!(Column::col_name(Column::Messages), "messages");
    let all = Column::iter();
    assert_eq!(all, vec![Column::Users, Column::Rooms, Column::Messages]);
    let db = open_db();
    assert_eq!(db.column(Column::Users).count(), 0);
}

#[test]
fn concrete_two_page_scenario() {
    // Two users, one room owned by the first, twenty messages alternating
    // authorship at five-millisecond gaps, paged by twelve.
    let mut db = open_db();
    let u1 = User::new("u1".to_string());
    let u2 = User::new("u2".to_string());
    let room = Room::new("scenario", &u1);
    assert_eq!(room.owners, vec![u1.uuid]);
    assert_eq!(room.members, vec![u1.uuid]);
    db.save_user(&u1).unwrap();
    db.save_user(&u2).unwrap();
    db.save_room(&room).unwrap();

    let base: u128 = 10_000;
    let mut saved: Vec<u128> = Vec::new();
    for i in 0..20u128 {
        let owner = if i % 2 == 0 { u1.uuid } else { u2.uuid };
        db.save_message(&room, &text_message(500 + i, base + 5 * i, owner, &format!("n{i}")))
            .unwrap();
        saved.push(500 + i);
    }

    let (page1, cur1) = db.find_messages(room.uuid, 12, None).unwrap();
    assert_eq!(page1.len(), 12);
    let cur1 = cur1.expect("a second page exists");
    let (page2, cur2) = db.find_messages(room.uuid, 12, Some(cur1)).unwrap();
    assert_eq!(page2.len(), 8);
    assert!(cur2.is_none());

    let mut walked: Vec<u128> = Vec::new();
    for m in page1.iter().chain(page2.iter()) {
        walked.push(m.uuid);
    }
    saved.reverse();
    assert_eq!(walked, saved);
}

// A session driven through the capability trait alone: the caller never
// names the concrete engine.
fn run_session<S: DbConnection>(db: &mut S) -> usize {
    let user = User::new("trait user".to_string());
    let room = Room::new("trait room", &user);
    db.save_user(&user).unwrap();
    db.save_room(&room).unwrap();
    db.save_message(&room, &text_message(1, 6_000, user.uuid, "one"))
        .unwrap();
    db.save_message(&room, &text_message(2, 6_001, user.uuid, "two"))
        .unwrap();
    let (page, next) = db.find_messages(room.uuid, 10, None).unwrap();
    assert!(next.is_none());
    assert_eq!(page[0].uuid, 2);
    assert_eq!(page[1].uuid, 1);
    assert!(db.find_user(user.uuid).is_ok());
    assert!(db.find_room(room.uuid).is_ok());
    page.len()
}

#[test]
fn storage_abstraction_serves_any_engine() {
    let config = vec![(
        ConfigName::Path,
        ConfigValue::Path("trait-store".to_string()),
    )];
    let mut db = <RocksDb as Db>::open(&config).expect("Db should be opened");
    assert_eq!(run_session(&mut db), 2);
}
