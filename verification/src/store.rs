//! The backing store: three independent ordered columns — users, rooms,
//! messages — over the partition of `kv`. Users and rooms are keyed by raw
//! identifier bytes; messages by the scheme of `keys`, so that a forward
//! range scan serves newest-first history.

use vstd::prelude::*;

use crate::codec::{
    dec_msg, dec_room, dec_user, decode_message, decode_room, decode_user, encode_message,
    encode_room, encode_user, lemma_msg_round_trip, lemma_room_round_trip, lemma_user_round_trip,
    spec_enc_msg, spec_enc_room, spec_enc_user,
};
use crate::keys::{
    cursor_key_bytes, lemma_cursor_in_range, lemma_cursor_key_order, lemma_key_room_range,
    lemma_key_room_side, lemma_msg_key_order, lemma_msg_key_room_order, msg_key_bytes,
    room_end_bytes, room_prefix_bytes, spec_cursor_key, spec_msg_key, spec_room_end,
    spec_room_prefix,
};
use crate::kv::{
    first_geq, lemma_first_geq_all, lemma_first_geq_bounds, lemma_first_geq_insert,
    lemma_first_geq_mono, lemma_first_geq_sorted_insert, lemma_lookup_insert,
    lemma_lookup_update, lookup, Partition,
};
use crate::order::{
    bytes_lt, lemma_lex_asym, lemma_lex_concat, lemma_lex_irrefl, lemma_lex_total,
    lemma_u128_be_inj, lex_lt, u128_be, u128_to_be,
};
use crate::types::{Message, MessageModel, Room, RoomModel, Timestamp, User, UserModel};

verus! {

/// The three columns of the store.
#[derive(Clone, Copy, Debug, PartialEq, Eq, Structural, Hash)]
pub enum Column {
    Users,
    Rooms,
    Messages,
}

impl Column {
    /// The on-disk name of a column.
    pub fn col_name(col: Column) -> (r: &'static str)
        ensures
            match col {
                Column::Users => r@ == "users"@,
                Column::Rooms => r@ == "rooms"@,
                Column::Messages => r@ == "messages"@,
            },
    {
        match col {
            Column::Users => "users",
            Column::Rooms => "rooms",
            Column::Messages => "messages",
        }
    }

    /// All columns, in the order they are created.
    pub fn iter() -> (r: Vec<Column>)
        ensures
            r@ == seq![Column::Users, Column::Rooms, Column::Messages],
    {
        let mut r: Vec<Column> = Vec::new();
        r.push(Column::Users);
        r.push(Column::Rooms);
        r.push(Column::Messages);
        proof {
            assert(r@ =~= seq![Column::Users, Column::Rooms, Column::Messages]);
        }
        r
    }
}

/// The names of the configuration options a store is opened with.
#[derive(Clone, Copy, Debug, PartialEq, Eq, Structural, Hash)]
pub enum ConfigName {
    Path,
}

/// The values of the configuration options.
#[derive(Clone, Debug, PartialEq)]
pub enum ConfigValue {
    Path(String),
}

/// The errors of the engine.
#[derive(Clone, Copy, Debug, PartialEq, Eq, Structural, Hash)]
pub enum DbError {
    /// The store location is missing or the configuration is incomplete.
    OpenError,
    /// A point lookup found no record under the identifier.
    NotFound,
    /// A message key cannot be built: the timestamp precedes the epoch.
    EncodingError,
    /// A record could not be encoded.
    SerializationError,
    /// A stored record could not be decoded back into its expected shape.
    CorruptRecord,
    /// The underlying device failed.
    IoError,
}

/// The reverse rank of a creation time: ascending rank is descending time.
pub open spec fn rank_of(millis: u128) -> u128 {
    (u128::MAX - millis) as u128
}

/// A stored user record: the value decodes, and the key is its identifier.
pub open spec fn user_entry_ok(k: Seq<u8>, v: Seq<u8>) -> bool {
    match dec_user(v) {
        Some(u) => k == u128_be(u.uuid),
        None => false,
    }
}

/// A stored room record, likewise.
pub open spec fn room_entry_ok(k: Seq<u8>, v: Seq<u8>) -> bool {
    match dec_room(v) {
        Some(r) => k == u128_be(r.uuid),
        None => false,
    }
}

/// A stored message record: the value decodes, its time is not before the
/// epoch, and the key is the message key of some room.
pub open spec fn msg_entry_ok(k: Seq<u8>, v: Seq<u8>) -> bool {
    match dec_msg(v) {
        Some(m) => !m.created.before_epoch && (exists|r: u128|
            k == spec_msg_key(r, rank_of(m.created.millis), m.uuid)),
        None => false,
    }
}

pub open spec fn users_ok(p: Partition) -> bool {
    forall|i: int| 0 <= i < p.len() ==> #[trigger] user_entry_ok(p.keys()[i], p.vals()[i])
}

pub open spec fn rooms_ok(p: Partition) -> bool {
    forall|i: int| 0 <= i < p.len() ==> #[trigger] room_entry_ok(p.keys()[i], p.vals()[i])
}

pub open spec fn msgs_ok(p: Partition) -> bool {
    forall|i: int| 0 <= i < p.len() ==> #[trigger] msg_entry_ok(p.keys()[i], p.vals()[i])
}

/// The store: one handle over the three columns.
pub struct RocksDb {
    pub users: Partition,
    pub rooms: Partition,
    pub messages: Partition,
}

impl RocksDb {
    /// Every column is sorted and holds only well-formed records.
    pub open spec fn wf(self) -> bool {
        &&& self.users.wf()
        &&& self.rooms.wf()
        &&& self.messages.wf()
        &&& users_ok(self.users)
        &&& rooms_ok(self.rooms)
        &&& msgs_ok(self.messages)
    }

    /// What the store holds under a user identifier.
    pub open spec fn user_at(self, id: u128) -> Option<UserModel> {
        match self.users.value_of(u128_be(id)) {
            Some(v) => dec_user(v),
            None => None,
        }
    }

    /// What the store holds under a room identifier.
    pub open spec fn room_at(self, id: u128) -> Option<RoomModel> {
        match self.rooms.value_of(u128_be(id)) {
            Some(v) => dec_room(v),
            None => None,
        }
    }

    /// The first message position of a room's key range.
    pub open spec fn room_lo(self, room: u128) -> int {
        first_geq(self.messages.keys(), spec_room_prefix(room))
    }

    /// The position just past a room's key range.
    pub open spec fn room_hi(self, room: u128) -> int {
        first_geq(self.messages.keys(), spec_room_end(room))
    }

    /// A room's messages, newest first: the records of its contiguous key
    /// block, in ascending key order.
    pub open spec fn room_msgs(self, room: u128) -> Seq<MessageModel> {
        Seq::new(
            (self.room_hi(room) - self.room_lo(room)) as nat,
            |j: int| dec_msg(self.messages.vals()[self.room_lo(room) + j])->Some_0,
        )
    }

    /// Create or open the store at the given location. The engine keeps all
    /// three columns in memory behind this handle; the location names the
    /// store for its callers.
    pub fn new(_path: &str) -> (r: RocksDb)
        ensures
            r.wf(),
            r.users.len() == 0,
            r.rooms.len() == 0,
            r.messages.len() == 0,
    {
        RocksDb { users: Partition::new(), rooms: Partition::new(), messages: Partition::new() }
    }

    /// The handle of one column.
    pub fn column(&self, column: Column) -> (r: &Partition)
        ensures
            match column {
                Column::Users => *r == self.users,
                Column::Rooms => *r == self.rooms,
                Column::Messages => *r == self.messages,
            },
    {
        match column {
            Column::Users => &self.users,
            Column::Rooms => &self.rooms,
            Column::Messages => &self.messages,
        }
    }

    /// Open a store from a configuration mapping: the path option must be
    /// present, else the open fails; nothing else is assumed.
    pub fn open(config: &Vec<(ConfigName, ConfigValue)>) -> (r: Result<RocksDb, DbError>)
        ensures
            (exists|i: int| 0 <= i < config@.len() && config@[i].0 == ConfigName::Path) <==> r
                is Ok,
            r matches Ok(db) ==> db.wf() && db.users.len() == 0 && db.rooms.len() == 0
                && db.messages.len() == 0,
            r matches Err(e) ==> e == DbError::OpenError,
    {
        let n = config.len();
        let mut i: usize = 0;
        while i < n
            invariant
                i <= n,
                n == config@.len(),
                forall|j: int| 0 <= j < i ==> config@[j].0 != ConfigName::Path,
            decreases n - i,
        {
            let entry = &config[i];
            match &entry.0 {
                ConfigName::Path => {
                    match &entry.1 {
                        ConfigValue::Path(p) => {
                            return Ok(RocksDb::new(p.as_str()));
                        },
                    }
                },
            }
        }
        Err(DbError::OpenError)
    }

    /// Point lookup of a user; absent identifiers are `NotFound`.
    pub fn find_user(&self, user_uuid: u128) -> (r: Result<User, DbError>)
        requires
            self.wf(),
        ensures
            match self.user_at(user_uuid) {
                Some(m) => r matches Ok(u) && u@ == m,
                None => r matches Err(e) && e == DbError::NotFound,
            },
    {
        let key = u128_to_be(user_uuid);
        match self.users.get(&key) {
            None => Err(DbError::NotFound),
            Some(v) => {
                proof {
                    let i = first_geq(self.users.keys(), key@);
                    lemma_first_geq_bounds(self.users.keys(), key@);
                    assert(self.users.value_of(key@) is Some);
                    assert(i < self.users.len() && self.users.keys()[i] == key@);
                    assert(user_entry_ok(self.users.keys()[i], self.users.vals()[i]));
                }
                match decode_user(v) {
                    Some(u) => Ok(u),
                    None => {
                        proof {
                            assert(false);
                        }
                        Err(DbError::CorruptRecord)
                    },
                }
            },
        }
    }

    /// Upsert a user, keyed by its identifier; durable before the call
    /// returns, idempotent under the same identifier.
    pub fn save_user(&mut self, user: &User) -> (r: Result<(), DbError>)
        requires
            old(self).wf(),
        ensures
            final(self).wf(),
            r is Ok,
            forall|id: u128| final(self).user_at(id) == if id == user.uuid {
                Some(user@)
            } else {
                old(self).user_at(id)
            },
            final(self).rooms == old(self).rooms,
            final(self).messages == old(self).messages,
    {
        let key = u128_to_be(user.uuid);
        let value = encode_user(user);
        let ghost pre = self.users;
        proof {
            lemma_user_round_trip(user@);
        }
        self.users.put(key, value);
        proof {
            let i = first_geq(pre.keys(), key@);
            lemma_first_geq_bounds(pre.keys(), key@);
            if i < pre.len() && pre.key_at(i) == key@ {
                assert(users_ok(self.users)) by {
                    assert(forall|j: int|
                        0 <= j < self.users.len() && j != i ==> self.users.keys()[j]
                            == pre.keys()[j] && self.users.vals()[j] == pre.vals()[j]);
                    assert(self.users.vals()[i] == spec_enc_user(user@));
                    assert(user_entry_ok(self.users.keys()[i], self.users.vals()[i]));
                }
                assert forall|id: u128|
                    final(self).user_at(id) == if id == user.uuid {
                        Some(user@)
                    } else {
                        old(self).user_at(id)
                    } by {
                    lemma_lookup_update(pre.keys(), pre.vals(), i, value@, u128_be(id));
                    if id == user.uuid {
                    } else {
                        if u128_be(id) == pre.keys()[i] {
                            assert(user_entry_ok(pre.keys()[i], pre.vals()[i]));
                            lemma_u128_be_inj(id, user.uuid);
                            assert(false);
                        }
                    }
                }
            } else {
                assert(users_ok(self.users)) by {
                    pre.keys().insert_ensures(i, key@);
                    pre.vals().insert_ensures(i, value@);
                    assert(forall|j: int|
                        0 <= j < i ==> self.users.keys()[j] == pre.keys()[j]
                            && self.users.vals()[j] == pre.vals()[j]);
                    assert(forall|j: int|
                        i < j < self.users.len() ==> self.users.keys()[j] == pre.keys()[j - 1]
                            && self.users.vals()[j] == pre.vals()[j - 1]);
                    assert(user_entry_ok(self.users.keys()[i], self.users.vals()[i]));
                }
                assert forall|id: u128|
                    final(self).user_at(id) == if id == user.uuid {
                        Some(user@)
                    } else {
                        old(self).user_at(id)
                    } by {
                    lemma_lookup_insert(pre.keys(), pre.vals(), i, key@, value@, u128_be(id));
                    if id != user.uuid {
                        if u128_be(id) == key@ {
                            lemma_u128_be_inj(id, user.uuid);
                        }
                    }
                }
            }
        }
        Ok(())
    }

    /// Point lookup of a room; absent identifiers are `NotFound`.
    pub fn find_room(&self, room_uuid: u128) -> (r: Result<Room, DbError>)
        requires
            self.wf(),
        ensures
            match self.room_at(room_uuid) {
                Some(m) => r matches Ok(x) && x@ == m,
                None => r matches Err(e) && e == DbError::NotFound,
            },
    {
        let key = u128_to_be(room_uuid);
        match self.rooms.get(&key) {
            None => Err(DbError::NotFound),
            Some(v) => {
                proof {
                    let i = first_geq(self.rooms.keys(), key@);
                    lemma_first_geq_bounds(self.rooms.keys(), key@);
                    assert(self.rooms.value_of(key@) is Some);
                    assert(i < self.rooms.len() && self.rooms.keys()[i] == key@);
                    assert(room_entry_ok(self.rooms.keys()[i], self.rooms.vals()[i]));
                }
                match decode_room(v) {
                    Some(x) => Ok(x),
                    None => {
                        proof {
                            assert(false);
                        }
                        Err(DbError::CorruptRecord)
                    },
                }
            },
        }
    }

    /// Upsert a room, keyed by its identifier.
    pub fn save_room(&mut self, room: &Room) -> (r: Result<(), DbError>)
        requires
            old(self).wf(),
        ensures
            final(self).wf(),
            r is Ok,
            forall|id: u128| final(self).room_at(id) == if id == room.uuid {
                Some(room@)
            } else {
                old(self).room_at(id)
            },
            final(self).users == old(self).users,
            final(self).messages == old(self).messages,
    {
        let key = u128_to_be(room.uuid);
        let value = encode_room(room);
        let ghost pre = self.rooms;
        proof {
            lemma_room_round_trip(room@);
        }
        self.rooms.put(key, value);
        proof {
            let i = first_geq(pre.keys(), key@);
            lemma_first_geq_bounds(pre.keys(), key@);
            if i < pre.len() && pre.key_at(i) == key@ {
                assert(rooms_ok(self.rooms)) by {
                    assert(forall|j: int|
                        0 <= j < self.rooms.len() && j != i ==> self.rooms.keys()[j]
                            == pre.keys()[j] && self.rooms.vals()[j] == pre.vals()[j]);
                    assert(self.rooms.vals()[i] == spec_enc_room(room@));
                    assert(room_entry_ok(self.rooms.keys()[i], self.rooms.vals()[i]));
                }
                assert forall|id: u128|
                    final(self).room_at(id) == if id == room.uuid {
                        Some(room@)
                    } else {
                        old(self).room_at(id)
                    } by {
                    lemma_lookup_update(pre.keys(), pre.vals(), i, value@, u128_be(id));
                    if id == room.uuid {
                    } else {
                        if u128_be(id) == pre.keys()[i] {
                            assert(room_entry_ok(pre.keys()[i], pre.vals()[i]));
                            lemma_u128_be_inj(id, room.uuid);
                            assert(false);
                        }
                    }
                }
            } else {
                assert(rooms_ok(self.rooms)) by {
                    pre.keys().insert_ensures(i, key@);
                    pre.vals().insert_ensures(i, value@);
                    assert(forall|j: int|
                        0 <= j < i ==> self.rooms.keys()[j] == pre.keys()[j]
                            && self.rooms.vals()[j] == pre.vals()[j]);
                    assert(forall|j: int|
                        i < j < self.rooms.len() ==> self.rooms.keys()[j] == pre.keys()[j - 1]
                            && self.rooms.vals()[j] == pre.vals()[j - 1]);
                    assert(room_entry_ok(self.rooms.keys()[i], self.rooms.vals()[i]));
                }
                assert forall|id: u128|
                    final(self).room_at(id) == if id == room.uuid {
                        Some(room@)
                    } else {
                        old(self).room_at(id)
                    } by {
                    lemma_lookup_insert(pre.keys(), pre.vals(), i, key@, value@, u128_be(id));
                    if id != room.uuid {
                        if u128_be(id) == key@ {
                            lemma_u128_be_inj(id, room.uuid);
                        }
                    }
                }
            }
        }
        Ok(())
    }
}

/// `a` sorts before `b` in a room's history: newer first, ties broken by
/// ascending message identifier.
pub open spec fn msg_lt(a: MessageModel, b: MessageModel) -> bool {
    a.created.millis > b.created.millis || (a.created.millis == b.created.millis && a.uuid
        < b.uuid)
}

/// Where a message stands in a room's newest-first history.
pub open spec fn msg_pos(s: Seq<MessageModel>, m: MessageModel) -> int
    decreases s.len(),
{
    if s.len() == 0 {
        0
    } else if msg_lt(s[0], m) {
        1 + msg_pos(s.skip(1), m)
    } else {
        0
    }
}

/// Where a page resumed at cursor time `t` starts: past every message
/// strictly newer than `t`.
pub open spec fn page_start(s: Seq<MessageModel>, t: u128) -> int
    decreases s.len(),
{
    if s.len() == 0 {
        0
    } else if s[0].created.millis > t {
        1 + page_start(s.skip(1), t)
    } else {
        0
    }
}

/// One page of a history: up to `limit` records from `start`, and the
/// continuation cursor — the creation time of the next record, where one
/// exists beyond the page.
pub open spec fn page_of(s: Seq<MessageModel>, limit: int, start: int) -> (
    Seq<MessageModel>,
    Option<Timestamp>,
) {
    let stop = if start + limit < s.len() {
        start + limit
    } else {
        s.len() as int
    };
    (
        s.subrange(start, stop),
        if start + limit < s.len() {
            Some(s[start + limit].created)
        } else {
            None
        },
    )
}

pub proof fn lemma_msg_pos_bounds(s: Seq<MessageModel>, m: MessageModel)
    ensures
        0 <= msg_pos(s, m) <= s.len(),
        forall|j: int| 0 <= j < msg_pos(s, m) ==> msg_lt(s[j], m),
        msg_pos(s, m) < s.len() ==> !msg_lt(s[msg_pos(s, m)], m),
    decreases s.len(),
{
    if s.len() > 0 && msg_lt(s[0], m) {
        lemma_msg_pos_bounds(s.skip(1), m);
        assert forall|j: int| 0 <= j < msg_pos(s, m) implies msg_lt(s[j], m) by {
            if j > 0 {
                assert(s.skip(1)[j - 1] == s[j]);
                assert(msg_lt(s.skip(1)[j - 1], m));
            }
        }
        if msg_pos(s, m) < s.len() {
            assert(s.skip(1)[msg_pos(s, m) - 1] == s[msg_pos(s, m)]);
        }
    }
}

pub proof fn lemma_msg_pos_char(s: Seq<MessageModel>, m: MessageModel, c: int)
    requires
        0 <= c <= s.len(),
        forall|j: int| 0 <= j < c ==> msg_lt(s[j], m),
        c < s.len() ==> !msg_lt(s[c], m),
    ensures
        msg_pos(s, m) == c,
{
    lemma_msg_pos_bounds(s, m);
    let p = msg_pos(s, m);
    if p < c {
        assert(msg_lt(s[p], m));
        assert(false);
    }
    if p > c {
        assert(msg_lt(s[c], m));
        assert(false);
    }
}

pub proof fn lemma_page_start_bounds(s: Seq<MessageModel>, t: u128)
    ensures
        0 <= page_start(s, t) <= s.len(),
        forall|j: int| 0 <= j < page_start(s, t) ==> s[j].created.millis > t,
        page_start(s, t) < s.len() ==> !(s[page_start(s, t)].created.millis > t),
    decreases s.len(),
{
    if s.len() > 0 && s[0].created.millis > t {
        lemma_page_start_bounds(s.skip(1), t);
        assert forall|j: int| 0 <= j < page_start(s, t) implies s[j].created.millis > t by {
            if j > 0 {
                assert(s.skip(1)[j - 1] == s[j]);
            }
        }
        if page_start(s, t) < s.len() {
            assert(s.skip(1)[page_start(s, t) - 1] == s[page_start(s, t)]);
        }
    }
}

pub proof fn lemma_page_start_char(s: Seq<MessageModel>, t: u128, c: int)
    requires
        0 <= c <= s.len(),
        forall|j: int| 0 <= j < c ==> s[j].created.millis > t,
        c < s.len() ==> !(s[c].created.millis > t),
    ensures
        page_start(s, t) == c,
{
    lemma_page_start_bounds(s, t);
    let p = page_start(s, t);
    if p < c {
        assert(false);
    }
    if p > c {
        assert(s[c].created.millis > t);
        assert(false);
    }
}

/// What a successful history read returns: exactly the page of the room's
/// newest-first sequence from `start`, and its continuation cursor.
pub open spec fn find_ok(
    s: Seq<MessageModel>,
    limit: int,
    start: int,
    r: Result<(Vec<Message>, Option<Timestamp>), DbError>,
) -> bool {
    match r {
        Ok(pr) => {
            let pg = page_of(s, limit, start);
            &&& pr.0@.len() == pg.0.len()
            &&& (forall|j: int| 0 <= j < pg.0.len() ==> pr.0@[j]@ == pg.0[j])
            &&& pr.1 == pg.1
        },
        Err(_) => false,
    }
}

impl RocksDb {
    /// What holds of position `j` of a room's key block.
    pub open spec fn block_entry_ok(self, room: u128, j: int) -> bool {
        let m = self.room_msgs(room)[j];
        &&& dec_msg(self.messages.vals()[self.room_lo(room) + j]) == Some(m)
        &&& !m.created.before_epoch
        &&& self.messages.keys()[self.room_lo(room) + j] == spec_msg_key(
            room,
            rank_of(m.created.millis),
            m.uuid,
        )
    }

    /// A room's records form one contiguous block of the messages column,
    /// and each block entry decodes and carries this room's key.
    pub proof fn lemma_room_block(self, room: u128)
        requires
            self.wf(),
        ensures
            0 <= self.room_lo(room) <= self.room_hi(room) <= self.messages.len(),
            forall|j: int|
                0 <= j < self.room_msgs(room).len() ==> #[trigger] self.block_entry_ok(room, j),
    {
        let keys = self.messages.keys();
        let lo = self.room_lo(room);
        let hi = self.room_hi(room);
        lemma_lex_concat(
            u128_be(room),
            u128_be(room),
            seq![crate::keys::KEY_SEP],
            seq![crate::keys::ROOM_END_BYTE],
        );
        lemma_lex_irrefl(u128_be(room));
        assert(lex_lt(seq![crate::keys::KEY_SEP], seq![crate::keys::ROOM_END_BYTE]));
        assert(lex_lt(spec_room_prefix(room), spec_room_end(room)));
        lemma_first_geq_mono(keys, spec_room_prefix(room), spec_room_end(room));
        lemma_first_geq_bounds(keys, spec_room_prefix(room));
        lemma_first_geq_bounds(keys, spec_room_end(room));
        lemma_first_geq_all(keys, spec_room_prefix(room));
        assert forall|j: int|
            0 <= j < self.room_msgs(room).len() implies #[trigger] self.block_entry_ok(
            room,
            j,
        ) by {
            let p = lo + j;
            assert(0 <= p < self.messages.len());
            assert(msg_entry_ok(keys[p], self.messages.vals()[p]));
            let m0 = dec_msg(self.messages.vals()[p])->Some_0;
            let r0 = choose|r: u128| keys[p] == spec_msg_key(r, rank_of(m0.created.millis), m0.uuid);
            assert(keys[p] == spec_msg_key(r0, rank_of(m0.created.millis), m0.uuid));
            assert(!lex_lt(keys[p], spec_room_prefix(room)));
            assert(lex_lt(keys[p], spec_room_end(room)));
            lemma_lex_total(spec_room_prefix(room), keys[p]);
            lemma_key_room_range(room, r0, rank_of(m0.created.millis), m0.uuid);
            assert(r0 == room);
            assert(self.room_msgs(room)[j] == m0);
        }
    }

    /// Persist a message under its room, keyed per the reverse-rank scheme.
    /// A creation time before the epoch cannot be encoded and is refused;
    /// otherwise the message enters its room's history at its rank position,
    /// and every other room's history is untouched. A record under the very
    /// same key — same room, same millisecond, same identifier — is
    /// overwritten.
    #[verifier::rlimit(100)]
    #[verifier::spinoff_prover]
    pub fn save_message(&mut self, room: &Room, message: &Message) -> (r: Result<(), DbError>)
        requires
            old(self).wf(),
        ensures
            final(self).wf(),
            final(self).users == old(self).users,
            final(self).rooms == old(self).rooms,
            message.created.before_epoch ==> (r matches Err(e) && e == DbError::EncodingError
                && *final(self) == *old(self)),
            !message.created.before_epoch ==> r is Ok && ({
                let s = old(self).room_msgs(room.uuid);
                let p = msg_pos(s, message@);
                &&& (forall|r2: u128|
                    r2 != room.uuid ==> #[trigger] final(self).room_msgs(r2) == old(self).room_msgs(
                        r2,
                    ))
                &&& if p < s.len() && s[p].created.millis == message.created.millis && s[p].uuid
                    == message.uuid {
                    final(self).room_msgs(room.uuid) == s.update(p, message@)
                } else {
                    final(self).room_msgs(room.uuid) == s.insert(p, message@)
                }
            }),
    {
        if message.created.before_epoch {
            return Err(DbError::EncodingError);
        }
        let rank: u128 = u128::MAX - message.created.millis;
        let key = msg_key_bytes(room.uuid, rank, message.uuid);
        let value = encode_message(message);
        let ghost pre = *self;
        let ghost keys = self.messages.keys();
        let ghost vals = self.messages.vals();
        let ghost i = first_geq(keys, key@);
        let ghost lo = self.room_lo(room.uuid);
        let ghost hi = self.room_hi(room.uuid);
        let ghost s = self.room_msgs(room.uuid);
        proof {
            lemma_msg_round_trip(message@);
            pre.lemma_room_block(room.uuid);
            lemma_first_geq_bounds(keys, key@);
            lemma_first_geq_all(keys, spec_room_end(room.uuid));
            lemma_key_room_range(room.uuid, room.uuid, rank, message.uuid);
            lemma_first_geq_mono(keys, spec_room_prefix(room.uuid), key@);
            lemma_first_geq_mono(keys, key@, spec_room_end(room.uuid));
            assert(lo <= i <= hi);
            // Before the put position, block entries sort strictly newer.
            assert forall|j: int| 0 <= j < i - lo implies msg_lt(s[j], message@) by {
                assert(pre.block_entry_ok(room.uuid, j));
                assert(lex_lt(keys[lo + j], key@));
                lemma_msg_key_order(
                    room.uuid,
                    rank_of(s[j].created.millis),
                    s[j].uuid,
                    rank,
                    message.uuid,
                );
            }
        }
        self.messages.put(key, value);
        proof {
            let mnew = self.messages;
            if i < pre.messages.len() && pre.messages.key_at(i) == key@ {
                // Same key: the record is overwritten in place.
                assert(i < hi) by {
                    assert(lex_lt(keys[i], spec_room_end(room.uuid)));
                }
                assert(pre.room_msgs(room.uuid).len() == hi - lo);
                assert(0 <= i - lo < pre.room_msgs(room.uuid).len());
                assert(pre.block_entry_ok(room.uuid, i - lo));
                assert(rank_of(s[i - lo].created.millis) == rank && s[i - lo].uuid
                    == message.uuid) by {
                    lemma_msg_key_order(
                        room.uuid,
                        rank_of(s[i - lo].created.millis),
                        s[i - lo].uuid,
                        rank,
                        message.uuid,
                    );
                    lemma_msg_key_order(
                        room.uuid,
                        rank,
                        message.uuid,
                        rank_of(s[i - lo].created.millis),
                        s[i - lo].uuid,
                    );
                    lemma_lex_irrefl(keys[i]);
                }
                assert(s[i - lo].created.millis == message.created.millis);
                assert(!msg_lt(s[i - lo], message@));
                lemma_msg_pos_char(s, message@, i - lo);
                assert(msgs_ok(mnew)) by {
                    assert(forall|j: int|
                        0 <= j < mnew.len() && j != i ==> mnew.keys()[j] == keys[j]
                            && mnew.vals()[j] == vals[j]);
                    assert(mnew.vals()[i] == spec_enc_msg(message@));
                    assert(msg_entry_ok(mnew.keys()[i], mnew.vals()[i])) by {
                        assert(rank == rank_of(message@.created.millis));
                        assert(mnew.keys()[i] == spec_msg_key(
                            room.uuid,
                            rank_of(message@.created.millis),
                            message@.uuid,
                        ));
                    }
                }
                // Every room's bounds are unchanged; only this room's block
                // content changes, at the one position.
                assert(self.room_msgs(room.uuid) =~= s.update(i - lo, message@)) by {
                    assert(self.room_lo(room.uuid) == lo && self.room_hi(room.uuid) == hi);
                }
                assert forall|r2: u128|
                    r2 != room.uuid implies #[trigger] self.room_msgs(r2) == pre.room_msgs(r2) by {
                    pre.lemma_room_block(r2);
                    let lo2 = pre.room_lo(r2);
                    let hi2 = pre.room_hi(r2);
                    assert(self.room_lo(r2) == lo2 && self.room_hi(r2) == hi2);
                    assert forall|j: int|
                        0 <= j < pre.room_msgs(r2).len() implies self.room_msgs(r2)[j]
                            == #[trigger] pre.room_msgs(r2)[j] by {
                        assert(pre.block_entry_ok(r2, j));
                        if lo2 + j == i {
                            lemma_msg_key_room_order(
                                r2,
                                rank_of(pre.room_msgs(r2)[j].created.millis),
                                pre.room_msgs(r2)[j].uuid,
                                room.uuid,
                                rank,
                                message.uuid,
                            );
                            lemma_msg_key_room_order(
                                room.uuid,
                                rank,
                                message.uuid,
                                r2,
                                rank_of(pre.room_msgs(r2)[j].created.millis),
                                pre.room_msgs(r2)[j].uuid,
                            );
                            lemma_lex_irrefl(keys[i]);
                            assert(false);
                        }
                    }
                    assert(self.room_msgs(r2) =~= pre.room_msgs(r2));
                }
            } else {
                // Fresh key: it enters at its sorted position.
                assert(i == keys.len() || keys[i] != key@);
                keys.insert_ensures(i, key@);
                vals.insert_ensures(i, value@);
                lemma_first_geq_sorted_insert(keys, i, key@);
                assert(msgs_ok(mnew)) by {
                    assert(forall|j: int|
                        0 <= j < i ==> mnew.keys()[j] == keys[j] && mnew.vals()[j] == vals[j]);
                    assert(forall|j: int|
                        i < j < mnew.len() ==> mnew.keys()[j] == keys[j - 1] && mnew.vals()[j]
                            == vals[j - 1]);
                    assert(msg_entry_ok(mnew.keys()[i], mnew.vals()[i])) by {
                        assert(rank == rank_of(message@.created.millis));
                        assert(mnew.keys()[i] == spec_msg_key(
                            room.uuid,
                            rank_of(message@.created.millis),
                            message@.uuid,
                        ));
                    }
                }
                // The room's bounds: the lower one stays, the upper one
                // moves past the new record.
                lemma_first_geq_insert(keys, i, key@, spec_room_prefix(room.uuid));
                lemma_first_geq_insert(keys, i, key@, spec_room_end(room.uuid));
                assert(!lex_lt(key@, spec_room_prefix(room.uuid))) by {
                    lemma_lex_asym(spec_room_prefix(room.uuid), key@);
                    lemma_lex_irrefl(key@);
                }
                assert(self.room_lo(room.uuid) == lo);
                assert(self.room_hi(room.uuid) == hi + 1);
                // The new block is the old one with the record inserted.
                assert(i <= hi);
                assert(self.room_msgs(room.uuid) =~= s.insert(i - lo, message@)) by {
                    s.insert_ensures(i - lo, message@);
                    assert forall|j: int|
                        0 <= j < self.room_msgs(room.uuid).len() implies self.room_msgs(
                        room.uuid,
                    )[j] == s.insert(i - lo, message@)[j] by {
                        if lo + j < i {
                            assert(mnew.vals()[lo + j] == vals[lo + j]);
                        } else if lo + j == i {
                            assert(mnew.vals()[lo + j] == value@);
                        } else {
                            assert(mnew.vals()[lo + j] == vals[lo + j - 1]);
                        }
                    }
                }
                // The insert position is the message's rank position.
                if i < hi {
                    assert(pre.block_entry_ok(room.uuid, i - lo));
                    assert(!msg_lt(s[i - lo], message@)) by {
                        assert(!lex_lt(keys[i], key@));
                        lemma_msg_key_order(
                            room.uuid,
                            rank_of(s[i - lo].created.millis),
                            s[i - lo].uuid,
                            rank,
                            message.uuid,
                        );
                    }
                }
                lemma_msg_pos_char(s, message@, i - lo);
                // No record of this room carries the same key.
                if i - lo < s.len() && s[i - lo].created.millis == message.created.millis && s[i
                    - lo].uuid == message.uuid {
                    assert(pre.block_entry_ok(room.uuid, i - lo));
                    assert(keys[i] == key@);
                    assert(false);
                }
                // Other rooms: both bounds shift together, around the new
                // record, and their contents stay word for word.
                assert forall|r2: u128|
                    r2 != room.uuid implies #[trigger] self.room_msgs(r2) == pre.room_msgs(r2) by {
                    pre.lemma_room_block(r2);
                    let lo2 = pre.room_lo(r2);
                    let hi2 = pre.room_hi(r2);
                    lemma_key_room_side(r2, room.uuid, rank, message.uuid);
                    lemma_first_geq_insert(keys, i, key@, spec_room_prefix(r2));
                    lemma_first_geq_insert(keys, i, key@, spec_room_end(r2));
                    if room.uuid < r2 {
                        lemma_first_geq_mono(keys, key@, spec_room_prefix(r2));
                        assert(i <= lo2);
                        assert(self.room_lo(r2) == lo2 + 1 && self.room_hi(r2) == hi2 + 1);
                        assert forall|j: int|
                            0 <= j < pre.room_msgs(r2).len() implies self.room_msgs(r2)[j]
                                == #[trigger] pre.room_msgs(r2)[j] by {
                            assert(lo2 + 1 + j > i);
                            assert(self.messages.vals()[lo2 + 1 + j] == vals[lo2 + j]);
                        }
                        assert(self.room_msgs(r2) =~= pre.room_msgs(r2));
                    } else {
                        assert(!lex_lt(key@, spec_room_end(r2)));
                        lemma_lex_total(spec_room_end(r2), key@);
                        lemma_first_geq_mono(keys, spec_room_end(r2), key@);
                        assert(hi2 <= i);
                        assert(self.room_lo(r2) == lo2 && self.room_hi(r2) == hi2);
                        assert forall|j: int|
                            0 <= j < pre.room_msgs(r2).len() implies self.room_msgs(r2)[j]
                                == #[trigger] pre.room_msgs(r2)[j] by {
                            assert(lo2 + j < hi2 <= i);
                            assert(self.messages.vals()[lo2 + j] == vals[lo2 + j]);
                        }
                        assert(self.room_msgs(r2) =~= pre.room_msgs(r2));
                    }
                }
            }
        }
        Ok(())
    }

    /// Up to `limit` messages of a room, newest first. With no cursor the
    /// page starts at the newest record; with cursor time `t` it starts at
    /// the first record no newer than `t` (the record at `t` included). The
    /// continuation cursor carries the creation time of the record just past
    /// the page, or nothing where the page reached the end of the room's
    /// history. An empty room yields an empty page and no cursor. A cursor
    /// before the epoch cannot be turned into a rank and is refused.
    #[verifier::rlimit(100)]
    #[verifier::spinoff_prover]
    pub fn find_messages(&self, room_uuid: u128, limit: usize, at: Option<Timestamp>) -> (r:
        Result<(Vec<Message>, Option<Timestamp>), DbError>)
        requires
            self.wf(),
        ensures
            ({
                let s = self.room_msgs(room_uuid);
                match at {
                    Some(t) => if t.before_epoch {
                        r matches Err(e) && e == DbError::EncodingError
                    } else {
                        find_ok(s, limit as int, page_start(s, t.millis), r)
                    },
                    None => find_ok(s, limit as int, 0, r),
                }
            }),
    {
        let ghost s = self.room_msgs(room_uuid);
        let ghost keys = self.messages.keys();
        let ghost lo = self.room_lo(room_uuid);
        let ghost hi = self.room_hi(room_uuid);
        let start_key: Vec<u8> = match &at {
            Some(t) => {
                if t.before_epoch {
                    return Err(DbError::EncodingError);
                }
                cursor_key_bytes(room_uuid, u128::MAX - t.millis)
            },
            None => room_prefix_bytes(room_uuid),
        };
        let ghost start: int = match at {
            Some(t) => page_start(s, t.millis),
            None => 0,
        };
        let i0 = self.messages.lower_bound(&start_key);
        proof {
            self.lemma_room_block(room_uuid);
            lemma_first_geq_all(keys, spec_room_end(room_uuid));
            match at {
                Some(t) => {
                    let rk = rank_of(t.millis);
                    assert(start_key@ == spec_cursor_key(room_uuid, rk));
                    lemma_cursor_in_range(room_uuid, rk);
                    lemma_first_geq_mono(keys, spec_room_prefix(room_uuid), start_key@);
                    lemma_first_geq_mono(keys, start_key@, spec_room_end(room_uuid));
                    assert(lo <= i0 <= hi);
                    lemma_first_geq_bounds(keys, start_key@);
                    assert forall|j: int| 0 <= j < i0 - lo implies s[j].created.millis
                        > t.millis by {
                        assert(self.block_entry_ok(room_uuid, j));
                        assert(lex_lt(keys[lo + j], start_key@));
                        lemma_cursor_key_order(
                            room_uuid,
                            rk,
                            rank_of(s[j].created.millis),
                            s[j].uuid,
                        );
                    }
                    if i0 - lo < s.len() {
                        assert(self.block_entry_ok(room_uuid, i0 - lo));
                        assert(!lex_lt(keys[i0 as int], start_key@));
                        lemma_cursor_key_order(
                            room_uuid,
                            rk,
                            rank_of(s[i0 - lo].created.millis),
                            s[i0 - lo].uuid,
                        );
                        assert(!(s[i0 - lo].created.millis > t.millis));
                    }
                    lemma_page_start_char(s, t.millis, i0 - lo);
                },
                None => {
                    assert(start_key@ == spec_room_prefix(room_uuid));
                    assert(i0 == lo);
                },
            }
            assert(start == i0 - lo);
        }
        let end_key = room_end_bytes(room_uuid);
        let mut out: Vec<Message> = Vec::new();
        let mut idx = i0;
        while idx < self.messages.count() && bytes_lt(self.messages.key_ref(idx), &end_key)
            invariant
                self.wf(),
                s == self.room_msgs(room_uuid),
                keys == self.messages.keys(),
                lo == self.room_lo(room_uuid),
                hi == self.room_hi(room_uuid),
                end_key@ == spec_room_end(room_uuid),
                0 <= lo <= i0 <= idx <= hi <= self.messages.len(),
                s.len() == hi - lo,
                start == i0 - lo,
                out@.len() == idx - i0,
                out@.len() <= limit,
                forall|j: int| 0 <= j < out@.len() ==> out@[j]@ == s[start + j],
                match at {
                    Some(t) => !t.before_epoch && start == page_start(s, t.millis),
                    None => start == 0,
                },
            decreases self.messages.len() - idx,
        {
            proof {
                self.lemma_room_block(room_uuid);
                lemma_first_geq_all(keys, spec_room_end(room_uuid));
                assert(idx < hi) by {
                    if idx >= hi {
                        assert(!lex_lt(keys[idx as int], spec_room_end(room_uuid)));
                        assert(false);
                    }
                }
                assert(self.block_entry_ok(room_uuid, idx - lo));
            }
            let v = self.messages.val_ref(idx);
            match decode_message(v) {
                None => {
                    proof {
                        assert(false);
                    }
                    return Err(DbError::CorruptRecord);
                },
                Some(msg) => {
                    if out.len() == limit {
                        proof {
                            assert(msg@ == s[idx - lo]);
                            assert(idx - lo == start + limit);
                        }
                        return Ok((out, Some(msg.created)));
                    }
                    proof {
                        assert(msg@ == s[idx - lo]);
                    }
                    out.push(msg);
                    idx += 1;
                },
            }
        }
        proof {
            lemma_first_geq_bounds(keys, spec_room_end(room_uuid));
            assert(idx == hi) by {
                if idx < hi {
                    assert(lex_lt(keys[idx as int], spec_room_end(room_uuid)));
                    assert(false);
                }
            }
            assert(out@.len() == s.len() - start);
        }
        Ok((out, None))
    }

}

} // verus!
