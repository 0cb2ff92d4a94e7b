//! The storage abstraction: the capability set any backing engine must
//! provide, decoupling callers from the concrete engine. Each operation's
//! contract is stated over the trait's own model — an invariant, the stored
//! users and rooms, and each room's newest-first history — and the concrete
//! engine of `store` is proved to satisfy it.

use vstd::prelude::*;

use crate::store::{
    find_ok, msg_pos, page_start, ConfigName, ConfigValue, DbError, RocksDb,
};
use crate::types::{Message, MessageModel, Room, RoomModel, Timestamp, User, UserModel};

verus! {

/// What any backing engine must support. `inv` is established by `open` and
/// preserved by every operation; the three model functions say what the
/// store holds.
pub trait DbConnection: Sized {
    /// The engine's well-formedness invariant.
    spec fn inv(&self) -> bool;

    /// The user record held under an identifier, if any.
    spec fn stored_user(&self, id: u128) -> Option<UserModel>;

    /// The room record held under an identifier, if any.
    spec fn stored_room(&self, id: u128) -> Option<RoomModel>;

    /// A room's messages, newest first.
    spec fn history(&self, room: u128) -> Seq<MessageModel>;

    /// Point lookup of a user; an absent identifier is `NotFound`.
    fn find_user(&self, user_uuid: u128) -> (r: Result<User, DbError>)
        requires
            self.inv(),
        ensures
            match self.stored_user(user_uuid) {
                Some(m) => r matches Ok(u) && u@ == m,
                None => r matches Err(e) && e == DbError::NotFound,
            },
    ;

    /// Upsert a user by identifier; rooms and histories are untouched.
    fn save_user(&mut self, user: &User) -> (r: Result<(), DbError>)
        requires
            old(self).inv(),
        ensures
            final(self).inv(),
            r is Ok,
            forall|id: u128| final(self).stored_user(id) == if id == user.uuid {
                Some(user@)
            } else {
                old(self).stored_user(id)
            },
            forall|id: u128| final(self).stored_room(id) == old(self).stored_room(id),
            forall|rm: u128| final(self).history(rm) == old(self).history(rm),
    ;

    /// Point lookup of a room; an absent identifier is `NotFound`.
    fn find_room(&self, room_uuid: u128) -> (r: Result<Room, DbError>)
        requires
            self.inv(),
        ensures
            match self.stored_room(room_uuid) {
                Some(m) => r matches Ok(x) && x@ == m,
                None => r matches Err(e) && e == DbError::NotFound,
            },
    ;

    /// Upsert a room by identifier; users and histories are untouched.
    fn save_room(&mut self, room: &Room) -> (r: Result<(), DbError>)
        requires
            old(self).inv(),
        ensures
            final(self).inv(),
            r is Ok,
            forall|id: u128| final(self).stored_room(id) == if id == room.uuid {
                Some(room@)
            } else {
                old(self).stored_room(id)
            },
            forall|id: u128| final(self).stored_user(id) == old(self).stored_user(id),
            forall|rm: u128| final(self).history(rm) == old(self).history(rm),
    ;

    /// Persist a message under its room at its rank position; a creation
    /// time before the epoch cannot be keyed and is refused; other rooms'
    /// histories, users and rooms are untouched.
    fn save_message(&mut self, room: &Room, message: &Message) -> (r: Result<(), DbError>)
        requires
            old(self).inv(),
        ensures
            final(self).inv(),
            forall|id: u128| final(self).stored_user(id) == old(self).stored_user(id),
            forall|id: u128| final(self).stored_room(id) == old(self).stored_room(id),
            message.created.before_epoch ==> (r matches Err(e) && e == DbError::EncodingError
                && forall|rm: u128| final(self).history(rm) == old(self).history(rm)),
            !message.created.before_epoch ==> r is Ok && ({
                let s = old(self).history(room.uuid);
                let p = msg_pos(s, message@);
                &&& (forall|r2: u128|
                    r2 != room.uuid ==> #[trigger] final(self).history(r2) == old(self).history(
                        r2,
                    ))
                &&& if p < s.len() && s[p].created.millis == message.created.millis && s[p].uuid
                    == message.uuid {
                    final(self).history(room.uuid) == s.update(p, message@)
                } else {
                    final(self).history(room.uuid) == s.insert(p, message@)
                }
            }),
    ;

    /// Up to `limit` messages of a room, newest first, resuming at the
    /// cursor's creation time where one is given; an empty room yields an
    /// empty page and no cursor.
    fn find_messages(&self, room_uuid: u128, limit: usize, at: Option<Timestamp>) -> (r: Result<
        (Vec<Message>, Option<Timestamp>),
        DbError,
    >)
        requires
            self.inv(),
        ensures
            ({
                let s = self.history(room_uuid);
                match at {
                    Some(t) => if t.before_epoch {
                        r matches Err(e) && e == DbError::EncodingError
                    } else {
                        find_ok(s, limit as int, page_start(s, t.millis), r)
                    },
                    None => find_ok(s, limit as int, 0, r),
                }
            }),
    ;
}

/// Opening an engine from a configuration mapping: required options must be
/// present; a fresh or reopened store satisfies the invariant.
pub trait Db: DbConnection {
    fn open(config: &Vec<(ConfigName, ConfigValue)>) -> (r: Result<Self, DbError>)
        ensures
            (exists|i: int| 0 <= i < config@.len() && config@[i].0 == ConfigName::Path) <==> r
                is Ok,
            r matches Ok(db) ==> db.inv(),
            r matches Err(e) ==> e == DbError::OpenError,
    ;
}

impl DbConnection for RocksDb {
    open spec fn inv(&self) -> bool {
        self.wf()
    }

    open spec fn stored_user(&self, id: u128) -> Option<UserModel> {
        self.user_at(id)
    }

    open spec fn stored_room(&self, id: u128) -> Option<RoomModel> {
        self.room_at(id)
    }

    open spec fn history(&self, room: u128) -> Seq<MessageModel> {
        self.room_msgs(room)
    }

    fn find_user(&self, user_uuid: u128) -> (r: Result<User, DbError>) {
        RocksDb::find_user(self, user_uuid)
    }

    fn save_user(&mut self, user: &User) -> (r: Result<(), DbError>) {
        RocksDb::save_user(self, user)
    }

    fn find_room(&self, room_uuid: u128) -> (r: Result<Room, DbError>) {
        RocksDb::find_room(self, room_uuid)
    }

    fn save_room(&mut self, room: &Room) -> (r: Result<(), DbError>) {
        RocksDb::save_room(self, room)
    }

    fn save_message(&mut self, room: &Room, message: &Message) -> (r: Result<(), DbError>) {
        RocksDb::save_message(self, room, message)
    }

    fn find_messages(&self, room_uuid: u128, limit: usize, at: Option<Timestamp>) -> (r: Result<
        (Vec<Message>, Option<Timestamp>),
        DbError,
    >) {
        RocksDb::find_messages(self, room_uuid, limit, at)
    }
}

impl Db for RocksDb {
    fn open(config: &Vec<(ConfigName, ConfigValue)>) -> (r: Result<RocksDb, DbError>) {
        RocksDb::open(config)
    }
}

} // verus!
