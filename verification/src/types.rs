//! The entity model: users, rooms and messages, their identity and
//! construction rules. Identifiers are 128-bit values minted at creation;
//! creation times are milliseconds since the Unix epoch, with a flag for a
//! clock that stands before it.

use vstd::prelude::*;

use crate::sys::{fresh_id, now_timestamp};

verus! {

/// A user's public address.
pub type Address = String;

/// An instant: milliseconds since the Unix epoch. `before_epoch` records a
/// clock reading earlier than the epoch; `millis` is then the distance back.
#[derive(Clone, Copy, Debug, PartialEq, Eq, Structural, Hash)]
pub struct Timestamp {
    pub before_epoch: bool,
    pub millis: u128,
}

/// The closed set of message kinds.
#[derive(Clone, Copy, Debug, PartialEq, Eq, Structural, Hash)]
pub enum MessageType {
    Text,
    File,
    Audio,
    Video,
}

/// A message's payload; every kind but text carries a reference string.
#[derive(Clone, Debug)]
pub enum Content {
    Text(String),
    File(String),
    Audio(String),
    Video(String),
}

/// The mathematical value of a `Content`.
pub enum ContentModel {
    Text(Seq<char>),
    File(Seq<char>),
    Audio(Seq<char>),
    Video(Seq<char>),
}

impl View for Content {
    type V = ContentModel;

    open spec fn view(&self) -> ContentModel {
        match self {
            Content::Text(s) => ContentModel::Text(s@),
            Content::File(s) => ContentModel::File(s@),
            Content::Audio(s) => ContentModel::Audio(s@),
            Content::Video(s) => ContentModel::Video(s@),
        }
    }
}

/// A participant. Two `User` records with the same identifier are the same
/// user, whatever their other fields hold.
#[derive(Clone, Debug)]
pub struct User {
    pub uuid: u128,
    pub address: Address,
    pub created: Timestamp,
}

/// The mathematical value of a `User`.
pub struct UserModel {
    pub uuid: u128,
    pub address: Seq<char>,
    pub created: Timestamp,
}

impl View for User {
    type V = UserModel;

    open spec fn view(&self) -> UserModel {
        UserModel { uuid: self.uuid, address: self.address@, created: self.created }
    }
}

impl PartialEq for User {
    /// Equality is by identifier alone, not by address or creation time.
    fn eq(&self, other: &Self) -> (r: bool) {
        self.uuid == other.uuid
    }
}

impl vstd::std_specs::cmp::PartialEqSpecImpl for User {
    open spec fn obeys_eq_spec() -> bool {
        true
    }

    open spec fn eq_spec(&self, other: &User) -> bool {
        self.uuid == other.uuid
    }
}

impl Eq for User {}

impl User {
    /// Mint a new user: a fresh identifier, the given address, the time now.
    pub fn new(address: Address) -> (r: User)
        ensures
            r@.address == address@,
    {
        User { uuid: fresh_id(), address, created: now_timestamp() }
    }
}

/// A chat room. The creating user starts as its sole owner and sole member.
#[derive(Clone, Debug)]
pub struct Room {
    pub uuid: u128,
    pub name: String,
    pub created: Timestamp,
    pub owners: Vec<u128>,
    pub members: Vec<u128>,
}

/// The mathematical value of a `Room`.
pub struct RoomModel {
    pub uuid: u128,
    pub name: Seq<char>,
    pub created: Timestamp,
    pub owners: Seq<u128>,
    pub members: Seq<u128>,
}

impl View for Room {
    type V = RoomModel;

    open spec fn view(&self) -> RoomModel {
        RoomModel {
            uuid: self.uuid,
            name: self.name@,
            created: self.created,
            owners: self.owners@,
            members: self.members@,
        }
    }
}

/// No identifier occurs twice: the sequence stands for a set.
pub open spec fn unique_ids(s: Seq<u128>) -> bool {
    forall|i: int, j: int| 0 <= i < j < s.len() ==> s[i] != s[j]
}

impl RoomModel {
    /// Owners and members each hold pairwise distinct identifiers.
    pub open spec fn wf(self) -> bool {
        unique_ids(self.owners) && unique_ids(self.members)
    }
}

impl Room {
    /// Mint a new room: a fresh identifier, the given name, the time now,
    /// and the creating user as sole owner and sole member.
    pub fn new(name: &str, by: &User) -> (r: Room)
        ensures
            r@.name == name@,
            r@.owners == seq![by.uuid],
            r@.members == seq![by.uuid],
            r@.wf(),
    {
        let mut owners: Vec<u128> = Vec::new();
        owners.push(by.uuid);
        let mut members: Vec<u128> = Vec::new();
        members.push(by.uuid);
        let r = Room {
            uuid: fresh_id(),
            name: name.to_owned(),
            created: now_timestamp(),
            owners,
            members,
        };
        proof {
            assert(r@.owners =~= seq![by.uuid]);
            assert(r@.members =~= seq![by.uuid]);
        }
        r
    }
}

/// A message, immutable once created, keyed by its room and creation time.
#[derive(Clone, Debug)]
pub struct Message {
    pub uuid: u128,
    pub message_type: MessageType,
    pub created: Timestamp,
    pub owner: u128,
    pub content: Content,
}

/// The mathematical value of a `Message`.
pub struct MessageModel {
    pub uuid: u128,
    pub message_type: MessageType,
    pub created: Timestamp,
    pub owner: u128,
    pub content: ContentModel,
}

impl View for Message {
    type V = MessageModel;

    open spec fn view(&self) -> MessageModel {
        MessageModel {
            uuid: self.uuid,
            message_type: self.message_type,
            created: self.created,
            owner: self.owner,
            content: self.content@,
        }
    }
}

impl MessageModel {
    /// The kind tag and the payload variant agree.
    pub open spec fn wf(self) -> bool {
        match self.content {
            ContentModel::Text(_) => self.message_type == MessageType::Text,
            ContentModel::File(_) => self.message_type == MessageType::File,
            ContentModel::Audio(_) => self.message_type == MessageType::Audio,
            ContentModel::Video(_) => self.message_type == MessageType::Video,
        }
    }
}

impl Message {
    /// Mint a new text message: a fresh identifier, the time now, the given
    /// sender and text.
    pub fn new_text(text: &str, sender: &User) -> (r: Message)
        ensures
            r@.message_type == MessageType::Text,
            r@.content == ContentModel::Text(text@),
            r@.owner == sender.uuid,
            r@.wf(),
    {
        Message {
            uuid: fresh_id(),
            message_type: MessageType::Text,
            created: now_timestamp(),
            owner: sender.uuid,
            content: Content::Text(text.to_owned()),
        }
    }
}

} // verus!
