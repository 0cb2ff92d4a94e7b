//! The binary record format for stored entities, with an exact round-trip
//! guarantee: decoding an encoded record gives back the record. The wire
//! format is an internal detail of the engine; scalars are little-endian
//! fixed width, strings are a length followed by one 32-bit scalar per
//! character, identifier sets are a length followed by the identifiers.

use vstd::bytes::{
    lemma_auto_spec_u128_to_from_le_bytes, lemma_auto_spec_u32_to_from_le_bytes,
    spec_u128_from_le_bytes, spec_u128_to_le_bytes, spec_u32_from_le_bytes,
    spec_u32_to_le_bytes, u128_from_le_bytes, u128_to_le_bytes, u32_from_le_bytes,
    u32_to_le_bytes,
};
use vstd::prelude::*;
use vstd::slice::slice_subrange;
use vstd::string::StrSliceExecFns;
use vstd::utf8::{char_is_scalar, char_u32_cast, is_scalar};

use crate::types::{
    Content, ContentModel, Message, MessageModel, MessageType, Room, RoomModel, Timestamp, User,
    UserModel,
};

verus! {

// ---------------------------------------------------------------------------
// Specification encoders.
// ---------------------------------------------------------------------------
pub open spec fn enc_u128(x: u128) -> Seq<u8> {
    spec_u128_to_le_bytes(x)
}

pub open spec fn enc_flag(f: bool) -> u8 {
    if f {
        1u8
    } else {
        0u8
    }
}

pub open spec fn enc_ts(t: Timestamp) -> Seq<u8> {
    seq![enc_flag(t.before_epoch)] + enc_u128(t.millis)
}

pub open spec fn enc_char(c: char) -> Seq<u8> {
    spec_u32_to_le_bytes(c as u32)
}

pub open spec fn enc_chars(s: Seq<char>) -> Seq<u8>
    decreases s.len(),
{
    if s.len() == 0 {
        Seq::empty()
    } else {
        enc_char(s[0]) + enc_chars(s.skip(1))
    }
}

pub open spec fn enc_str(s: Seq<char>) -> Seq<u8> {
    enc_u128(s.len() as u128) + enc_chars(s)
}

pub open spec fn enc_ids(s: Seq<u128>) -> Seq<u8>
    decreases s.len(),
{
    if s.len() == 0 {
        Seq::empty()
    } else {
        enc_u128(s[0]) + enc_ids(s.skip(1))
    }
}

pub open spec fn enc_id_list(s: Seq<u128>) -> Seq<u8> {
    enc_u128(s.len() as u128) + enc_ids(s)
}

pub open spec fn kind_tag(k: MessageType) -> u8 {
    match k {
        MessageType::Text => 0u8,
        MessageType::File => 1u8,
        MessageType::Audio => 2u8,
        MessageType::Video => 3u8,
    }
}

pub open spec fn content_tag(c: ContentModel) -> u8 {
    match c {
        ContentModel::Text(_) => 0u8,
        ContentModel::File(_) => 1u8,
        ContentModel::Audio(_) => 2u8,
        ContentModel::Video(_) => 3u8,
    }
}

pub open spec fn content_text(c: ContentModel) -> Seq<char> {
    match c {
        ContentModel::Text(s) => s,
        ContentModel::File(s) => s,
        ContentModel::Audio(s) => s,
        ContentModel::Video(s) => s,
    }
}

pub open spec fn spec_enc_user(u: UserModel) -> Seq<u8> {
    enc_u128(u.uuid) + enc_ts(u.created) + enc_str(u.address)
}

pub open spec fn spec_enc_room(r: RoomModel) -> Seq<u8> {
    enc_u128(r.uuid) + enc_ts(r.created) + enc_str(r.name) + enc_id_list(r.owners) + enc_id_list(
        r.members,
    )
}

pub open spec fn spec_enc_msg(m: MessageModel) -> Seq<u8> {
    enc_u128(m.uuid) + seq![kind_tag(m.message_type)] + enc_ts(m.created) + enc_u128(m.owner)
        + seq![content_tag(m.content)] + enc_str(content_text(m.content))
}

/// The length fields fit their fixed width.
pub open spec fn user_enc_ok(u: UserModel) -> bool {
    u.address.len() <= u128::MAX
}

pub open spec fn room_enc_ok(r: RoomModel) -> bool {
    r.name.len() <= u128::MAX && r.owners.len() <= u128::MAX && r.members.len() <= u128::MAX
}

pub open spec fn msg_enc_ok(m: MessageModel) -> bool {
    content_text(m.content).len() <= u128::MAX
}

// ---------------------------------------------------------------------------
// Specification decoders. Each returns the value and the count of bytes
// consumed, or nothing where the input does not parse.
// ---------------------------------------------------------------------------
pub open spec fn dec_u128(b: Seq<u8>) -> Option<(u128, int)> {
    if b.len() >= 16 {
        Some((spec_u128_from_le_bytes(b.take(16)), 16int))
    } else {
        None
    }
}

pub open spec fn dec_byte(b: Seq<u8>) -> Option<(u8, int)> {
    if b.len() >= 1 {
        Some((b[0], 1int))
    } else {
        None
    }
}

pub open spec fn dec_ts(b: Seq<u8>) -> Option<(Timestamp, int)> {
    match dec_byte(b) {
        None => None,
        Some((f, p)) => {
            if f != 0 && f != 1 {
                None
            } else {
                match dec_u128(b.skip(p)) {
                    None => None,
                    Some((m, q)) => Some(
                        (Timestamp { before_epoch: f == 1, millis: m }, p + q),
                    ),
                }
            }
        },
    }
}

pub open spec fn dec_char(b: Seq<u8>) -> Option<(char, int)> {
    if b.len() >= 4 {
        if is_scalar(spec_u32_from_le_bytes(b.take(4))) {
            Some(((spec_u32_from_le_bytes(b.take(4)) as char), 4int))
        } else {
            None
        }
    } else {
        None
    }
}

pub open spec fn dec_chars(b: Seq<u8>, n: nat) -> Option<(Seq<char>, int)>
    decreases n,
{
    if n == 0 {
        Some((Seq::empty(), 0int))
    } else {
        match dec_char(b) {
            None => None,
            Some((c, p)) => match dec_chars(b.skip(p), (n - 1) as nat) {
                None => None,
                Some((s, q)) => Some((seq![c] + s, p + q)),
            },
        }
    }
}

pub open spec fn dec_str(b: Seq<u8>) -> Option<(Seq<char>, int)> {
    match dec_u128(b) {
        None => None,
        Some((n, p)) => match dec_chars(b.skip(p), n as nat) {
            None => None,
            Some((s, q)) => Some((s, p + q)),
        },
    }
}

pub open spec fn dec_ids(b: Seq<u8>, n: nat) -> Option<(Seq<u128>, int)>
    decreases n,
{
    if n == 0 {
        Some((Seq::empty(), 0int))
    } else {
        match dec_u128(b) {
            None => None,
            Some((x, p)) => match dec_ids(b.skip(p), (n - 1) as nat) {
                None => None,
                Some((s, q)) => Some((seq![x] + s, p + q)),
            },
        }
    }
}

pub open spec fn dec_id_list(b: Seq<u8>) -> Option<(Seq<u128>, int)> {
    match dec_u128(b) {
        None => None,
        Some((n, p)) => match dec_ids(b.skip(p), n as nat) {
            None => None,
            Some((s, q)) => Some((s, p + q)),
        },
    }
}

pub open spec fn dec_user(b: Seq<u8>) -> Option<UserModel> {
    match dec_u128(b) {
        None => None,
        Some((uuid, p1)) => match dec_ts(b.skip(p1)) {
            None => None,
            Some((ts, p2)) => match dec_str(b.skip(p1 + p2)) {
                None => None,
                Some((addr, p3)) => {
                    if p1 + p2 + p3 == b.len() {
                        Some(UserModel { uuid, address: addr, created: ts })
                    } else {
                        None
                    }
                },
            },
        },
    }
}

pub open spec fn dec_room(b: Seq<u8>) -> Option<RoomModel> {
    match dec_u128(b) {
        None => None,
        Some((uuid, p1)) => match dec_ts(b.skip(p1)) {
            None => None,
            Some((ts, p2)) => match dec_str(b.skip(p1 + p2)) {
                None => None,
                Some((name, p3)) => match dec_id_list(b.skip(p1 + p2 + p3)) {
                    None => None,
                    Some((owners, p4)) => match dec_id_list(b.skip(p1 + p2 + p3 + p4)) {
                        None => None,
                        Some((members, p5)) => {
                            if p1 + p2 + p3 + p4 + p5 == b.len() {
                                Some(
                                    RoomModel { uuid, name, created: ts, owners, members },
                                )
                            } else {
                                None
                            }
                        },
                    },
                },
            },
        },
    }
}

pub open spec fn kind_of_tag(t: u8) -> Option<MessageType> {
    if t == 0 {
        Some(MessageType::Text)
    } else if t == 1 {
        Some(MessageType::File)
    } else if t == 2 {
        Some(MessageType::Audio)
    } else if t == 3 {
        Some(MessageType::Video)
    } else {
        None
    }
}

pub open spec fn content_of_tag(t: u8, s: Seq<char>) -> Option<ContentModel> {
    if t == 0 {
        Some(ContentModel::Text(s))
    } else if t == 1 {
        Some(ContentModel::File(s))
    } else if t == 2 {
        Some(ContentModel::Audio(s))
    } else if t == 3 {
        Some(ContentModel::Video(s))
    } else {
        None
    }
}

pub open spec fn dec_msg(b: Seq<u8>) -> Option<MessageModel> {
    match dec_u128(b) {
        None => None,
        Some((uuid, p1)) => match dec_byte(b.skip(p1)) {
            None => None,
            Some((kt, p2)) => match kind_of_tag(kt) {
                None => None,
                Some(kind) => match dec_ts(b.skip(p1 + p2)) {
                    None => None,
                    Some((ts, p3)) => match dec_u128(b.skip(p1 + p2 + p3)) {
                        None => None,
                        Some((owner, p4)) => match dec_byte(b.skip(p1 + p2 + p3 + p4)) {
                            None => None,
                            Some((ct, p5)) => match dec_str(b.skip(p1 + p2 + p3 + p4 + p5)) {
                                None => None,
                                Some((s, p6)) => match content_of_tag(ct, s) {
                                    None => None,
                                    Some(content) => {
                                        if p1 + p2 + p3 + p4 + p5 + p6 == b.len() {
                                            Some(
                                                MessageModel {
                                                    uuid,
                                                    message_type: kind,
                                                    created: ts,
                                                    owner,
                                                    content,
                                                },
                                            )
                                        } else {
                                            None
                                        }
                                    },
                                },
                            },
                        },
                    },
                },
            },
        },
    }
}

// ---------------------------------------------------------------------------
// Round-trip lemmas: decoding an encoding gives back the value.
// ---------------------------------------------------------------------------
pub proof fn lemma_dec_u128(x: u128, rest: Seq<u8>)
    ensures
        dec_u128(enc_u128(x) + rest) == Some((x, 16int)),
        (enc_u128(x) + rest).skip(16) == rest,
        enc_u128(x).len() == 16,
{
    lemma_auto_spec_u128_to_from_le_bytes();
    assert((enc_u128(x) + rest).take(16) =~= enc_u128(x));
    assert((enc_u128(x) + rest).skip(16) =~= rest);
}

pub proof fn lemma_dec_ts(t: Timestamp, rest: Seq<u8>)
    ensures
        dec_ts(enc_ts(t) + rest) == Some((t, 17int)),
        (enc_ts(t) + rest).skip(17) == rest,
        enc_ts(t).len() == 17,
{
    lemma_auto_spec_u128_to_from_le_bytes();
    let b = enc_ts(t) + rest;
    assert(b[0] == enc_flag(t.before_epoch));
    assert(b.skip(1) =~= enc_u128(t.millis) + rest);
    lemma_dec_u128(t.millis, rest);
    assert(b.skip(17) =~= rest);
}

pub proof fn lemma_dec_char(c: char, rest: Seq<u8>)
    ensures
        dec_char(enc_char(c) + rest) == Some((c, 4int)),
        (enc_char(c) + rest).skip(4) == rest,
        enc_char(c).len() == 4,
{
    lemma_auto_spec_u32_to_from_le_bytes();
    let b = enc_char(c) + rest;
    assert(b.take(4) =~= enc_char(c));
    assert(b.skip(4) =~= rest);
    char_is_scalar(c);
    char_u32_cast(c, c as u32);
}

pub proof fn lemma_dec_chars(s: Seq<char>, rest: Seq<u8>)
    ensures
        dec_chars(enc_chars(s) + rest, s.len()) == Some((s, enc_chars(s).len() as int)),
        (enc_chars(s) + rest).skip(enc_chars(s).len() as int) == rest,
        enc_chars(s).len() == 4 * s.len(),
    decreases s.len(),
{
    if s.len() == 0 {
        assert(enc_chars(s) + rest =~= rest);
        assert(enc_chars(s) =~= Seq::<u8>::empty());
    } else {
        let b = enc_chars(s) + rest;
        let tail_rest = enc_chars(s.skip(1)) + rest;
        assert(b =~= enc_char(s[0]) + tail_rest);
        lemma_dec_char(s[0], tail_rest);
        lemma_dec_chars(s.skip(1), rest);
        assert(b.skip(4) == tail_rest);
        assert(seq![s[0]] + s.skip(1) =~= s);
        assert(b.skip(enc_chars(s).len() as int) =~= rest);
    }
}

pub proof fn lemma_dec_str(s: Seq<char>, rest: Seq<u8>)
    requires
        s.len() <= u128::MAX,
    ensures
        dec_str(enc_str(s) + rest) == Some((s, enc_str(s).len() as int)),
        (enc_str(s) + rest).skip(enc_str(s).len() as int) == rest,
        enc_str(s).len() == 16 + 4 * s.len(),
{
    let b = enc_str(s) + rest;
    let tail = enc_chars(s) + rest;
    assert(b =~= enc_u128(s.len() as u128) + tail);
    lemma_dec_u128(s.len() as u128, tail);
    lemma_dec_chars(s, rest);
    assert(b.skip(16) == tail);
    assert((s.len() as u128) as nat == s.len());
    assert(b.skip(enc_str(s).len() as int) =~= rest);
}

pub proof fn lemma_dec_ids(s: Seq<u128>, rest: Seq<u8>)
    ensures
        dec_ids(enc_ids(s) + rest, s.len()) == Some((s, enc_ids(s).len() as int)),
        (enc_ids(s) + rest).skip(enc_ids(s).len() as int) == rest,
        enc_ids(s).len() == 16 * s.len(),
    decreases s.len(),
{
    if s.len() == 0 {
        assert(enc_ids(s) + rest =~= rest);
        assert(enc_ids(s) =~= Seq::<u8>::empty());
    } else {
        let b = enc_ids(s) + rest;
        let tail_rest = enc_ids(s.skip(1)) + rest;
        assert(b =~= enc_u128(s[0]) + tail_rest);
        lemma_dec_u128(s[0], tail_rest);
        lemma_dec_ids(s.skip(1), rest);
        assert(b.skip(16) == tail_rest);
        assert(seq![s[0]] + s.skip(1) =~= s);
        assert(b.skip(enc_ids(s).len() as int) =~= rest);
    }
}

pub proof fn lemma_dec_id_list(s: Seq<u128>, rest: Seq<u8>)
    requires
        s.len() <= u128::MAX,
    ensures
        dec_id_list(enc_id_list(s) + rest) == Some((s, enc_id_list(s).len() as int)),
        (enc_id_list(s) + rest).skip(enc_id_list(s).len() as int) == rest,
        enc_id_list(s).len() == 16 + 16 * s.len(),
{
    let b = enc_id_list(s) + rest;
    let tail = enc_ids(s) + rest;
    assert(b =~= enc_u128(s.len() as u128) + tail);
    lemma_dec_u128(s.len() as u128, tail);
    lemma_dec_ids(s, rest);
    assert(b.skip(16) == tail);
    assert((s.len() as u128) as nat == s.len());
    assert(b.skip(enc_id_list(s).len() as int) =~= rest);
}

/// A user record decodes back to itself.
pub proof fn lemma_user_round_trip(u: UserModel)
    requires
        user_enc_ok(u),
    ensures
        dec_user(spec_enc_user(u)) == Some(u),
{
    let b = spec_enc_user(u);
    let r1 = enc_ts(u.created) + enc_str(u.address);
    assert(b =~= enc_u128(u.uuid) + r1);
    lemma_dec_u128(u.uuid, r1);
    assert(b.skip(16) == r1);
    lemma_dec_ts(u.created, enc_str(u.address));
    assert(b.skip(33int) =~= enc_str(u.address));
    assert(enc_str(u.address) =~= enc_str(u.address) + Seq::<u8>::empty());
    lemma_dec_str(u.address, Seq::<u8>::empty());
    match dec_user(b) {
        Some(m) => {
            assert(m == u);
        },
        None => {
            assert(false);
        },
    }
}

/// A room record decodes back to itself.
pub proof fn lemma_room_round_trip(r: RoomModel)
    requires
        room_enc_ok(r),
    ensures
        dec_room(spec_enc_room(r)) == Some(r),
{
    let b = spec_enc_room(r);
    let r1 = enc_ts(r.created) + enc_str(r.name) + enc_id_list(r.owners) + enc_id_list(r.members);
    assert(b =~= enc_u128(r.uuid) + r1);
    lemma_dec_u128(r.uuid, r1);
    assert(b.skip(16) == r1);
    let r2 = enc_str(r.name) + enc_id_list(r.owners) + enc_id_list(r.members);
    assert(r1 =~= enc_ts(r.created) + r2);
    lemma_dec_ts(r.created, r2);
    assert(b.skip(33int) =~= r2);
    let r3 = enc_id_list(r.owners) + enc_id_list(r.members);
    assert(r2 =~= enc_str(r.name) + r3);
    lemma_dec_str(r.name, r3);
    let n3 = enc_str(r.name).len() as int;
    assert(b.skip(33 + n3) =~= r3);
    lemma_dec_id_list(r.owners, enc_id_list(r.members));
    let n4 = enc_id_list(r.owners).len() as int;
    assert(b.skip(33 + n3 + n4) =~= enc_id_list(r.members));
    assert(enc_id_list(r.members) =~= enc_id_list(r.members) + Seq::<u8>::empty());
    lemma_dec_id_list(r.members, Seq::<u8>::empty());
    match dec_room(b) {
        Some(m) => {
            assert(m == r);
        },
        None => {
            assert(false);
        },
    }
}

/// A message record decodes back to itself.
pub proof fn lemma_msg_round_trip(m: MessageModel)
    requires
        msg_enc_ok(m),
    ensures
        dec_msg(spec_enc_msg(m)) == Some(m),
{
    let b = spec_enc_msg(m);
    let r1 = seq![kind_tag(m.message_type)] + enc_ts(m.created) + enc_u128(m.owner)
        + seq![content_tag(m.content)] + enc_str(content_text(m.content));
    assert(b =~= enc_u128(m.uuid) + r1);
    lemma_dec_u128(m.uuid, r1);
    assert(b.skip(16) == r1);
    assert(r1[0] == kind_tag(m.message_type));
    assert(kind_of_tag(kind_tag(m.message_type)) == Some(m.message_type));
    let r2 = enc_ts(m.created) + enc_u128(m.owner) + seq![content_tag(m.content)] + enc_str(
        content_text(m.content),
    );
    assert(r1.skip(1) =~= r2);
    assert(b.skip(17) =~= r2);
    let r3 = enc_u128(m.owner) + seq![content_tag(m.content)] + enc_str(content_text(m.content));
    assert(r2 =~= enc_ts(m.created) + r3);
    lemma_dec_ts(m.created, r3);
    assert(b.skip(34int) =~= r3);
    let r4 = seq![content_tag(m.content)] + enc_str(content_text(m.content));
    assert(r3 =~= enc_u128(m.owner) + r4);
    lemma_dec_u128(m.owner, r4);
    assert(b.skip(50int) =~= r4);
    assert(r4[0] == content_tag(m.content));
    assert(r4.skip(1) =~= enc_str(content_text(m.content)));
    assert(b.skip(51) =~= enc_str(content_text(m.content)));
    assert(enc_str(content_text(m.content)) =~= enc_str(content_text(m.content))
        + Seq::<u8>::empty());
    lemma_dec_str(content_text(m.content), Seq::<u8>::empty());
    assert(content_of_tag(content_tag(m.content), content_text(m.content)) == Some(m.content));
    match dec_msg(b) {
        Some(x) => {
            assert(x == m);
        },
        None => {
            assert(false);
        },
    }
}

// ---------------------------------------------------------------------------
// Executable encoders, verified against the specification encoders.
// ---------------------------------------------------------------------------
proof fn lemma_enc_chars_snoc(s: Seq<char>, c: char)
    ensures
        enc_chars(s.push(c)) == enc_chars(s) + enc_char(c),
    decreases s.len(),
{
    let t = s.push(c);
    assert(t.len() == s.len() + 1);
    if s.len() == 0 {
        assert(t[0] == c);
        assert(t.skip(1) =~= Seq::<char>::empty());
        assert(enc_chars(t) == enc_char(c) + enc_chars(Seq::<char>::empty()));
        assert(enc_char(c) + Seq::<u8>::empty() =~= enc_char(c));
        assert(Seq::<u8>::empty() + enc_char(c) =~= enc_char(c));
    } else {
        assert(t[0] == s[0]);
        assert(t.skip(1) =~= s.skip(1).push(c));
        lemma_enc_chars_snoc(s.skip(1), c);
        assert(enc_chars(t) == enc_char(s[0]) + (enc_chars(s.skip(1)) + enc_char(c)));
        assert(enc_char(s[0]) + (enc_chars(s.skip(1)) + enc_char(c)) =~= (enc_char(s[0])
            + enc_chars(s.skip(1))) + enc_char(c));
    }
}

proof fn lemma_enc_ids_snoc(s: Seq<u128>, x: u128)
    ensures
        enc_ids(s.push(x)) == enc_ids(s) + enc_u128(x),
    decreases s.len(),
{
    let t = s.push(x);
    assert(t.len() == s.len() + 1);
    if s.len() == 0 {
        assert(t[0] == x);
        assert(t.skip(1) =~= Seq::<u128>::empty());
        assert(enc_ids(t) == enc_u128(x) + enc_ids(Seq::<u128>::empty()));
        assert(enc_u128(x) + Seq::<u8>::empty() =~= enc_u128(x));
        assert(Seq::<u8>::empty() + enc_u128(x) =~= enc_u128(x));
    } else {
        assert(t[0] == s[0]);
        assert(t.skip(1) =~= s.skip(1).push(x));
        lemma_enc_ids_snoc(s.skip(1), x);
        assert(enc_ids(t) == enc_u128(s[0]) + (enc_ids(s.skip(1)) + enc_u128(x)));
        assert(enc_u128(s[0]) + (enc_ids(s.skip(1)) + enc_u128(x)) =~= (enc_u128(s[0]) + enc_ids(
            s.skip(1),
        )) + enc_u128(x));
    }
}

fn append_u128(out: &mut Vec<u8>, x: u128)
    ensures
        final(out)@ == old(out)@ + enc_u128(x),
{
    let mut xb = u128_to_le_bytes(x);
    out.append(&mut xb);
}

fn append_ts(out: &mut Vec<u8>, t: &Timestamp)
    ensures
        final(out)@ == old(out)@ + enc_ts(*t),
{
    let ghost pre = out@;
    if t.before_epoch {
        out.push(1u8);
    } else {
        out.push(0u8);
    }
    append_u128(out, t.millis);
    proof {
        assert(out@ =~= pre + enc_ts(*t));
    }
}

fn append_str(out: &mut Vec<u8>, s: &String)
    ensures
        final(out)@ == old(out)@ + enc_str(s@),
        s@.len() <= u128::MAX,
{
    let ghost pre = out@;
    let n: usize = s.as_str().unicode_len();
    append_u128(out, n as u128);
    let ghost base = out@;
    let mut i: usize = 0;
    while i < n
        invariant
            i <= n,
            n as nat == s@.len(),
            out@ == base + enc_chars(s@.take(i as int)),
        decreases n - i,
    {
        let c = s.as_str().get_char(i);
        let mut cb = u32_to_le_bytes(c as u32);
        proof {
            lemma_enc_chars_snoc(s@.take(i as int), s@[i as int]);
            assert(s@.take(i as int + 1) =~= s@.take(i as int).push(s@[i as int]));
        }
        out.append(&mut cb);
        i += 1;
    }
    proof {
        assert(s@.take(n as int) =~= s@);
        assert(out@ =~= pre + enc_str(s@));
    }
}

fn append_id_list(out: &mut Vec<u8>, v: &Vec<u128>)
    ensures
        final(out)@ == old(out)@ + enc_id_list(v@),
        v@.len() <= u128::MAX,
{
    let ghost pre = out@;
    let n: usize = v.len();
    append_u128(out, n as u128);
    let ghost base = out@;
    let mut i: usize = 0;
    while i < n
        invariant
            i <= n,
            n == v@.len(),
            out@ == base + enc_ids(v@.take(i as int)),
        decreases n - i,
    {
        proof {
            lemma_enc_ids_snoc(v@.take(i as int), v@[i as int]);
            assert(v@.take(i as int + 1) =~= v@.take(i as int).push(v@[i as int]));
        }
        append_u128(out, v[i]);
        i += 1;
    }
    proof {
        assert(v@.take(n as int) =~= v@);
        assert(out@ =~= pre + enc_id_list(v@));
    }
}

/// Encode a user record.
pub fn encode_user(u: &User) -> (r: Vec<u8>)
    ensures
        r@ == spec_enc_user(u@),
        user_enc_ok(u@),
{
    let mut out: Vec<u8> = Vec::new();
    append_u128(&mut out, u.uuid);
    append_ts(&mut out, &u.created);
    append_str(&mut out, &u.address);
    proof {
        assert(out@ =~= spec_enc_user(u@));
    }
    out
}

/// Encode a room record.
pub fn encode_room(r: &Room) -> (res: Vec<u8>)
    ensures
        res@ == spec_enc_room(r@),
        room_enc_ok(r@),
{
    let mut out: Vec<u8> = Vec::new();
    append_u128(&mut out, r.uuid);
    append_ts(&mut out, &r.created);
    append_str(&mut out, &r.name);
    append_id_list(&mut out, &r.owners);
    append_id_list(&mut out, &r.members);
    proof {
        assert(out@ =~= spec_enc_room(r@));
    }
    out
}

/// Encode a message record.
pub fn encode_message(m: &Message) -> (r: Vec<u8>)
    ensures
        r@ == spec_enc_msg(m@),
        msg_enc_ok(m@),
{
    let mut out: Vec<u8> = Vec::new();
    append_u128(&mut out, m.uuid);
    match m.message_type {
        MessageType::Text => out.push(0u8),
        MessageType::File => out.push(1u8),
        MessageType::Audio => out.push(2u8),
        MessageType::Video => out.push(3u8),
    }
    append_ts(&mut out, &m.created);
    append_u128(&mut out, m.owner);
    match &m.content {
        Content::Text(s) => {
            out.push(0u8);
            append_str(&mut out, s);
        },
        Content::File(s) => {
            out.push(1u8);
            append_str(&mut out, s);
        },
        Content::Audio(s) => {
            out.push(2u8);
            append_str(&mut out, s);
        },
        Content::Video(s) => {
            out.push(3u8);
            append_str(&mut out, s);
        },
    }
    proof {
        assert(out@ =~= spec_enc_msg(m@));
    }
    out
}

// ---------------------------------------------------------------------------
// Executable decoders, verified against the specification decoders.
// ---------------------------------------------------------------------------
/// Relies on `char::from_u32`: `Some` exactly on Unicode scalar values,
/// holding the character of that value.
#[verifier::external_body]
fn char_from_u32(x: u32) -> (r: Option<char>)
    ensures
        r == if is_scalar(x) {
            Some((x as char))
        } else {
            None::<char>
        },
{
    char::from_u32(x)
}

/// Relies on `String::push`: appends the one character.
#[verifier::external_body]
fn push_char(s: &mut String, c: char)
    ensures
        final(s)@ == old(s)@.push(c),
{
    s.push(c);
}

fn read_u128(b: &[u8], pos: usize) -> (r: Option<(u128, usize)>)
    requires
        pos <= b@.len(),
    ensures
        match dec_u128(b@.skip(pos as int)) {
            Some(xc) => r matches Some(p) && p.0 == xc.0 && p.1 as int == pos + xc.1 && p.1
                <= b@.len(),
            None => r is None,
        },
{
    if b.len() - pos >= 16 {
        let s = slice_subrange(b, pos, pos + 16);
        let x = u128_from_le_bytes(s);
        proof {
            assert(s@ =~= b@.skip(pos as int).take(16));
        }
        Some((x, pos + 16))
    } else {
        None
    }
}

fn read_byte(b: &[u8], pos: usize) -> (r: Option<(u8, usize)>)
    requires
        pos <= b@.len(),
    ensures
        match dec_byte(b@.skip(pos as int)) {
            Some(xc) => r matches Some(p) && p.0 == xc.0 && p.1 as int == pos + xc.1 && p.1
                <= b@.len(),
            None => r is None,
        },
{
    if b.len() - pos >= 1 {
        let x = *vstd::slice::slice_index_get(b, pos);
        proof {
            assert(b@.skip(pos as int)[0] == b@[pos as int]);
        }
        Some((x, pos + 1))
    } else {
        None
    }
}

fn read_ts(b: &[u8], pos: usize) -> (r: Option<(Timestamp, usize)>)
    requires
        pos <= b@.len(),
    ensures
        match dec_ts(b@.skip(pos as int)) {
            Some(tc) => r matches Some(p) && p.0 == tc.0 && p.1 as int == pos + tc.1 && p.1
                <= b@.len(),
            None => r is None,
        },
{
    match read_byte(b, pos) {
        None => None,
        Some((f, p1)) => {
            if f > 1 {
                None
            } else {
                proof {
                    assert(b@.skip(pos as int).skip(1) =~= b@.skip(p1 as int));
                }
                match read_u128(b, p1) {
                    None => None,
                    Some((m, p2)) => Some((Timestamp { before_epoch: f == 1, millis: m }, p2)),
                }
            }
        },
    }
}

fn read_char(b: &[u8], pos: usize) -> (r: Option<(char, usize)>)
    requires
        pos <= b@.len(),
    ensures
        match dec_char(b@.skip(pos as int)) {
            Some(cc) => r matches Some(p) && p.0 == cc.0 && p.1 as int == pos + cc.1 && p.1
                <= b@.len(),
            None => r is None,
        },
{
    if b.len() - pos >= 4 {
        let s = slice_subrange(b, pos, pos + 4);
        let x = u32_from_le_bytes(s);
        proof {
            assert(s@ =~= b@.skip(pos as int).take(4));
        }
        match char_from_u32(x) {
            Some(c) => Some((c, pos + 4)),
            None => None,
        }
    } else {
        None
    }
}

fn read_chars(b: &[u8], pos: usize, n: u128) -> (r: Option<(String, usize)>)
    requires
        pos <= b@.len(),
    ensures
        match dec_chars(b@.skip(pos as int), n as nat) {
            Some(sc) => r matches Some(p) && p.0@ == sc.0 && p.1 as int == pos + sc.1 && p.1
                <= b@.len(),
            None => r is None,
        },
{
    let rem: usize = b.len() - pos;
    if n > (rem / 4) as u128 {
        proof {
            lemma_dec_chars_len(b@.skip(pos as int), n as nat);
        }
        return None;
    }
    let n_us: usize = n as usize;
    let mut acc = String::new();
    let mut j: usize = 0;
    let mut p: usize = pos;
    while j < n_us
        invariant
            pos <= p <= b@.len(),
            j <= n_us,
            n_us as u128 == n,
            acc@.len() == j,
            dec_chars(b@.skip(pos as int), n as nat) == (match dec_chars(
                b@.skip(p as int),
                (n_us - j) as nat,
            ) {
                None => None::<(Seq<char>, int)>,
                Some(sq) => Some((acc@ + sq.0, (p - pos) + sq.1)),
            }),
        decreases n_us - j,
    {
        match read_char(b, p) {
            None => {
                return None;
            },
            Some((c, p2)) => {
                proof {
                    assert(b@.skip(p as int).skip(4) =~= b@.skip(p as int + 4));
                    assert(acc@ + (seq![c] + dec_chars(b@.skip(p2 as int), (n_us - j - 1) as nat)
                        ->Some_0.0) =~= acc@.push(c) + dec_chars(
                        b@.skip(p2 as int),
                        (n_us - j - 1) as nat,
                    )->Some_0.0);
                }
                push_char(&mut acc, c);
                p = p2;
                j += 1;
            },
        }
    }
    proof {
        assert(acc@ + Seq::<char>::empty() =~= acc@);
    }
    Some((acc, p))
}

fn read_str(b: &[u8], pos: usize) -> (r: Option<(String, usize)>)
    requires
        pos <= b@.len(),
    ensures
        match dec_str(b@.skip(pos as int)) {
            Some(sc) => r matches Some(p) && p.0@ == sc.0 && p.1 as int == pos + sc.1 && p.1
                <= b@.len(),
            None => r is None,
        },
{
    match read_u128(b, pos) {
        None => None,
        Some((n, p1)) => {
            proof {
                assert(b@.skip(pos as int).skip(16) =~= b@.skip(p1 as int));
            }
            match read_chars(b, p1, n) {
                None => None,
                Some((s, p2)) => Some((s, p2)),
            }
        },
    }
}

fn read_ids(b: &[u8], pos: usize, n: u128) -> (r: Option<(Vec<u128>, usize)>)
    requires
        pos <= b@.len(),
    ensures
        match dec_ids(b@.skip(pos as int), n as nat) {
            Some(sc) => r matches Some(p) && p.0@ == sc.0 && p.1 as int == pos + sc.1 && p.1
                <= b@.len(),
            None => r is None,
        },
{
    let rem: usize = b.len() - pos;
    if n > (rem / 16) as u128 {
        proof {
            lemma_dec_ids_len(b@.skip(pos as int), n as nat);
        }
        return None;
    }
    let n_us: usize = n as usize;
    let mut acc: Vec<u128> = Vec::new();
    let mut j: usize = 0;
    let mut p: usize = pos;
    while j < n_us
        invariant
            pos <= p <= b@.len(),
            j <= n_us,
            n_us as u128 == n,
            acc@.len() == j,
            dec_ids(b@.skip(pos as int), n as nat) == (match dec_ids(
                b@.skip(p as int),
                (n_us - j) as nat,
            ) {
                None => None::<(Seq<u128>, int)>,
                Some(sq) => Some((acc@ + sq.0, (p - pos) + sq.1)),
            }),
        decreases n_us - j,
    {
        match read_u128(b, p) {
            None => {
                return None;
            },
            Some((x, p2)) => {
                proof {
                    assert(b@.skip(p as int).skip(16) =~= b@.skip(p as int + 16));
                    assert(acc@ + (seq![x] + dec_ids(b@.skip(p2 as int), (n_us - j - 1) as nat)
                        ->Some_0.0) =~= acc@.push(x) + dec_ids(
                        b@.skip(p2 as int),
                        (n_us - j - 1) as nat,
                    )->Some_0.0);
                }
                acc.push(x);
                p = p2;
                j += 1;
            },
        }
    }
    proof {
        assert(acc@ + Seq::<u128>::empty() =~= acc@);
    }
    Some((acc, p))
}

fn read_id_list(b: &[u8], pos: usize) -> (r: Option<(Vec<u128>, usize)>)
    requires
        pos <= b@.len(),
    ensures
        match dec_id_list(b@.skip(pos as int)) {
            Some(sc) => r matches Some(p) && p.0@ == sc.0 && p.1 as int == pos + sc.1 && p.1
                <= b@.len(),
            None => r is None,
        },
{
    match read_u128(b, pos) {
        None => None,
        Some((n, p1)) => {
            proof {
                assert(b@.skip(pos as int).skip(16) =~= b@.skip(p1 as int));
            }
            match read_ids(b, p1, n) {
                None => None,
                Some((s, p2)) => Some((s, p2)),
            }
        },
    }
}

proof fn lemma_dec_chars_len(b: Seq<u8>, n: nat)
    ensures
        dec_chars(b, n) matches Some(sq) ==> sq.1 == 4 * n && 4 * n <= b.len() && sq.0.len() == n,
    decreases n,
{
    if n > 0 {
        match dec_char(b) {
            Some((c, p)) => {
                lemma_dec_chars_len(b.skip(4), (n - 1) as nat);
            },
            None => {},
        }
    }
}

proof fn lemma_dec_ids_len(b: Seq<u8>, n: nat)
    ensures
        dec_ids(b, n) matches Some(sq) ==> sq.1 == 16 * n && 16 * n <= b.len() && sq.0.len() == n,
    decreases n,
{
    if n > 0 {
        match dec_u128(b) {
            Some((x, p)) => {
                lemma_dec_ids_len(b.skip(16), (n - 1) as nat);
            },
            None => {},
        }
    }
}

/// Decode a user record; gives back exactly what `dec_user` states.
pub fn decode_user(b: &Vec<u8>) -> (r: Option<User>)
    ensures
        match dec_user(b@) {
            Some(m) => r matches Some(u) && u@ == m,
            None => r is None,
        },
{
    let bs = b.as_slice();
    proof {
        assert(bs@.skip(0) =~= b@);
    }
    match read_u128(bs, 0) {
        None => None,
        Some((uuid, p1)) => match read_ts(bs, p1) {
            None => None,
            Some((ts, p2)) => match read_str(bs, p2) {
                None => None,
                Some((addr, p3)) => {
                    if p3 == b.len() {
                        Some(User { uuid, address: addr, created: ts })
                    } else {
                        None
                    }
                },
            },
        },
    }
}

/// Decode a room record; gives back exactly what `dec_room` states.
pub fn decode_room(b: &Vec<u8>) -> (r: Option<Room>)
    ensures
        match dec_room(b@) {
            Some(m) => r matches Some(x) && x@ == m,
            None => r is None,
        },
{
    let bs = b.as_slice();
    proof {
        assert(bs@.skip(0) =~= b@);
    }
    match read_u128(bs, 0) {
        None => None,
        Some((uuid, p1)) => match read_ts(bs, p1) {
            None => None,
            Some((ts, p2)) => match read_str(bs, p2) {
                None => None,
                Some((name, p3)) => match read_id_list(bs, p3) {
                    None => None,
                    Some((owners, p4)) => match read_id_list(bs, p4) {
                        None => None,
                        Some((members, p5)) => {
                            if p5 == b.len() {
                                Some(Room { uuid, name, created: ts, owners, members })
                            } else {
                                None
                            }
                        },
                    },
                },
            },
        },
    }
}

/// Decode a message record; gives back exactly what `dec_msg` states.
pub fn decode_message(b: &Vec<u8>) -> (r: Option<Message>)
    ensures
        match dec_msg(b@) {
            Some(m) => r matches Some(x) && x@ == m,
            None => r is None,
        },
{
    let bs = b.as_slice();
    proof {
        assert(bs@.skip(0) =~= b@);
    }
    match read_u128(bs, 0) {
        None => None,
        Some((uuid, p1)) => match read_byte(bs, p1) {
            None => None,
            Some((kt, p2)) => {
                let kind = if kt == 0 {
                    MessageType::Text
                } else if kt == 1 {
                    MessageType::File
                } else if kt == 2 {
                    MessageType::Audio
                } else if kt == 3 {
                    MessageType::Video
                } else {
                    return None;
                };
                match read_ts(bs, p2) {
                    None => None,
                    Some((ts, p3)) => match read_u128(bs, p3) {
                        None => None,
                        Some((owner, p4)) => match read_byte(bs, p4) {
                            None => None,
                            Some((ct, p5)) => match read_str(bs, p5) {
                                None => None,
                                Some((s, p6)) => {
                                    if p6 != b.len() {
                                        return None;
                                    }
                                    let content = if ct == 0 {
                                        Content::Text(s)
                                    } else if ct == 1 {
                                        Content::File(s)
                                    } else if ct == 2 {
                                        Content::Audio(s)
                                    } else if ct == 3 {
                                        Content::Video(s)
                                    } else {
                                        return None;
                                    };
                                    Some(
                                        Message {
                                            uuid,
                                            message_type: kind,
                                            created: ts,
                                            owner,
                                            content,
                                        },
                                    )
                                },
                            },
                        },
                    },
                }
            },
        },
    }
}

} // verus!
