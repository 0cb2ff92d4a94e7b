//! The binary message-key scheme: within one room, ascending byte order of
//! keys is descending creation-time order (newest first), with the message
//! identifier as a tie breaker, so keys are unique across the whole store.
//!
//! A key is `room id (16 bytes, big-endian) ++ separator ++ reverse rank
//! (16 bytes, big-endian) ++ separator ++ message id (16 bytes, big-endian)`,
//! where the reverse rank is `u128::MAX - elapsed milliseconds`.

use vstd::prelude::*;

use crate::order::{
    bytes_lt, lemma_lex_asym, lemma_lex_concat, lemma_lex_irrefl, lemma_lex_prefix,
    lemma_u128_be_inj, lemma_u128_be_order, lex_le, lex_lt, u128_be, u128_to_be,
};

verus! {

/// Separator byte between the key's fields.
pub const KEY_SEP: u8 = 0x5f;

/// First byte value past the separator: every key of a room sorts strictly
/// before `room id ++ ROOM_END_BYTE`.
pub const ROOM_END_BYTE: u8 = 0x60;

/// The full key of a message, given the room id, the reverse rank of its
/// creation time, and the message id.
pub open spec fn spec_msg_key(room: u128, rank: u128, id: u128) -> Seq<u8> {
    u128_be(room) + seq![KEY_SEP] + u128_be(rank) + seq![KEY_SEP] + u128_be(id)
}

/// The partial key a cursor scan starts from: it is a prefix of every full
/// key of the same room and rank, and so sorts no later than each of them.
pub open spec fn spec_cursor_key(room: u128, rank: u128) -> Seq<u8> {
    u128_be(room) + seq![KEY_SEP] + u128_be(rank)
}

/// The lower bound of a room's keyspace.
pub open spec fn spec_room_prefix(room: u128) -> Seq<u8> {
    u128_be(room) + seq![KEY_SEP]
}

/// A strict upper bound of a room's keyspace.
pub open spec fn spec_room_end(room: u128) -> Seq<u8> {
    u128_be(room) + seq![ROOM_END_BYTE]
}

/// Within one room, keys order by rank, then by message id.
pub proof fn lemma_msg_key_order(r: u128, t1: u128, i1: u128, t2: u128, i2: u128)
    ensures
        lex_lt(spec_msg_key(r, t1, i1), spec_msg_key(r, t2, i2)) <==> (t1 < t2 || (t1 == t2 && i1
            < i2)),
{
    let pre = u128_be(r) + seq![KEY_SEP];
    let s1 = seq![KEY_SEP] + u128_be(i1);
    let s2 = seq![KEY_SEP] + u128_be(i2);
    assert(spec_msg_key(r, t1, i1) =~= (pre + u128_be(t1)) + s1);
    assert(spec_msg_key(r, t2, i2) =~= (pre + u128_be(t2)) + s2);
    lemma_lex_concat(pre + u128_be(t1), pre + u128_be(t2), s1, s2);
    lemma_lex_concat(pre, pre, u128_be(t1), u128_be(t2));
    lemma_lex_irrefl(pre);
    lemma_u128_be_order(t1, t2);
    if pre + u128_be(t1) == pre + u128_be(t2) {
        assert(u128_be(t1) =~= u128_be(t2)) by {
            assert(forall|i: int|
                0 <= i < 16
                    ==> u128_be(t1)[i] == (pre + u128_be(t1))[17 + i] && u128_be(t2)[i] == (pre
                    + u128_be(t2))[17 + i]);
        }
        lemma_u128_be_inj(t1, t2);
    }
    lemma_lex_concat(seq![KEY_SEP], seq![KEY_SEP], u128_be(i1), u128_be(i2));
    lemma_lex_irrefl(seq![KEY_SEP]);
    lemma_u128_be_order(i1, i2);
    if u128_be(i1) == u128_be(i2) {
        lemma_u128_be_inj(i1, i2);
    }
    if t1 == t2 {
        assert(pre + u128_be(t1) == pre + u128_be(t2));
    }
    if i1 == i2 {
        assert(s1 == s2);
        lemma_lex_irrefl(s1);
    }
}

/// Across rooms, keys order by room id, whatever the rest holds.
pub proof fn lemma_msg_key_room_order(r1: u128, t1: u128, i1: u128, r2: u128, t2: u128, i2: u128)
    requires
        r1 != r2,
    ensures
        lex_lt(spec_msg_key(r1, t1, i1), spec_msg_key(r2, t2, i2)) <==> r1 < r2,
{
    let s1 = seq![KEY_SEP] + u128_be(t1) + seq![KEY_SEP] + u128_be(i1);
    let s2 = seq![KEY_SEP] + u128_be(t2) + seq![KEY_SEP] + u128_be(i2);
    assert(spec_msg_key(r1, t1, i1) =~= u128_be(r1) + s1);
    assert(spec_msg_key(r2, t2, i2) =~= u128_be(r2) + s2);
    lemma_lex_concat(u128_be(r1), u128_be(r2), s1, s2);
    lemma_u128_be_order(r1, r2);
    if u128_be(r1) == u128_be(r2) {
        lemma_u128_be_inj(r1, r2);
    }
}

/// A message key lies between a room's prefix and its end bound exactly when
/// it belongs to that room.
pub proof fn lemma_key_room_range(r: u128, r2: u128, t: u128, i: u128)
    ensures
        (lex_le(spec_room_prefix(r), spec_msg_key(r2, t, i)) && lex_lt(
            spec_msg_key(r2, t, i),
            spec_room_end(r),
        )) <==> r2 == r,
{
    let k = spec_msg_key(r2, t, i);
    let sfx = seq![KEY_SEP] + u128_be(t) + seq![KEY_SEP] + u128_be(i);
    assert(k =~= u128_be(r2) + sfx);
    if r2 == r {
        assert(spec_room_prefix(r) =~= k.take(17));
        lemma_lex_prefix(spec_room_prefix(r), k);
        lemma_lex_concat(u128_be(r2), u128_be(r), sfx, seq![ROOM_END_BYTE]);
        lemma_lex_irrefl(u128_be(r));
        assert(sfx[0] == KEY_SEP);
        assert(lex_lt(sfx, seq![ROOM_END_BYTE]));
    } else {
        lemma_u128_be_order(r2, r);
        lemma_u128_be_order(r, r2);
        if r2 < r {
            // The key sorts strictly before the room's prefix.
            assert(spec_room_prefix(r) =~= u128_be(r) + seq![KEY_SEP]);
            lemma_lex_concat(u128_be(r2), u128_be(r), sfx, seq![KEY_SEP]);
            assert(lex_lt(k, spec_room_prefix(r)));
            lemma_lex_asym(k, spec_room_prefix(r));
            lemma_lex_irrefl(k);
        } else {
            // The key sorts no earlier than the room's end bound.
            lemma_lex_concat(u128_be(r2), u128_be(r), sfx, seq![ROOM_END_BYTE]);
            if u128_be(r2) == u128_be(r) {
                lemma_u128_be_inj(r2, r);
            }
            assert(!lex_lt(k, spec_room_end(r)));
        }
    }
}

/// A key of another room sorts wholly below or wholly above both bounds of
/// this room's range, by room id.
pub proof fn lemma_key_room_side(rb: u128, rk: u128, t: u128, i: u128)
    requires
        rk != rb,
    ensures
        rk < rb ==> lex_lt(spec_msg_key(rk, t, i), spec_room_prefix(rb)) && lex_lt(
            spec_msg_key(rk, t, i),
            spec_room_end(rb),
        ),
        rk > rb ==> !lex_lt(spec_msg_key(rk, t, i), spec_room_prefix(rb)) && !lex_lt(
            spec_msg_key(rk, t, i),
            spec_room_end(rb),
        ),
{
    let k = spec_msg_key(rk, t, i);
    let sfx = seq![KEY_SEP] + u128_be(t) + seq![KEY_SEP] + u128_be(i);
    assert(k =~= u128_be(rk) + sfx);
    assert(spec_room_prefix(rb) =~= u128_be(rb) + seq![KEY_SEP]);
    lemma_lex_concat(u128_be(rk), u128_be(rb), sfx, seq![KEY_SEP]);
    lemma_lex_concat(u128_be(rk), u128_be(rb), sfx, seq![ROOM_END_BYTE]);
    lemma_u128_be_order(rk, rb);
    if u128_be(rk) == u128_be(rb) {
        lemma_u128_be_inj(rk, rb);
    }
}

/// A message key sorts before a cursor key of the same room exactly when its
/// rank is smaller; from the cursor's rank on, the cursor key sorts no later.
pub proof fn lemma_cursor_key_order(r: u128, ct: u128, t: u128, i: u128)
    ensures
        lex_lt(spec_msg_key(r, t, i), spec_cursor_key(r, ct)) <==> t < ct,
        t >= ct ==> lex_le(spec_cursor_key(r, ct), spec_msg_key(r, t, i)),
{
    let pre = u128_be(r) + seq![KEY_SEP];
    let k = spec_msg_key(r, t, i);
    let c = spec_cursor_key(r, ct);
    let sfx = seq![KEY_SEP] + u128_be(i);
    assert(k =~= (pre + u128_be(t)) + sfx);
    assert(c =~= (pre + u128_be(ct)) + Seq::<u8>::empty());
    lemma_lex_concat(pre + u128_be(t), pre + u128_be(ct), sfx, Seq::<u8>::empty());
    lemma_lex_concat(pre + u128_be(ct), pre + u128_be(t), Seq::<u8>::empty(), sfx);
    lemma_lex_concat(pre, pre, u128_be(t), u128_be(ct));
    lemma_lex_concat(pre, pre, u128_be(ct), u128_be(t));
    lemma_lex_irrefl(pre);
    lemma_u128_be_order(t, ct);
    lemma_u128_be_order(ct, t);
    if pre + u128_be(t) == pre + u128_be(ct) {
        assert(u128_be(t) =~= u128_be(ct)) by {
            assert(forall|j: int|
                0 <= j < 16
                    ==> u128_be(t)[j] == (pre + u128_be(t))[17 + j] && u128_be(ct)[j] == (pre
                    + u128_be(ct))[17 + j]);
        }
        lemma_u128_be_inj(t, ct);
    }
    if t == ct {
        assert(pre + u128_be(t) == pre + u128_be(ct));
    }
}

/// A cursor key lies inside its room's key range.
pub proof fn lemma_cursor_in_range(r: u128, ct: u128)
    ensures
        lex_le(spec_room_prefix(r), spec_cursor_key(r, ct)),
        lex_lt(spec_cursor_key(r, ct), spec_room_end(r)),
{
    let c = spec_cursor_key(r, ct);
    assert(spec_room_prefix(r) =~= c.take(17));
    lemma_lex_prefix(spec_room_prefix(r), c);
    let sfx = seq![KEY_SEP] + u128_be(ct);
    assert(c =~= u128_be(r) + sfx);
    lemma_lex_concat(u128_be(r), u128_be(r), sfx, seq![ROOM_END_BYTE]);
    lemma_lex_irrefl(u128_be(r));
    assert(sfx[0] == KEY_SEP);
    assert(lex_lt(sfx, seq![ROOM_END_BYTE]));
}

/// Build the full key of a message.
pub fn msg_key_bytes(room: u128, rank: u128, id: u128) -> (r: Vec<u8>)
    ensures
        r@ == spec_msg_key(room, rank, id),
{
    let mut r = u128_to_be(room);
    r.push(KEY_SEP);
    let mut rank_b = u128_to_be(rank);
    r.append(&mut rank_b);
    r.push(KEY_SEP);
    let mut id_b = u128_to_be(id);
    r.append(&mut id_b);
    proof {
        assert(r@ =~= spec_msg_key(room, rank, id));
    }
    r
}

/// Build the partial key a cursor scan starts from.
pub fn cursor_key_bytes(room: u128, rank: u128) -> (r: Vec<u8>)
    ensures
        r@ == spec_cursor_key(room, rank),
{
    let mut r = u128_to_be(room);
    r.push(KEY_SEP);
    let mut rank_b = u128_to_be(rank);
    r.append(&mut rank_b);
    proof {
        assert(r@ =~= spec_cursor_key(room, rank));
    }
    r
}

/// Build the lower bound of a room's keyspace.
pub fn room_prefix_bytes(room: u128) -> (r: Vec<u8>)
    ensures
        r@ == spec_room_prefix(room),
{
    let mut r = u128_to_be(room);
    r.push(KEY_SEP);
    proof {
        assert(r@ =~= spec_room_prefix(room));
    }
    r
}

/// Build the strict upper bound of a room's keyspace.
pub fn room_end_bytes(room: u128) -> (r: Vec<u8>)
    ensures
        r@ == spec_room_end(room),
{
    let mut r = u128_to_be(room);
    r.push(ROOM_END_BYTE);
    proof {
        assert(r@ =~= spec_room_end(room));
    }
    r
}

} // verus!
