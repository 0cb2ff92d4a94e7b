//! The engine's laws, stated over the spec functions that the operations'
//! contracts use, and proved once and for all: round trips, newest-first
//! order, pagination completeness and sizing, tie-break stability, and the
//! empty room.

use vstd::prelude::*;

use crate::keys::lemma_msg_key_order;
use crate::store::{
    lemma_msg_pos_char, lemma_page_start_char, msg_lt, msg_pos, page_of, page_start, rank_of,
    RocksDb,
};
use crate::types::{MessageModel, RoomModel, UserModel};

verus! {

/// Round trip for users: saving a record and looking its identifier up gives
/// back the saved record. The premise is exactly what `save_user` ensures of
/// the store, and `find_user` returns what `user_at` holds.
pub proof fn lemma_user_save_then_find(pre: RocksDb, post: RocksDb, u: UserModel)
    requires
        forall|id: u128| post.user_at(id) == if id == u.uuid {
            Some(u)
        } else {
            pre.user_at(id)
        },
    ensures
        post.user_at(u.uuid) == Some(u),
{
}

/// Upserts are idempotent: saving the same user record twice leaves the
/// store exactly as one save does. The premises are what `save_user`
/// ensures of each of the two calls.
pub proof fn lemma_save_user_idempotent(
    once: RocksDb,
    twice: RocksDb,
    pre: RocksDb,
    u: UserModel,
)
    requires
        forall|id: u128| once.user_at(id) == if id == u.uuid {
            Some(u)
        } else {
            pre.user_at(id)
        },
        forall|id: u128| twice.user_at(id) == if id == u.uuid {
            Some(u)
        } else {
            once.user_at(id)
        },
    ensures
        forall|id: u128| twice.user_at(id) == once.user_at(id),
{
}

/// Round trip for rooms, likewise, from what `save_room` ensures.
pub proof fn lemma_room_save_then_find(pre: RocksDb, post: RocksDb, r: RoomModel)
    requires
        forall|id: u128| post.room_at(id) == if id == r.uuid {
            Some(r)
        } else {
            pre.room_at(id)
        },
    ensures
        post.room_at(r.uuid) == Some(r),
{
}

/// Round trip for messages: a saved message stands in its room's history at
/// its rank position. The premise is what `save_message` ensures when the
/// key is fresh.
pub proof fn lemma_message_save_then_find(s: Seq<MessageModel>, t: Seq<MessageModel>, m: MessageModel)
    requires
        t == s.insert(msg_pos(s, m), m),
    ensures
        0 <= msg_pos(s, m) <= s.len(),
        t[msg_pos(s, m)] == m,
        t.len() == s.len() + 1,
{
    crate::store::lemma_msg_pos_bounds(s, m);
    s.insert_ensures(msg_pos(s, m), m);
}

/// A room's history is strictly sorted: newest first, ties broken by
/// message identifier. In particular no record appears twice.
pub proof fn lemma_room_msgs_sorted(db: RocksDb, room: u128)
    requires
        db.wf(),
    ensures
        forall|i: int, j: int|
            0 <= i < j < db.room_msgs(room).len() ==> msg_lt(
                #[trigger] db.room_msgs(room)[i],
                #[trigger] db.room_msgs(room)[j],
            ),
{
    db.lemma_room_block(room);
    let s = db.room_msgs(room);
    let lo = db.room_lo(room);
    assert forall|i: int, j: int|
        0 <= i < j < s.len() implies msg_lt(#[trigger] s[i], #[trigger] s[j]) by {
        assert(db.block_entry_ok(room, i));
        assert(db.block_entry_ok(room, j));
        assert(crate::order::lex_lt(db.messages.keys()[lo + i], db.messages.keys()[lo + j]));
        lemma_msg_key_order(
            room,
            rank_of(s[i].created.millis),
            s[i].uuid,
            rank_of(s[j].created.millis),
            s[j].uuid,
        );
    }
}

/// The history a run of saves builds, newest first, starting from an empty
/// room: each message enters at its rank position.
pub open spec fn saved_history(saves: Seq<MessageModel>) -> Seq<MessageModel>
    decreases saves.len(),
{
    if saves.len() == 0 {
        Seq::empty()
    } else {
        let prev = saved_history(saves.drop_last());
        prev.insert(msg_pos(prev, saves.last()), saves.last())
    }
}

/// Reverse-chronological order: messages saved with strictly increasing
/// creation times stand in the history in exactly reverse save order.
pub proof fn lemma_reverse_chronological(saves: Seq<MessageModel>)
    requires
        forall|i: int, j: int|
            0 <= i < j < saves.len() ==> #[trigger] saves[i].created.millis
                < #[trigger] saves[j].created.millis,
    ensures
        saved_history(saves) == saves.reverse(),
    decreases saves.len(),
{
    if saves.len() == 0 {
        assert(saved_history(saves) =~= saves.reverse());
    } else {
        let front = saves.drop_last();
        let last = saves.last();
        assert(forall|i: int| 0 <= i < front.len() ==> front[i] == saves[i]);
        lemma_reverse_chronological(front);
        let prev = front.reverse();
        if prev.len() > 0 {
            // The newly saved record is strictly newer than the head of the
            // history built so far, so it enters at the front.
            assert(prev[0] == front[front.len() - 1]);
            assert(front[front.len() - 1] == saves[front.len() - 1]);
            assert(last == saves[saves.len() - 1]);
            assert(saves[front.len() - 1].created.millis < saves[saves.len() - 1].created.millis);
            assert(!msg_lt(prev[0], last));
        }
        lemma_msg_pos_char(prev, last, 0);
        assert(saved_history(saves) == prev.insert(0, last));
        prev.insert_ensures(0, last);
        assert(prev.insert(0, last) =~= saves.reverse()) by {
            assert(saves.reverse()[0] == last);
            assert forall|i: int| 1 <= i < saves.len() implies #[trigger] saves.reverse()[i]
                == front[front.len() - 1 - (i - 1)] by {
                assert(saves.reverse()[i] == saves[saves.len() - 1 - i]);
                assert(saves[saves.len() - 1 - i] == front[front.len() - 1 - (i - 1)]);
            }
        }
    }
}

/// Pagination completeness: resuming at the cursor the previous page
/// returned — the creation time of the first not-yet-delivered record —
/// starts the next page exactly at that record, as long as creation times
/// are pairwise distinct.
pub proof fn lemma_cursor_resume(s: Seq<MessageModel>, j: int)
    requires
        forall|a: int, b: int|
            0 <= a < b < s.len() ==> #[trigger] s[a].created.millis > #[trigger] s[b].created.millis,
        0 <= j < s.len(),
    ensures
        page_start(s, s[j].created.millis) == j,
{
    lemma_page_start_char(s, s[j].created.millis, j);
}

/// Pagination completeness and exact page sizing: over a history with
/// pairwise distinct creation times, the walk that starts with no cursor
/// and hands each returned cursor to the next call delivers page `k` as
/// exactly the records `k·p .. k·p+p`; every page before the last holds
/// exactly `p` records, the last holds the remainder, and the cursor is
/// `None` exactly at the last page. The concatenation of the pages is the
/// whole history.
pub proof fn lemma_pagination_walk(s: Seq<MessageModel>, p: int, k: int)
    requires
        forall|a: int, b: int|
            0 <= a < b < s.len() ==> #[trigger] s[a].created.millis > #[trigger] s[b].created.millis,
        p >= 1,
        0 <= k,
        k * p < s.len(),
    ensures
        ({
            let start = if k == 0 {
                0int
            } else {
                page_start(s, s[k * p].created.millis)
            };
            let pg = page_of(s, p, start);
            &&& start == k * p
            &&& pg.0 == s.subrange(
                k * p,
                if (k + 1) * p < s.len() {
                    (k + 1) * p
                } else {
                    s.len() as int
                },
            )
            &&& pg.0.len() == if (k + 1) * p <= s.len() {
                p
            } else {
                s.len() - k * p
            }
            &&& pg.1 == if (k + 1) * p < s.len() {
                Some(s[(k + 1) * p].created)
            } else {
                None
            }
        }),
{
    assert((k + 1) * p == k * p + p) by (nonlinear_arith);
    if k > 0 {
        assert(k * p >= 0) by (nonlinear_arith)
            requires
                k >= 1 && p >= 1,
        ;
        lemma_cursor_resume(s, k * p);
    }
}

/// The pages from `start` on, page size `p`, laid end to end.
pub open spec fn pages_concat_from(s: Seq<MessageModel>, p: int, start: int) -> Seq<MessageModel>
    decreases s.len() + p - start,
{
    if p < 1 || start < 0 || start >= s.len() {
        Seq::empty()
    } else {
        page_of(s, p, start).0 + pages_concat_from(s, p, start + p)
    }
}

/// Pagination completeness, concatenated form: the pages of the walk, laid
/// end to end, are exactly the room's full newest-first history.
pub proof fn lemma_pages_concat(s: Seq<MessageModel>, p: int, start: int)
    requires
        p >= 1,
        0 <= start <= s.len(),
    ensures
        pages_concat_from(s, p, start) == s.skip(start),
    decreases s.len() - start,
{
    if start >= s.len() {
        assert(pages_concat_from(s, p, start) =~= s.skip(start));
    } else {
        let stop = if start + p < s.len() {
            start + p
        } else {
            s.len() as int
        };
        lemma_pages_concat(s, p, stop);
        assert(page_of(s, p, start).0 + pages_concat_from(s, p, start + p) =~= s.skip(start)) by {
            if start + p < s.len() {
                assert(pages_concat_from(s, p, start + p) == s.skip(start + p));
            } else {
                assert(pages_concat_from(s, p, start + p) =~= Seq::<MessageModel>::empty());
            }
        }
    }
}

/// Tie-break stability: two records of one room that share a millisecond
/// are distinct — the identifier breaks the tie — and one full fetch of the
/// history returns each of them exactly once, with no continuation cursor.
pub proof fn lemma_tiebreak(s: Seq<MessageModel>, a: int, b: int)
    requires
        forall|i: int, j: int|
            0 <= i < j < s.len() ==> msg_lt(#[trigger] s[i], #[trigger] s[j]),
        0 <= a < b < s.len(),
        s[a].created.millis == s[b].created.millis,
    ensures
        s[a].uuid != s[b].uuid,
        s[a] != s[b],
        page_of(s, s.len() as int, 0).0 == s,
        page_of(s, s.len() as int, 0).1 is None,
{
    assert(msg_lt(s[a], s[b]));
    assert(page_of(s, s.len() as int, 0).0 =~= s);
}

/// The empty room: a page of an empty history is empty, with no cursor and
/// no error.
pub proof fn lemma_empty_room(s: Seq<MessageModel>, limit: int)
    requires
        s.len() == 0,
        limit >= 0,
    ensures
        page_of(s, limit, 0).0 == Seq::<MessageModel>::empty(),
        page_of(s, limit, 0).1 is None,
{
    assert(page_of(s, limit, 0).0 =~= Seq::<MessageModel>::empty());
}

} // verus!
