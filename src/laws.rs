use vstd::prelude::*;

use crate::game::{choice_from_text, has_choice, Player};
use crate::state::{
    after_choose, after_join, after_leave, has_room, join_outcome, leave_outcome, room_index,
    Notice, after_message, after_quick, all_chosen, choose_outcome, finished_in,
    lemma_after_choose_wf, lemma_after_quick_wf, lemma_first_open, lemma_player_index,
    lemma_room_index, message_outcome, no_open_room, open_room_id, player_of, room_of, rooms_wf,
    winner_in, RoomView, StateError,
};

verus! {

/// The rooms after `players[k]` arrives with fresh room id `ids[k]`, for
/// each `k` in order, each arrival matched in one step.
pub open spec fn run_joins(rooms: Seq<RoomView>, players: Seq<Player>, ids: Seq<u128>) -> Seq<
    RoomView,
>
    decreases players.len(),
{
    if players.len() == 0 {
        rooms
    } else {
        after_quick(
            run_joins(rooms, players.drop_last(), ids.drop_last()),
            players.last(),
            ids.last(),
        )
    }
}

pub open spec fn ids_distinct(ids: Seq<u128>) -> bool {
    forall|a: int, b: int| 0 <= a < ids.len() && 0 <= b < ids.len() && a != b ==> ids[a] != ids[b]
}

pub open spec fn player_ids_distinct(ps: Seq<Player>) -> bool {
    forall|a: int, b: int| 0 <= a < ps.len() && 0 <= b < ps.len() && a != b ==> ps[a].id != ps[b].id
}

/// However arrivals are matched, one after another, from a well-formed
/// registry, the registry stays well formed: no room ever holds more than
/// two players.
pub proof fn lemma_joins_keep_rooms_bounded(
    rooms: Seq<RoomView>,
    players: Seq<Player>,
    ids: Seq<u128>,
)
    requires
        rooms_wf(rooms),
    ensures
        rooms_wf(run_joins(rooms, players, ids)),
        forall|i: int|
            0 <= i < run_joins(rooms, players, ids).len() ==> (#[trigger] run_joins(
                rooms,
                players,
                ids,
            )[i]).players.len() <= 2,
    decreases players.len(),
{
    if players.len() > 0 {
        lemma_joins_keep_rooms_bounded(rooms, players.drop_last(), ids.drop_last());
        lemma_after_quick_wf(
            run_joins(rooms, players.drop_last(), ids.drop_last()),
            players.last(),
            ids.last(),
        );
    }
    let out = run_joins(rooms, players, ids);
    assert forall|i: int| 0 <= i < out.len() implies (#[trigger] out[i]).players.len() <= 2 by {
        assert(crate::state::room_wf(out[i]));
    }
}

/// The registry after `players` arrive at `rooms`: the old rooms are kept
/// as they were, and new room `q` has id `ids[2 q]` and holds `players[2 q]`,
/// then `players[2 q + 1]` if that one has arrived.
pub open spec fn paired_shape(
    out: Seq<RoomView>,
    rooms: Seq<RoomView>,
    players: Seq<Player>,
    ids: Seq<u128>,
) -> bool {
    let k = players.len() as int;
    let b = rooms.len() as int;
    &&& out.len() == b + (k + 1) / 2
    &&& forall|i: int| #![trigger out[i]] 0 <= i < b ==> out[i] == rooms[i]
    &&& forall|i: int|
        #![trigger out[i]]
        b <= i < out.len() ==> {
            &&& out[i].id == ids[2 * (i - b)]
            &&& out[i].players[0] == players[2 * (i - b)]
            &&& if 2 * (i - b) + 1 < k {
                out[i].players.len() == 2 && out[i].players[1] == players[2 * (i - b) + 1]
            } else {
                out[i].players.len() == 1
            }
        }
}

/// No id of `ids` names a room of `rooms`.
pub open spec fn ids_unused(rooms: Seq<RoomView>, ids: Seq<u128>) -> bool {
    forall|i: int, j: int| 0 <= i < rooms.len() && 0 <= j < ids.len() ==> rooms[i].id != ids[j]
}

proof fn lemma_paired_shape(rooms: Seq<RoomView>, players: Seq<Player>, ids: Seq<u128>)
    requires
        rooms_wf(rooms),
        no_open_room(rooms),
        players.len() == ids.len(),
        player_ids_distinct(players),
        ids_distinct(ids),
        ids_unused(rooms, ids),
    ensures
        paired_shape(run_joins(rooms, players, ids), rooms, players, ids),
    decreases players.len(),
{
    let k = players.len() as int;
    let b = rooms.len() as int;
    if k == 0 {
        assert(paired_shape(rooms, rooms, players, ids));
    } else {
        let ps = players.drop_last();
        let prev = run_joins(rooms, ps, ids.drop_last());
        assert(player_ids_distinct(ps));
        assert(ids_distinct(ids.drop_last()));
        assert(ids_unused(rooms, ids.drop_last()));
        lemma_paired_shape(rooms, ps, ids.drop_last());
        lemma_joins_keep_rooms_bounded(rooms, ps, ids.drop_last());
        let p = players.last();
        assert(ids.last() == ids[ids.len() - 1]);
        let out = run_joins(rooms, players, ids);
        assert(out == after_quick(prev, p, ids.last()));
        let m = k - 1;
        if m % 2 == 0 {
            assert forall|i: int| 0 <= i < prev.len() implies (#[trigger] prev[i]).players.len()
                >= 2 by {
                if i < b {
                    assert(prev[i] == rooms[i]);
                }
            }
            assert(no_open_room(prev));
            assert(open_room_id(prev) is None);
            assert forall|i: int| 0 <= i < prev.len() implies #[trigger] prev[i].id != ids.last() by {
                if i < b {
                    assert(prev[i] == rooms[i]);
                } else {
                    assert(prev[i].id == ids[2 * (i - b)]);
                }
            }
            assert(!crate::state::has_room(prev, ids.last()));
            assert(ids.last() == ids[k - 1]);
            assert(paired_shape(out, rooms, players, ids));
        } else {
            let last = b + (m - 1) / 2;
            assert(prev[last].players.len() == 1);
            assert forall|j: int| 0 <= j < last implies (#[trigger] prev[j]).players.len() >= 2 by {
                if j < b {
                    assert(prev[j] == rooms[j]);
                }
            }
            assert(crate::state::is_first_open(prev, last));
            lemma_first_open(prev, last);
            lemma_room_index(prev, prev[last].id, last);
            assert(!crate::state::has_player(prev[last].players, p.id)) by {
                assert(prev[last].players[0] == players[m - 1]);
            }
            assert(paired_shape(out, rooms, players, ids));
        }
    }
}

/// When `n` connections arrive at a registry with no free slot, each matched
/// in one step and each new room given a distinct, unused id, exactly
/// `ceil(n / 2)` rooms are created and the rooms already there are kept.
pub proof fn lemma_rooms_created(rooms: Seq<RoomView>, players: Seq<Player>, ids: Seq<u128>)
    requires
        rooms_wf(rooms),
        no_open_room(rooms),
        players.len() == ids.len(),
        player_ids_distinct(players),
        ids_distinct(ids),
        ids_unused(rooms, ids),
    ensures
        run_joins(rooms, players, ids).len() == rooms.len() + (players.len() + 1) / 2,
        run_joins(rooms, players, ids).subrange(0, rooms.len() as int) == rooms,
{
    lemma_paired_shape(rooms, players, ids);
    assert(run_joins(rooms, players, ids).subrange(0, rooms.len() as int) =~= rooms);
}

/// A choice, once recorded, is final for the round: any later message from
/// the same player is refused and leaves the registry, and so the stored
/// choice, as it was.
pub proof fn lemma_choice_is_final(
    rooms: Seq<RoomView>,
    room_id: u128,
    player_id: u128,
    first: Seq<char>,
    second: Seq<char>,
)
    requires
        rooms_wf(rooms),
        message_outcome(rooms, room_id, player_id, first) is Ok,
    ensures
        ({
            let mid = after_message(rooms, room_id, player_id, first);
            &&& player_of(room_of(mid, room_id).players, player_id).choice == choice_from_text(
                first,
            )
            &&& message_outcome(mid, room_id, player_id, second) is Err
            &&& after_message(mid, room_id, player_id, second) == mid
        }),
{
    let c = choice_from_text(first).unwrap();
    let mid = after_choose(rooms, room_id, player_id, c);
    let i = crate::state::room_index(rooms, room_id);
    let r = rooms[i];
    let j = crate::state::player_index(r.players, player_id);
    lemma_after_choose_wf(rooms, room_id, player_id, c);
    lemma_room_index(mid, room_id, i);
    assert(crate::state::room_wf(mid[i]));
    assert(mid[i].players[j].id == player_id);
    lemma_player_index(mid[i].players, player_id, j);
    assert(choose_outcome(mid, room_id, player_id) == Err::<(), StateError>(
        StateError::AlreadyChosen,
    ));
}

/// A room with fewer than two players is never finished, whatever its
/// players have chosen, and names no winner.
pub proof fn lemma_unfinished_below_two(rooms: Seq<RoomView>, room_id: u128)
    requires
        room_of(rooms, room_id).players.len() < 2,
    ensures
        !all_chosen(room_of(rooms, room_id)),
        !finished_in(rooms, room_id),
        winner_in(rooms, room_id) is None,
{
}

/// A registry that keeps every room's id keeps room `room_id` where it finds
/// that room unchanged.
proof fn lemma_room_kept(rooms: Seq<RoomView>, out: Seq<RoomView>, room_id: u128, k: int)
    requires
        rooms_wf(rooms),
        rooms_wf(out),
        has_room(rooms, room_id),
        0 <= k < out.len(),
        out[k] == room_of(rooms, room_id),
    ensures
        has_room(out, room_id),
        room_of(out, room_id) == room_of(rooms, room_id),
{
    let i = room_index(rooms, room_id);
    assert(rooms[i].id == room_id);
    lemma_room_index(out, room_id, k);
}

/// A player leaving releases its room: the room is gone from the registry,
/// so it is not finished and names no winner.
pub proof fn lemma_leave_releases_room(rooms: Seq<RoomView>, room_id: u128, player_id: u128)
    requires
        rooms_wf(rooms),
        leave_outcome(rooms, room_id, player_id) is Ok,
    ensures
        !has_room(after_leave(rooms, room_id, player_id), room_id),
        !finished_in(after_leave(rooms, room_id, player_id), room_id),
        winner_in(after_leave(rooms, room_id, player_id), room_id) is None,
{
    let i = room_index(rooms, room_id);
    let out = after_leave(rooms, room_id, player_id);
    assert forall|k: int| 0 <= k < out.len() implies #[trigger] out[k].id != room_id by {
        if k < i {
            assert(out[k] == rooms[k]);
        } else {
            assert(out[k] == rooms[k + 1]);
        }
    }
}

/// A released room stays released: whatever anyone sends, it is refused for
/// that room; nobody can join it; and no matchmaking step, message or
/// departure elsewhere brings it back, unless a new room is opened under the
/// very same id. So its players never see its round finish.
pub proof fn lemma_released_room_stays_released(
    rooms: Seq<RoomView>,
    room_id: u128,
    player: Player,
    new_id: u128,
    other_room: u128,
    player_id: u128,
    text: Seq<char>,
)
    requires
        rooms_wf(rooms),
        !has_room(rooms, room_id),
        new_id != room_id,
    ensures
        !finished_in(rooms, room_id),
        message_outcome(rooms, room_id, player_id, text) == Err::<Seq<Notice>, StateError>(
            StateError::RoomNotFound,
        ) || message_outcome(rooms, room_id, player_id, text) == Err::<Seq<Notice>, StateError>(
            StateError::NotAChoice,
        ),
        after_message(rooms, room_id, player_id, text) == rooms,
        join_outcome(rooms, room_id, player) == Err::<u128, StateError>(StateError::RoomNotFound),
        !has_room(after_quick(rooms, player, new_id), room_id),
        !has_room(after_message(rooms, other_room, player_id, text), room_id),
        !has_room(after_leave(rooms, other_room, player_id), room_id),
{
    let q = after_quick(rooms, player, new_id);
    match open_room_id(rooms) {
        Some(id) => {
            if join_outcome(rooms, id, player) is Ok {
                let j = room_index(rooms, id);
                assert forall|k: int| 0 <= k < q.len() implies #[trigger] q[k].id != room_id by {
                    if k != j {
                        assert(q[k] == rooms[k]);
                    }
                }
            }
        },
        None => {
            assert forall|k: int| 0 <= k < q.len() implies #[trigger] q[k].id != room_id by {
                if k < rooms.len() {
                    assert(q[k] == rooms[k]);
                }
            }
        },
    }
    match choice_from_text(text) {
        None => {},
        Some(c) => {
            lemma_after_choose_wf(rooms, other_room, player_id, c);
            let m = after_choose(rooms, other_room, player_id, c);
            assert forall|k: int| 0 <= k < m.len() implies #[trigger] m[k].id != room_id by {
                assert(m[k].id == rooms[k].id);
            }
        },
    }
    let l = after_leave(rooms, other_room, player_id);
    if leave_outcome(rooms, other_room, player_id) is Ok {
        let i = room_index(rooms, other_room);
        assert forall|k: int| 0 <= k < l.len() implies #[trigger] l[k].id != room_id by {
            if k < i {
                assert(l[k] == rooms[k]);
            } else {
                assert(l[k] == rooms[k + 1]);
            }
        }
    }
}

/// Once a room's round is finished its result cannot be published again.
/// Every message to that room is refused, and every other step leaves the
/// room exactly as it was or releases it: no one joins it through
/// matchmaking, messages to other rooms do not touch it, and a departure
/// from it takes it out of the registry.
pub proof fn lemma_result_published_once(
    rooms: Seq<RoomView>,
    room_id: u128,
    player: Player,
    new_id: u128,
    other_room: u128,
    player_id: u128,
    text: Seq<char>,
)
    requires
        rooms_wf(rooms),
        finished_in(rooms, room_id),
    ensures
        message_outcome(rooms, room_id, player_id, text) is Err,
        after_message(rooms, room_id, player_id, text) == rooms,
        join_outcome(rooms, room_id, player) is Err,
        after_join(rooms, room_id, player) == rooms,
        has_room(after_quick(rooms, player, new_id), room_id),
        room_of(after_quick(rooms, player, new_id), room_id) == room_of(rooms, room_id),
        other_room != room_id ==> has_room(after_message(rooms, other_room, player_id, text), room_id)
            && room_of(after_message(rooms, other_room, player_id, text), room_id) == room_of(
            rooms,
            room_id,
        ),
        other_room != room_id ==> has_room(after_leave(rooms, other_room, player_id), room_id)
            && room_of(after_leave(rooms, other_room, player_id), room_id) == room_of(
            rooms,
            room_id,
        ),
        after_leave(rooms, room_id, player_id) == rooms || !has_room(
            after_leave(rooms, room_id, player_id),
            room_id,
        ),
{
    let i = room_index(rooms, room_id);
    let r = room_of(rooms, room_id);
    if crate::state::has_player(r.players, player_id) {
        let j = crate::state::player_index(r.players, player_id);
        assert(j == 0 || j == 1);
        assert(has_choice(player_of(r.players, player_id)));
    }
    // matchmaking
    let q = after_quick(rooms, player, new_id);
    lemma_after_quick_wf(rooms, player, new_id);
    match open_room_id(rooms) {
        Some(id) => {
            if join_outcome(rooms, id, player) is Ok {
                let o = room_index(rooms, id);
                assert(rooms[o].id == id);
                assert(o != i);
                assert(q[i] == rooms[i]);
            }
            lemma_room_kept(rooms, q, room_id, i);
        },
        None => {
            assert(q[i] == rooms[i]);
            lemma_room_kept(rooms, q, room_id, i);
        },
    }
    // a message to another room
    if other_room != room_id {
        match choice_from_text(text) {
            None => {},
            Some(c) => {
                lemma_after_choose_wf(rooms, other_room, player_id, c);
                let m = after_choose(rooms, other_room, player_id, c);
                if choose_outcome(rooms, other_room, player_id) is Ok {
                    let o = room_index(rooms, other_room);
                    assert(rooms[o].id == other_room);
                    assert(o != i);
                    assert(m[i] == rooms[i]);
                }
                lemma_room_kept(rooms, m, room_id, i);
            },
        }
        let l = after_leave(rooms, other_room, player_id);
        crate::state::lemma_after_leave_wf(rooms, other_room, player_id);
        if leave_outcome(rooms, other_room, player_id) is Ok {
            let o = room_index(rooms, other_room);
            assert(rooms[o].id == other_room);
            assert(o != i);
            if i < o {
                assert(l[i] == rooms[i]);
                lemma_room_kept(rooms, l, room_id, i);
            } else {
                assert(l[i - 1] == rooms[i]);
                lemma_room_kept(rooms, l, room_id, i - 1);
            }
        }
    }
    if leave_outcome(rooms, room_id, player_id) is Ok {
        lemma_leave_releases_room(rooms, room_id, player_id);
    }
}

} // verus!
