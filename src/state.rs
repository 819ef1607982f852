use vstd::prelude::*;

use crate::channel::{new_broadcast, share_sender};
use crate::game::{
    calculate_rps, choice_from_text, has_choice, parse_choice, winner_of, Choice, Player, RoomType,
};
use crate::ids::{random_id, uuid_variant, uuid_version};

verus! {

/// How many undelivered messages a room's channel holds for a slow reader.
pub const BROADCAST_CAPACITY: usize = 100;

/// What a room is, as the registry's rules see it.
pub struct RoomView {
    pub id: u128,
    pub kind: RoomType,
    pub players: Seq<Player>,
}

/// Why a registry operation did nothing.
#[derive(Clone, Copy, Debug, PartialEq, Eq, Structural)]
pub enum StateError {
    RoomNotFound,
    PlayerNotFound,
    RoomFull,
    DuplicatePlayer,
    DuplicateRoom,
    AlreadyChosen,
    NotAChoice,
}

/// An event to publish on a room's channel.
#[derive(Clone, Copy, Debug, PartialEq, Eq, Structural)]
pub enum Notice {
    /// The player with this id has submitted a choice.
    Chosen(u128),
    /// The round is over: this player won with this choice.
    Winner(u128, Choice),
    /// The round is over with equal choices.
    Draw,
}

/// A room: at most two players and the channel that reaches both.
pub struct Room {
    id: u128,
    players: Vec<Player>,
    room_type: RoomType,
    pub tx: tokio::sync::broadcast::Sender<String>,
}

impl View for Room {
    type V = RoomView;

    closed spec fn view(&self) -> RoomView {
        RoomView { id: self.id, kind: self.room_type, players: self.players@ }
    }
}

/// The registry of all live rooms.
pub struct AppState {
    rooms: Vec<Room>,
}

impl View for AppState {
    type V = Seq<RoomView>;

    closed spec fn view(&self) -> Seq<RoomView> {
        self.rooms@.map_values(|r: Room| r@)
    }
}

pub open spec fn players_distinct(ps: Seq<Player>) -> bool {
    forall|a: int, b: int|
        0 <= a < ps.len() && 0 <= b < ps.len() && a != b ==> #[trigger] ps[a].id != #[trigger] ps[b].id
}

/// A room holds at most two players, no two with one id.
pub open spec fn room_wf(r: RoomView) -> bool {
    r.players.len() <= 2 && players_distinct(r.players)
}

/// Every room is well formed and no two rooms share an id.
pub open spec fn rooms_wf(rooms: Seq<RoomView>) -> bool {
    &&& forall|i: int| 0 <= i < rooms.len() ==> room_wf(#[trigger] rooms[i])
    &&& forall|i: int, j: int|
        0 <= i < rooms.len() && 0 <= j < rooms.len() && i != j ==> #[trigger] rooms[i].id
            != #[trigger] rooms[j].id
}

pub open spec fn has_room(rooms: Seq<RoomView>, id: u128) -> bool {
    exists|i: int| 0 <= i < rooms.len() && #[trigger] rooms[i].id == id
}

pub open spec fn room_index(rooms: Seq<RoomView>, id: u128) -> int {
    choose|i: int| 0 <= i < rooms.len() && #[trigger] rooms[i].id == id
}

pub open spec fn room_of(rooms: Seq<RoomView>, id: u128) -> RoomView {
    rooms[room_index(rooms, id)]
}

pub open spec fn has_player(ps: Seq<Player>, id: u128) -> bool {
    exists|j: int| 0 <= j < ps.len() && #[trigger] ps[j].id == id
}

pub open spec fn player_index(ps: Seq<Player>, id: u128) -> int {
    choose|j: int| 0 <= j < ps.len() && #[trigger] ps[j].id == id
}

pub open spec fn player_of(ps: Seq<Player>, id: u128) -> Player {
    ps[player_index(ps, id)]
}

/// A room is finished when it holds two players and both have chosen.
pub open spec fn all_chosen(r: RoomView) -> bool {
    r.players.len() == 2 && has_choice(r.players[0]) && has_choice(r.players[1])
}

/// Room `i` has a free slot and every room before it is full.
pub open spec fn is_first_open(rooms: Seq<RoomView>, i: int) -> bool {
    &&& 0 <= i < rooms.len()
    &&& rooms[i].players.len() < 2
    &&& forall|j: int| 0 <= j < i ==> (#[trigger] rooms[j]).players.len() >= 2
}

pub open spec fn no_open_room(rooms: Seq<RoomView>) -> bool {
    forall|i: int| 0 <= i < rooms.len() ==> (#[trigger] rooms[i]).players.len() >= 2
}

/// The id of the first room with a free slot, if any.
pub open spec fn open_room_id(rooms: Seq<RoomView>) -> Option<u128> {
    if no_open_room(rooms) {
        None
    } else {
        Some(rooms[choose|i: int| is_first_open(rooms, i)].id)
    }
}

pub open spec fn with_player(r: RoomView, p: Player) -> RoomView {
    RoomView { id: r.id, kind: r.kind, players: r.players.push(p) }
}

/// What joining room `room_id` answers: the room must exist, have a free
/// slot and not already hold a player with the same id.
pub open spec fn join_outcome(rooms: Seq<RoomView>, room_id: u128, player: Player) -> Result<
    u128,
    StateError,
> {
    if !has_room(rooms, room_id) {
        Err(StateError::RoomNotFound)
    } else if room_of(rooms, room_id).players.len() >= 2 {
        Err(StateError::RoomFull)
    } else if has_player(room_of(rooms, room_id).players, player.id) {
        Err(StateError::DuplicatePlayer)
    } else {
        Ok(room_id)
    }
}

/// The rooms after joining room `room_id`: the player is appended to that
/// room, or nothing changes when the join is refused.
pub open spec fn after_join(rooms: Seq<RoomView>, room_id: u128, player: Player) -> Seq<RoomView> {
    if join_outcome(rooms, room_id, player) is Ok {
        rooms.update(room_index(rooms, room_id), with_player(room_of(rooms, room_id), player))
    } else {
        rooms
    }
}

/// What opening a room with id `room_id` answers: the id must be unused.
pub open spec fn open_outcome(rooms: Seq<RoomView>, room_id: u128) -> Result<u128, StateError> {
    if has_room(rooms, room_id) {
        Err(StateError::DuplicateRoom)
    } else {
        Ok(room_id)
    }
}

/// The rooms after opening a room for `player`: a new room holding only
/// that player is appended, unless the id is taken.
pub open spec fn after_open(
    rooms: Seq<RoomView>,
    room_id: u128,
    kind: RoomType,
    player: Player,
) -> Seq<RoomView> {
    if has_room(rooms, room_id) {
        rooms
    } else {
        rooms.push(RoomView { id: room_id, kind, players: seq![player] })
    }
}

/// Matchmaking: join the first room with a free slot, or else open a public
/// room with id `new_id`.
pub open spec fn quick_outcome(rooms: Seq<RoomView>, player: Player, new_id: u128) -> Result<
    u128,
    StateError,
> {
    match open_room_id(rooms) {
        Some(id) => join_outcome(rooms, id, player),
        None => open_outcome(rooms, new_id),
    }
}

pub open spec fn after_quick(rooms: Seq<RoomView>, player: Player, new_id: u128) -> Seq<RoomView> {
    match open_room_id(rooms) {
        Some(id) => after_join(rooms, id, player),
        None => after_open(rooms, new_id, RoomType::Public, player),
    }
}

pub proof fn lemma_after_join_wf(rooms: Seq<RoomView>, room_id: u128, player: Player)
    requires
        rooms_wf(rooms),
    ensures
        rooms_wf(after_join(rooms, room_id, player)),
{
    if join_outcome(rooms, room_id, player) is Ok {
        let i = room_index(rooms, room_id);
        let r = room_of(rooms, room_id);
        let n = with_player(r, player);
        let out = after_join(rooms, room_id, player);
        assert forall|a: int, b: int|
            0 <= a < n.players.len() && 0 <= b < n.players.len() && a != b implies #[trigger] n.players[a].id
            != #[trigger] n.players[b].id by {
            if a == r.players.len() {
                assert(r.players[b].id != player.id);
            } else if b == r.players.len() {
                assert(r.players[a].id != player.id);
            } else {
                assert(room_wf(rooms[i]));
            }
        }
        assert(room_wf(n));
        assert forall|k: int| 0 <= k < out.len() implies room_wf(#[trigger] out[k]) by {
            if k != i {
                assert(out[k] == rooms[k]);
            }
        }
    }
}

pub proof fn lemma_after_open_wf(rooms: Seq<RoomView>, room_id: u128, kind: RoomType, player: Player)
    requires
        rooms_wf(rooms),
    ensures
        rooms_wf(after_open(rooms, room_id, kind, player)),
{
    if !has_room(rooms, room_id) {
        let out = after_open(rooms, room_id, kind, player);
        assert forall|i: int, j: int|
            0 <= i < out.len() && 0 <= j < out.len() && i != j implies #[trigger] out[i].id
            != #[trigger] out[j].id by {
            if i == rooms.len() {
                assert(rooms[j].id != room_id);
            } else if j == rooms.len() {
                assert(rooms[i].id != room_id);
            }
        }
        assert forall|k: int| 0 <= k < out.len() implies room_wf(#[trigger] out[k]) by {
            if k < rooms.len() {
                assert(out[k] == rooms[k]);
            }
        }
    }
}

pub proof fn lemma_after_quick_wf(rooms: Seq<RoomView>, player: Player, new_id: u128)
    requires
        rooms_wf(rooms),
    ensures
        rooms_wf(after_quick(rooms, player, new_id)),
{
    match open_room_id(rooms) {
        Some(id) => lemma_after_join_wf(rooms, id, player),
        None => lemma_after_open_wf(rooms, new_id, RoomType::Public, player),
    }
}

/// What submitting a choice answers: the room and the player must exist and
/// the player must not have chosen yet.
pub open spec fn choose_outcome(rooms: Seq<RoomView>, room_id: u128, player_id: u128) -> Result<
    (),
    StateError,
> {
    if !has_room(rooms, room_id) {
        Err(StateError::RoomNotFound)
    } else if !has_player(room_of(rooms, room_id).players, player_id) {
        Err(StateError::PlayerNotFound)
    } else if has_choice(player_of(room_of(rooms, room_id).players, player_id)) {
        Err(StateError::AlreadyChosen)
    } else {
        Ok(())
    }
}

/// The rooms after submitting a choice: the player's choice is set, or
/// nothing changes when the submission is refused.
pub open spec fn after_choose(
    rooms: Seq<RoomView>,
    room_id: u128,
    player_id: u128,
    choice: Choice,
) -> Seq<RoomView> {
    if choose_outcome(rooms, room_id, player_id) is Ok {
        let r = room_of(rooms, room_id);
        rooms.update(
            room_index(rooms, room_id),
            RoomView {
                id: r.id,
                kind: r.kind,
                players: r.players.update(
                    player_index(r.players, player_id),
                    Player { id: player_id, choice: Some(choice) },
                ),
            },
        )
    } else {
        rooms
    }
}

/// Whether the player has submitted a choice in the room.
pub open spec fn chosen_in(rooms: Seq<RoomView>, room_id: u128, player_id: u128) -> bool {
    has_room(rooms, room_id) && has_player(room_of(rooms, room_id).players, player_id)
        && has_choice(player_of(room_of(rooms, room_id).players, player_id))
}

/// Whether the room exists and both of its players have chosen.
pub open spec fn finished_in(rooms: Seq<RoomView>, room_id: u128) -> bool {
    has_room(rooms, room_id) && all_chosen(room_of(rooms, room_id))
}

/// The winner of the room's round, or `None` on a draw or while the round
/// is not finished.
pub open spec fn winner_in(rooms: Seq<RoomView>, room_id: u128) -> Option<Player> {
    if finished_in(rooms, room_id) {
        winner_of(room_of(rooms, room_id).players[0], room_of(rooms, room_id).players[1])
    } else {
        None
    }
}

/// The rooms after a player leaves: the room it was in is released from
/// the registry, so the round can neither finish nor take in anyone else.
pub open spec fn after_leave(rooms: Seq<RoomView>, room_id: u128, player_id: u128) -> Seq<RoomView> {
    if has_room(rooms, room_id) && has_player(room_of(rooms, room_id).players, player_id) {
        rooms.remove(room_index(rooms, room_id))
    } else {
        rooms
    }
}

pub open spec fn leave_outcome(rooms: Seq<RoomView>, room_id: u128, player_id: u128) -> Result<
    (),
    StateError,
> {
    if !has_room(rooms, room_id) {
        Err(StateError::RoomNotFound)
    } else if !has_player(room_of(rooms, room_id).players, player_id) {
        Err(StateError::PlayerNotFound)
    } else {
        Ok(())
    }
}

/// The notice that ends a finished round.
pub open spec fn result_notice(r: RoomView) -> Notice {
    match winner_of(r.players[0], r.players[1]) {
        Some(w) => Notice::Winner(w.id, w.choice.unwrap()),
        None => Notice::Draw,
    }
}

/// What to publish after a player's choice was accepted, given the rooms as
/// they are afterwards: that the player has chosen, then the round's result
/// if this choice finished it.
pub open spec fn notices_after_choice(rooms: Seq<RoomView>, room_id: u128, player_id: u128) -> Seq<
    Notice,
> {
    if finished_in(rooms, room_id) {
        seq![Notice::Chosen(player_id), result_notice(room_of(rooms, room_id))]
    } else {
        seq![Notice::Chosen(player_id)]
    }
}

/// What a client message answers: a choice token is submitted; any other
/// text is refused.
pub open spec fn message_outcome(
    rooms: Seq<RoomView>,
    room_id: u128,
    player_id: u128,
    text: Seq<char>,
) -> Result<Seq<Notice>, StateError> {
    match choice_from_text(text) {
        None => Err(StateError::NotAChoice),
        Some(c) => match choose_outcome(rooms, room_id, player_id) {
            Err(e) => Err(e),
            Ok(_) => Ok(notices_after_choice(after_choose(rooms, room_id, player_id, c), room_id, player_id)),
        },
    }
}

pub open spec fn after_message(
    rooms: Seq<RoomView>,
    room_id: u128,
    player_id: u128,
    text: Seq<char>,
) -> Seq<RoomView> {
    match choice_from_text(text) {
        None => rooms,
        Some(c) => after_choose(rooms, room_id, player_id, c),
    }
}

pub proof fn lemma_after_choose_wf(rooms: Seq<RoomView>, room_id: u128, player_id: u128, c: Choice)
    requires
        rooms_wf(rooms),
    ensures
        rooms_wf(after_choose(rooms, room_id, player_id, c)),
        after_choose(rooms, room_id, player_id, c).len() == rooms.len(),
        forall|k: int|
            0 <= k < rooms.len() ==> (#[trigger] after_choose(rooms, room_id, player_id, c)[k]).id
                == rooms[k].id,
        forall|k: int|
            0 <= k < rooms.len() ==> (#[trigger] after_choose(
                rooms,
                room_id,
                player_id,
                c,
            )[k]).players.len() == rooms[k].players.len(),
{
    if choose_outcome(rooms, room_id, player_id) is Ok {
        let i = room_index(rooms, room_id);
        let r = rooms[i];
        let j = player_index(r.players, player_id);
        let out = after_choose(rooms, room_id, player_id, c);
        let np = r.players.update(j, Player { id: player_id, choice: Some(c) });
        assert(room_wf(r));
        assert forall|a: int, b: int|
            0 <= a < np.len() && 0 <= b < np.len() && a != b implies #[trigger] np[a].id
            != #[trigger] np[b].id by {
            assert(r.players[a].id != r.players[b].id);
        }
        assert forall|k: int| 0 <= k < out.len() implies room_wf(#[trigger] out[k]) by {
            if k != i {
                assert(out[k] == rooms[k]);
            }
        }
    }
}

pub proof fn lemma_after_leave_wf(rooms: Seq<RoomView>, room_id: u128, player_id: u128)
    requires
        rooms_wf(rooms),
    ensures
        rooms_wf(after_leave(rooms, room_id, player_id)),
{
    if has_room(rooms, room_id) && has_player(room_of(rooms, room_id).players, player_id) {
        let i = room_index(rooms, room_id);
        let out = after_leave(rooms, room_id, player_id);
        assert forall|k: int| 0 <= k < out.len() implies room_wf(#[trigger] out[k]) by {
            if k < i {
                assert(out[k] == rooms[k]);
            } else {
                assert(out[k] == rooms[k + 1]);
            }
        }
        assert forall|a: int, b: int|
            0 <= a < out.len() && 0 <= b < out.len() && a != b implies #[trigger] out[a].id
            != #[trigger] out[b].id by {
            let a2 = if a < i {
                a
            } else {
                a + 1
            };
            let b2 = if b < i {
                b
            } else {
                b + 1
            };
            assert(out[a] == rooms[a2]);
            assert(out[b] == rooms[b2]);
        }
    }
}

/// In a well-formed registry, the room found at `i` is the one its id names.
pub proof fn lemma_room_index(rooms: Seq<RoomView>, id: u128, i: int)
    requires
        rooms_wf(rooms),
        0 <= i < rooms.len(),
        rooms[i].id == id,
    ensures
        has_room(rooms, id),
        room_index(rooms, id) == i,
{
    assert(has_room(rooms, id));
}

/// Among players with distinct ids, the player found at `j` is the one its id
/// names.
pub proof fn lemma_player_index(ps: Seq<Player>, id: u128, j: int)
    requires
        players_distinct(ps),
        0 <= j < ps.len(),
        ps[j].id == id,
    ensures
        has_player(ps, id),
        player_index(ps, id) == j,
{
    assert(has_player(ps, id));
}

/// The first room with a free slot is the one matchmaking picks.
pub proof fn lemma_first_open(rooms: Seq<RoomView>, i: int)
    requires
        is_first_open(rooms, i),
    ensures
        open_room_id(rooms) == Some(rooms[i].id),
{
    assert(!no_open_room(rooms));
    let k = choose|k: int| is_first_open(rooms, k);
    assert(is_first_open(rooms, k));
    if k < i {
        assert(rooms[k].players.len() >= 2);
    } else if i < k {
        assert(rooms[i].players.len() >= 2);
    }
}

fn find_player(players: &Vec<Player>, player_id: u128) -> (r: Option<usize>)
    requires
        players_distinct(players@),
    ensures
        match r {
            Some(j) => j < players@.len() && has_player(players@, player_id) && j == player_index(
                players@,
                player_id,
            ),
            None => !has_player(players@, player_id),
        },
{
    let mut j: usize = 0;
    while j < players.len()
        invariant
            players_distinct(players@),
            j <= players@.len(),
            forall|k: int| 0 <= k < j ==> (#[trigger] players@[k]).id != player_id,
        decreases players@.len() - j,
    {
        if players[j].id == player_id {
            proof {
                lemma_player_index(players@, player_id, j as int);
            }
            return Some(j);
        }
        j = j + 1;
    }
    None
}

impl Room {
    /// A new empty room of the given kind, with a random identifier and a
    /// fresh channel.
    pub fn new(room_type: RoomType) -> (r: Room)
        ensures
            r@.kind == room_type,
            r@.players.len() == 0,
            uuid_version(r@.id) == 4,
            uuid_variant(r@.id) == 2,
    {
        Room::with_id(random_id(), room_type)
    }

    /// A new empty room with the given identifier and a fresh channel.
    pub fn with_id(id: u128, room_type: RoomType) -> (r: Room)
        ensures
            r@ == (RoomView { id, kind: room_type, players: Seq::empty() }),
    {
        Room { id, players: Vec::new(), room_type, tx: new_broadcast(BROADCAST_CAPACITY) }
    }

    pub fn id(&self) -> (r: u128)
        ensures
            r == self@.id,
    {
        self.id
    }

    pub fn room_type(&self) -> (r: RoomType)
        ensures
            r == self@.kind,
    {
        self.room_type
    }

    pub fn players(&self) -> (r: &[Player])
        ensures
            r@ == self@.players,
    {
        self.players.as_slice()
    }
}

impl AppState {
    pub open spec fn wf(&self) -> bool {
        rooms_wf(self@)
    }

    /// An empty registry.
    pub fn new() -> (r: AppState)
        ensures
            r@ == Seq::<RoomView>::empty(),
            r.wf(),
    {
        let r = AppState { rooms: Vec::new() };
        assert(r@ =~= Seq::<RoomView>::empty());
        r
    }

    /// The number of live rooms.
    pub fn room_count(&self) -> (r: usize)
        ensures
            r == self@.len(),
    {
        self.rooms.len()
    }

    /// The room at position `i` of the registry.
    pub fn room_at(&self, i: usize) -> (r: &Room)
        requires
            i < self@.len(),
        ensures
            r@ == self@[i as int],
    {
        &self.rooms[i]
    }

    fn find_room(&self, room_id: u128) -> (r: Option<usize>)
        requires
            self.wf(),
        ensures
            match r {
                Some(i) => i < self@.len() && has_room(self@, room_id) && i == room_index(
                    self@,
                    room_id,
                ),
                None => !has_room(self@, room_id),
            },
    {
        let mut i: usize = 0;
        while i < self.rooms.len()
            invariant
                self.wf(),
                i <= self@.len(),
                self@.len() == self.rooms@.len(),
                forall|k: int| 0 <= k < i ==> (#[trigger] self@[k]).id != room_id,
            decreases self.rooms@.len() - i,
        {
            assert(self@[i as int] == self.rooms@[i as int]@);
            if self.rooms[i].id == room_id {
                proof {
                    lemma_room_index(self@, room_id, i as int);
                }
                return Some(i);
            }
            i = i + 1;
        }
        None
    }

    /// The first room with a free slot, if any.
    pub fn available_rooms(&self) -> (r: Option<u128>)
        ensures
            r == open_room_id(self@),
    {
        let mut i: usize = 0;
        while i < self.rooms.len()
            invariant
                i <= self@.len(),
                self@.len() == self.rooms@.len(),
                forall|k: int| 0 <= k < i ==> (#[trigger] self@[k]).players.len() >= 2,
            decreases self.rooms@.len() - i,
        {
            assert(self@[i as int] == self.rooms@[i as int]@);
            if self.rooms[i].players.len() < 2 {
                proof {
                    lemma_first_open(self@, i as int);
                }
                return Some(self.rooms[i].id);
            }
            i = i + 1;
        }
        None
    }
    /// Adds `player` to the room `room_id`.
    pub fn add_player_to_existing_room(&mut self, room_id: u128, player: Player) -> (r: Result<
        u128,
        StateError,
    >)
        requires
            old(self).wf(),
        ensures
            final(self).wf(),
            r == join_outcome(old(self)@, room_id, player),
            final(self)@ == after_join(old(self)@, room_id, player),
    {
        let ghost before = self@;
        match self.find_room(room_id) {
            None => Err(StateError::RoomNotFound),
            Some(i) => {
                assert(self@[i as int] == self.rooms@[i as int]@);
                assert(room_wf(self@[i as int]));
                if self.rooms[i].players.len() >= 2 {
                    return Err(StateError::RoomFull);
                }
                if find_player(&self.rooms[i].players, player.id).is_some() {
                    return Err(StateError::DuplicatePlayer);
                }
                let mut room = self.rooms.remove(i);
                room.players.push(player);
                self.rooms.insert(i, room);
                assert(self@ =~= before.update(i as int, with_player(before[i as int], player)));
                proof {
                    lemma_after_join_wf(before, room_id, player);
                }
                Ok(room_id)
            },
        }
    }

    /// Opens a room with id `room_id` and kind `room_type` that holds
    /// `player` alone.
    pub fn open_room(&mut self, room_id: u128, room_type: RoomType, player: Player) -> (r: Result<
        u128,
        StateError,
    >)
        requires
            old(self).wf(),
        ensures
            final(self).wf(),
            r == open_outcome(old(self)@, room_id),
            final(self)@ == after_open(old(self)@, room_id, room_type, player),
    {
        let ghost before = self@;
        if self.find_room(room_id).is_some() {
            return Err(StateError::DuplicateRoom);
        }
        let mut room = Room::with_id(room_id, room_type);
        room.players.push(player);
        self.rooms.push(room);
        assert(self@ =~= before.push(RoomView { id: room_id, kind: room_type, players: seq![player] }));
        proof {
            lemma_after_open_wf(before, room_id, room_type, player);
        }
        Ok(room_id)
    }

    /// Opens a room of kind `room_type` with a random identifier that holds
    /// `player` alone; refused, changing nothing, if the identifier is taken.
    pub fn add_player_to_new_room(&mut self, room_type: RoomType, player: Player) -> (r: Result<
        u128,
        StateError,
    >)
        requires
            old(self).wf(),
        ensures
            final(self).wf(),
            exists|id: u128|
                uuid_version(id) == 4 && uuid_variant(id) == 2 && r == open_outcome(old(self)@, id)
                    && final(self)@ == after_open(old(self)@, id, room_type, player),
    {
        let id = random_id();
        self.open_room(id, room_type, player)
    }

    /// Matchmaking as one step: `player` joins the first room with a free
    /// slot, or else a new public room with id `new_room_id`.
    pub fn join_or_create(&mut self, player: Player, new_room_id: u128) -> (r: Result<
        u128,
        StateError,
    >)
        requires
            old(self).wf(),
        ensures
            final(self).wf(),
            r == quick_outcome(old(self)@, player, new_room_id),
            final(self)@ == after_quick(old(self)@, player, new_room_id),
    {
        match self.available_rooms() {
            Some(id) => self.add_player_to_existing_room(id, player),
            None => self.open_room(new_room_id, RoomType::Public, player),
        }
    }

    /// Matchmaking as one step, drawing a random identifier for the room
    /// that may be opened.
    pub fn join_quick(&mut self, player: Player) -> (r: Result<u128, StateError>)
        requires
            old(self).wf(),
        ensures
            final(self).wf(),
            exists|id: u128|
                uuid_version(id) == 4 && uuid_variant(id) == 2 && r == quick_outcome(
                    old(self)@,
                    player,
                    id,
                ) && final(self)@ == after_quick(old(self)@, player, id),
    {
        let id = random_id();
        self.join_or_create(player, id)
    }
    /// Records `choice` for the player, unless the player has already chosen
    /// this round: a second submission changes nothing.
    pub fn set_player_choice(&mut self, room_id: u128, player_id: u128, choice: Choice) -> (r:
        Result<(), StateError>)
        requires
            old(self).wf(),
        ensures
            final(self).wf(),
            r == choose_outcome(old(self)@, room_id, player_id),
            final(self)@ == after_choose(old(self)@, room_id, player_id, choice),
    {
        let ghost before = self@;
        match self.find_room(room_id) {
            None => Err(StateError::RoomNotFound),
            Some(i) => {
                assert(self@[i as int] == self.rooms@[i as int]@);
                assert(room_wf(self@[i as int]));
                match find_player(&self.rooms[i].players, player_id) {
                    None => Err(StateError::PlayerNotFound),
                    Some(j) => {
                        if self.rooms[i].players[j].choice.is_some() {
                            return Err(StateError::AlreadyChosen);
                        }
                        assert(self.rooms@[i as int].players@[j as int].id == player_id);
                        let mut room = self.rooms.remove(i);
                        let mut p = room.players.remove(j);
                        p.choice = Some(choice);
                        room.players.insert(j, p);
                        assert(room@.players =~= before[i as int].players.update(
                            j as int,
                            Player { id: player_id, choice: Some(choice) },
                        ));
                        self.rooms.insert(i, room);
                        proof {
                            let r0 = before[i as int];
                            assert(self@ =~= before.update(
                                i as int,
                                RoomView {
                                    id: r0.id,
                                    kind: r0.kind,
                                    players: r0.players.update(
                                        j as int,
                                        Player { id: player_id, choice: Some(choice) },
                                    ),
                                },
                            ));
                            lemma_after_choose_wf(before, room_id, player_id, choice);
                        }
                        Ok(())
                    },
                }
            },
        }
    }

    /// Whether the player has submitted a choice in the room; `false` when
    /// the room or the player is unknown.
    pub fn has_player_chosen(&self, room_id: u128, player_id: u128) -> (r: bool)
        requires
            self.wf(),
        ensures
            r == chosen_in(self@, room_id, player_id),
    {
        match self.find_room(room_id) {
            None => false,
            Some(i) => {
                assert(self@[i as int] == self.rooms@[i as int]@);
                assert(room_wf(self@[i as int]));
                match find_player(&self.rooms[i].players, player_id) {
                    None => false,
                    Some(j) => self.rooms[i].players[j].choice.is_some(),
                }
            },
        }
    }

    /// Whether the room holds two players who have both chosen; `false` for
    /// an unknown room.
    pub fn players_finished(&self, room_id: u128) -> (r: bool)
        requires
            self.wf(),
        ensures
            r == finished_in(self@, room_id),
    {
        match self.find_room(room_id) {
            None => false,
            Some(i) => {
                assert(self@[i as int] == self.rooms@[i as int]@);
                let players = &self.rooms[i].players;
                players.len() == 2 && players[0].choice.is_some() && players[1].choice.is_some()
            },
        }
    }

    /// The winner of the room's round; `None` on a draw, for an unfinished
    /// round or for an unknown room.
    pub fn calculate_winner(&self, room_id: u128) -> (r: Option<Player>)
        requires
            self.wf(),
        ensures
            r == winner_in(self@, room_id),
    {
        match self.find_room(room_id) {
            None => None,
            Some(i) => {
                assert(self@[i as int] == self.rooms@[i as int]@);
                let players = &self.rooms[i].players;
                if players.len() == 2 && players[0].choice.is_some() && players[1].choice.is_some() {
                    calculate_rps(&players[0], &players[1])
                } else {
                    None
                }
            },
        }
    }

    /// A handle to the room's channel, for publishing and subscribing.
    pub fn get_room_sender(&self, room_id: u128) -> (r: Result<
        tokio::sync::broadcast::Sender<String>,
        StateError,
    >)
        requires
            self.wf(),
        ensures
            r is Err <==> !has_room(self@, room_id),
            r is Err ==> r == Err::<tokio::sync::broadcast::Sender<String>, StateError>(
                StateError::RoomNotFound,
            ),
    {
        match self.find_room(room_id) {
            None => Err(StateError::RoomNotFound),
            Some(i) => Ok(share_sender(&self.rooms[i].tx)),
        }
    }

    /// A departing player releases its room: the room leaves the registry,
    /// with whoever else was in it, and is never offered again.
    pub fn remove_player(&mut self, room_id: u128, player_id: u128) -> (r: Result<(), StateError>)
        requires
            old(self).wf(),
        ensures
            final(self).wf(),
            r == leave_outcome(old(self)@, room_id, player_id),
            final(self)@ == after_leave(old(self)@, room_id, player_id),
    {
        let ghost before = self@;
        match self.find_room(room_id) {
            None => Err(StateError::RoomNotFound),
            Some(i) => {
                assert(self@[i as int] == self.rooms@[i as int]@);
                assert(room_wf(self@[i as int]));
                match find_player(&self.rooms[i].players, player_id) {
                    None => Err(StateError::PlayerNotFound),
                    Some(_) => {
                        self.rooms.remove(i);
                        assert(self@ =~= before.remove(i as int));
                        proof {
                            lemma_after_leave_wf(before, room_id, player_id);
                        }
                        Ok(())
                    },
                }
            },
        }
    }

    /// One step of a player's session: a choice token from the client is
    /// recorded, and the notices to publish on the room's channel are
    /// returned, the round's result among them when this choice finished it.
    /// Any other text, or a refused submission, changes nothing.
    pub fn handle_message(&mut self, room_id: u128, player_id: u128, text: &str) -> (r: Result<
        Vec<Notice>,
        StateError,
    >)
        requires
            old(self).wf(),
        ensures
            final(self).wf(),
            final(self)@ == after_message(old(self)@, room_id, player_id, text@),
            match (r, message_outcome(old(self)@, room_id, player_id, text@)) {
                (Ok(v), Ok(s)) => v@ == s,
                (Err(e), Err(f)) => e == f,
                _ => false,
            },
    {
        let choice = match parse_choice(text) {
            None => return Err(StateError::NotAChoice),
            Some(c) => c,
        };
        match self.set_player_choice(room_id, player_id, choice) {
            Err(e) => Err(e),
            Ok(()) => {
                let mut notices: Vec<Notice> = Vec::new();
                notices.push(Notice::Chosen(player_id));
                if self.players_finished(room_id) {
                    let ghost rooms = self@;
                    let notice = match self.calculate_winner(room_id) {
                        Some(w) => {
                            proof {
                                let rv = room_of(rooms, room_id);
                                assert(w == rv.players[0] || w == rv.players[1]);
                            }
                            Notice::Winner(w.id, w.choice.unwrap())
                        },
                        None => Notice::Draw,
                    };
                    notices.push(notice);
                    assert(notices@ =~= seq![Notice::Chosen(player_id), result_notice(room_of(rooms, room_id))]);
                } else {
                    assert(notices@ =~= seq![Notice::Chosen(player_id)]);
                }
                Ok(notices)
            },
        }
    }
}

} // verus!
