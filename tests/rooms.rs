use rps_rooms::{AppState, Notice, Player, Room, RoomType, StateError};

fn ids_of(state: &AppState, i: usize) -> Vec<u128> {
    state.room_at(i).players().iter().map(|p| p.id).collect()
}

#[test]
fn arrivals_pair_up_into_ceil_half_rooms() {
    let mut state = AppState::new();
    for k in 1..=5u128 {
        let r = state.join_or_create(Player::with_id(k), 100 + k);
        assert!(r.is_ok());
    }
    assert_eq!(state.room_count(), 3);
    assert_eq!(ids_of(&state, 0), vec![1, 2]);
    assert_eq!(ids_of(&state, 1), vec![3, 4]);
    assert_eq!(ids_of(&state, 2), vec![5]);
    assert_eq!(state.room_at(0).id(), 101);
    assert_eq!(state.room_at(1).id(), 103);
    assert_eq!(state.room_at(2).id(), 105);
    for i in 0..state.room_count() {
        assert!(state.room_at(i).players().len() <= 2);
    }
}

#[test]
fn even_arrivals_fill_every_room() {
    let mut state = AppState::new();
    for k in 1..=6u128 {
        state.join_or_create(Player::with_id(k), 200 + k).unwrap();
    }
    assert_eq!(state.room_count(), 3);
    assert_eq!(state.available_rooms(), None);
}

#[test]
fn quick_join_with_random_room_ids() {
    let mut state = AppState::new();
    let a = state.join_quick(Player::with_id(1)).unwrap();
    let b = state.join_quick(Player::with_id(2)).unwrap();
    let c = state.join_quick(Player::with_id(3)).unwrap();
    assert_eq!(a, b);
    assert_ne!(a, c);
    assert_eq!(state.room_count(), 2);
    assert_eq!((a >> 76) & 0xf, 4);
}

#[test]
fn available_rooms_is_first_fit() {
    let mut state = AppState::new();
    assert_eq!(state.available_rooms(), None);
    state.open_room(1, RoomType::Public, Player::with_id(10)).unwrap();
    state.add_player_to_existing_room(1, Player::with_id(11)).unwrap();
    state.open_room(2, RoomType::Public, Player::with_id(12)).unwrap();
    state.open_room(3, RoomType::Private, Player::with_id(13)).unwrap();
    assert_eq!(state.available_rooms(), Some(2));
    assert_eq!(state.room_at(2).room_type(), RoomType::Private);
}

#[test]
fn joining_errors() {
    let mut state = AppState::new();
    assert_eq!(
        state.add_player_to_existing_room(7, Player::with_id(1)),
        Err(StateError::RoomNotFound)
    );
    state.open_room(7, RoomType::Public, Player::with_id(1)).unwrap();
    assert_eq!(
        state.add_player_to_existing_room(7, Player::with_id(1)),
        Err(StateError::DuplicatePlayer)
    );
    assert_eq!(state.add_player_to_existing_room(7, Player::with_id(2)), Ok(7));
    assert_eq!(
        state.add_player_to_existing_room(7, Player::with_id(3)),
        Err(StateError::RoomFull)
    );
    assert_eq!(
        state.open_room(7, RoomType::Public, Player::with_id(4)),
        Err(StateError::DuplicateRoom)
    );
    assert_eq!(state.room_count(), 1);
    assert_eq!(ids_of(&state, 0), vec![1, 2]);
}

#[test]
fn new_room_gets_random_id() {
    let mut state = AppState::new();
    let id = state.add_player_to_new_room(RoomType::Public, Player::with_id(1)).unwrap();
    assert_eq!(state.room_at(0).id(), id);
    assert_eq!((id >> 76) & 0xf, 4);
    let room = Room::new(RoomType::Private);
    assert_eq!(room.players().len(), 0);
    assert_eq!(room.room_type(), RoomType::Private);
    assert_eq!((room.id() >> 62) & 0x3, 2);
}

#[test]
fn second_choice_is_ignored() {
    let mut state = AppState::new();
    state.open_room(1, RoomType::Public, Player::with_id(10)).unwrap();
    assert!(!state.has_player_chosen(1, 10));
    assert_eq!(state.set_player_choice(1, 10, rps_rooms::Choice::Rock), Ok(()));
    assert!(state.has_player_chosen(1, 10));
    assert_eq!(
        state.set_player_choice(1, 10, rps_rooms::Choice::Paper),
        Err(StateError::AlreadyChosen)
    );
    assert_eq!(state.room_at(0).players()[0].choice, Some(rps_rooms::Choice::Rock));
    assert_eq!(
        state.handle_message(1, 10, "scissors"),
        Err(StateError::AlreadyChosen)
    );
    assert_eq!(state.room_at(0).players()[0].choice, Some(rps_rooms::Choice::Rock));
}

#[test]
fn choice_lookup_errors() {
    let mut state = AppState::new();
    assert_eq!(
        state.set_player_choice(1, 10, rps_rooms::Choice::Rock),
        Err(StateError::RoomNotFound)
    );
    state.open_room(1, RoomType::Public, Player::with_id(10)).unwrap();
    assert_eq!(
        state.set_player_choice(1, 11, rps_rooms::Choice::Rock),
        Err(StateError::PlayerNotFound)
    );
    assert_eq!(state.handle_message(1, 10, "lizard"), Err(StateError::NotAChoice));
    assert!(!state.has_player_chosen(1, 10));
    assert!(!state.has_player_chosen(2, 10));
}

#[test]
fn lone_player_never_finishes() {
    let mut state = AppState::new();
    state.open_room(1, RoomType::Public, Player::with_id(10)).unwrap();
    state.set_player_choice(1, 10, rps_rooms::Choice::Rock).unwrap();
    assert!(!state.players_finished(1));
    assert_eq!(state.calculate_winner(1), None);
    assert!(!state.players_finished(99));
}

#[test]
fn winner_of_finished_room() {
    let mut state = AppState::new();
    state.open_room(1, RoomType::Public, Player::with_id(10)).unwrap();
    state.add_player_to_existing_room(1, Player::with_id(11)).unwrap();
    state.set_player_choice(1, 10, rps_rooms::Choice::Paper).unwrap();
    assert!(!state.players_finished(1));
    assert_eq!(state.calculate_winner(1), None);
    state.set_player_choice(1, 11, rps_rooms::Choice::Scissors).unwrap();
    assert!(state.players_finished(1));
    assert_eq!(state.calculate_winner(1).map(|p| p.id), Some(11));
}

#[test]
fn rock_against_scissors_session() {
    let mut state = AppState::new();
    let a = 0xa;
    let b = 0xb;
    let room = state.join_or_create(Player::with_id(a), 1).unwrap();
    assert_eq!(state.join_or_create(Player::with_id(b), 2), Ok(room));
    assert_eq!(state.handle_message(room, a, "rock").unwrap(), vec![Notice::Chosen(a)]);
    assert_eq!(
        state.handle_message(room, b, "scissors").unwrap(),
        vec![Notice::Chosen(b), Notice::Winner(a, rps_rooms::Choice::Rock)]
    );
    assert_eq!(state.handle_message(room, a, "paper"), Err(StateError::AlreadyChosen));
    assert_eq!(state.handle_message(room, b, "rock"), Err(StateError::AlreadyChosen));
}

#[test]
fn paper_against_paper_session_is_a_draw() {
    let mut state = AppState::new();
    let room = state.join_or_create(Player::with_id(1), 5).unwrap();
    state.join_or_create(Player::with_id(2), 6).unwrap();
    assert_eq!(state.handle_message(room, 1, "paper").unwrap(), vec![Notice::Chosen(1)]);
    assert_eq!(
        state.handle_message(room, 2, "paper").unwrap(),
        vec![Notice::Chosen(2), Notice::Draw]
    );
    assert_eq!(state.calculate_winner(room), None);
}

#[test]
fn opponent_leaving_before_choosing() {
    let mut state = AppState::new();
    let room = state.join_or_create(Player::with_id(1), 5).unwrap();
    state.join_or_create(Player::with_id(2), 6).unwrap();
    assert_eq!(state.remove_player(room, 1), Ok(()));
    assert_eq!(state.room_count(), 0);
    assert_eq!(state.available_rooms(), None);
    assert_eq!(state.handle_message(room, 2, "rock"), Err(StateError::RoomNotFound));
    assert!(!state.players_finished(room));
    assert_eq!(state.calculate_winner(room), None);
    let next = state.join_or_create(Player::with_id(3), 7).unwrap();
    assert_eq!(next, 7);
    assert_eq!(
        state.add_player_to_existing_room(room, Player::with_id(4)),
        Err(StateError::RoomNotFound)
    );
    assert_eq!(state.handle_message(room, 2, "paper"), Err(StateError::RoomNotFound));
    assert!(!state.players_finished(room));
    assert_eq!(state.remove_player(room, 2), Err(StateError::RoomNotFound));
    assert_eq!(state.remove_player(7, 9), Err(StateError::PlayerNotFound));
}

#[test]
fn leaving_after_the_result_releases_the_room() {
    let mut state = AppState::new();
    let room = state.join_or_create(Player::with_id(1), 5).unwrap();
    state.join_or_create(Player::with_id(2), 6).unwrap();
    state.handle_message(room, 1, "rock").unwrap();
    state.handle_message(room, 2, "paper").unwrap();
    assert_eq!(state.join_or_create(Player::with_id(3), 7), Ok(7));
    assert_eq!(state.room_count(), 2);
    assert_eq!(state.remove_player(room, 1), Ok(()));
    assert_eq!(state.room_count(), 1);
    assert_eq!(state.join_or_create(Player::with_id(4), 8), Ok(7));
    assert_eq!(state.handle_message(room, 2, "rock"), Err(StateError::RoomNotFound));
    assert_eq!(state.handle_message(7, 3, "rock").unwrap(), vec![Notice::Chosen(3)]);
}

#[test]
fn room_sender_reaches_subscribers() {
    let mut state = AppState::new();
    state.open_room(3, RoomType::Public, Player::with_id(1)).unwrap();
    assert!(matches!(state.get_room_sender(4), Err(StateError::RoomNotFound)));
    let tx = state.get_room_sender(3).unwrap();
    let mut rx = tx.subscribe();
    let other = state.get_room_sender(3).unwrap();
    assert!(tx.same_channel(&other));
    other.send("hello".to_string()).unwrap();
    assert_eq!(rx.try_recv().unwrap(), "hello");
}
