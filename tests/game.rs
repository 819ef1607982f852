use rps_rooms::{calculate_rps, parse_choice, parse_match_type, Choice, Player, RoomType};

fn chosen(id: u128, c: Choice) -> Player {
    Player { id, choice: Some(c) }
}

#[test]
fn rock_beats_scissors() {
    let w = calculate_rps(&chosen(1, Choice::Rock), &chosen(2, Choice::Scissors));
    assert_eq!(w, Some(chosen(1, Choice::Rock)));
}

#[test]
fn scissors_beat_paper() {
    let w = calculate_rps(&chosen(1, Choice::Scissors), &chosen(2, Choice::Paper));
    assert_eq!(w, Some(chosen(1, Choice::Scissors)));
}

#[test]
fn paper_beats_rock() {
    let w = calculate_rps(&chosen(1, Choice::Paper), &chosen(2, Choice::Rock));
    assert_eq!(w, Some(chosen(1, Choice::Paper)));
}

#[test]
fn second_player_can_win() {
    let w = calculate_rps(&chosen(1, Choice::Scissors), &chosen(2, Choice::Rock));
    assert_eq!(w.map(|p| p.id), Some(2));
}

#[test]
fn equal_choices_are_a_draw() {
    for c in [Choice::Rock, Choice::Paper, Choice::Scissors] {
        assert_eq!(calculate_rps(&chosen(1, c), &chosen(2, c)), None);
    }
}

#[test]
fn resolution_is_symmetric() {
    let all = [Choice::Rock, Choice::Paper, Choice::Scissors];
    for a in all {
        for b in all {
            let pa = chosen(10, a);
            let pb = chosen(20, b);
            let ab = calculate_rps(&pa, &pb).map(|p| p.id);
            let ba = calculate_rps(&pb, &pa).map(|p| p.id);
            assert_eq!(ab, ba);
        }
    }
}

#[test]
fn choice_tokens_match_exactly() {
    assert_eq!(parse_choice("rock"), Some(Choice::Rock));
    assert_eq!(parse_choice("paper"), Some(Choice::Paper));
    assert_eq!(parse_choice("scissors"), Some(Choice::Scissors));
    assert_eq!(parse_choice("Rock"), None);
    assert_eq!(parse_choice("scissor"), None);
    assert_eq!(parse_choice("rocks"), None);
    assert_eq!(parse_choice(""), None);
}

#[test]
fn match_type_tokens() {
    assert_eq!(parse_match_type("quick"), Some(RoomType::Public));
    assert_eq!(parse_match_type("private"), Some(RoomType::Private));
    assert_eq!(parse_match_type("Quick"), None);
    assert_eq!(parse_match_type(""), None);
}

#[test]
fn new_player_has_random_v4_id_and_no_choice() {
    let a = Player::new();
    let b = Player::new();
    assert_eq!(a.choice, None);
    assert_eq!((a.id >> 76) & 0xf, 4);
    assert_eq!((a.id >> 62) & 0x3, 2);
    assert_ne!(a.id, b.id);
}
