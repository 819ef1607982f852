use vstd::prelude::*;

use crate::ids::{random_id, uuid_variant, uuid_version};

verus! {

/// One of the three sealed choices a player can submit.
#[derive(Clone, Copy, Debug, PartialEq, Eq, Structural)]
pub enum Choice {
    Rock,
    Paper,
    Scissors,
}

/// The kind of room a connection asks for.
#[derive(Clone, Copy, Debug, PartialEq, Eq, Structural)]
pub enum RoomType {
    Public,
    Private,
}

/// A player: its identity, and its choice for the round once submitted.
#[derive(Clone, Copy, Debug, PartialEq, Eq)]
pub struct Player {
    pub id: u128,
    pub choice: Option<Choice>,
}

impl Player {
    /// A player with a random identifier who has not chosen yet.
    pub fn new() -> (r: Player)
        ensures
            r.choice is None,
            uuid_version(r.id) == 4,
            uuid_variant(r.id) == 2,
    {
        Player::with_id(random_id())
    }

    /// A player with the given identifier who has not chosen yet.
    pub fn with_id(id: u128) -> (r: Player)
        ensures
            r == (Player { id, choice: None }),
    {
        Player { id, choice: None }
    }
}

/// Cyclic dominance: rock beats scissors, scissors beat paper, paper beats rock.
pub open spec fn beats(a: Choice, b: Choice) -> bool {
    (a == Choice::Rock && b == Choice::Scissors) || (a == Choice::Scissors && b == Choice::Paper)
        || (a == Choice::Paper && b == Choice::Rock)
}

pub open spec fn has_choice(p: Player) -> bool {
    p.choice is Some
}

/// The winner of a round between two players who have both chosen, or
/// `None` on a draw.
pub open spec fn winner_of(a: Player, b: Player) -> Option<Player>
    recommends
        has_choice(a),
        has_choice(b),
{
    if beats(a.choice.unwrap(), b.choice.unwrap()) {
        Some(a)
    } else if beats(b.choice.unwrap(), a.choice.unwrap()) {
        Some(b)
    } else {
        None
    }
}

/// The choice that a client message names: an exact, lowercase match.
pub open spec fn choice_from_text(t: Seq<char>) -> Option<Choice> {
    if t == "rock"@ {
        Some(Choice::Rock)
    } else if t == "paper"@ {
        Some(Choice::Paper)
    } else if t == "scissors"@ {
        Some(Choice::Scissors)
    } else {
        None
    }
}

/// The room kind that a match request names: `quick` or `private`.
pub open spec fn room_type_from_text(t: Seq<char>) -> Option<RoomType> {
    if t == "quick"@ {
        Some(RoomType::Public)
    } else if t == "private"@ {
        Some(RoomType::Private)
    } else {
        None
    }
}

/// Whether two strings hold the same characters.
pub fn same_text(s: &str, t: &str) -> (r: bool)
    ensures
        r == (s@ == t@),
{
    let n = s.unicode_len();
    if n != t.unicode_len() {
        return false;
    }
    let mut i: usize = 0;
    while i < n
        invariant
            n == s@.len(),
            n == t@.len(),
            i <= n,
            s@.subrange(0, i as int) == t@.subrange(0, i as int),
        decreases n - i,
    {
        if s.get_char(i) != t.get_char(i) {
            assert(s@[i as int] != t@[i as int]);
            return false;
        }
        assert(s@.subrange(0, i + 1) == s@.subrange(0, i as int).push(s@[i as int]));
        assert(t@.subrange(0, i + 1) == t@.subrange(0, i as int).push(t@[i as int]));
        i = i + 1;
    }
    assert(s@ == s@.subrange(0, n as int));
    assert(t@ == t@.subrange(0, n as int));
    true
}

/// Reads a choice token; any other text is no choice.
pub fn parse_choice(text: &str) -> (r: Option<Choice>)
    ensures
        r == choice_from_text(text@),
{
    if same_text(text, "rock") {
        Some(Choice::Rock)
    } else if same_text(text, "paper") {
        Some(Choice::Paper)
    } else if same_text(text, "scissors") {
        Some(Choice::Scissors)
    } else {
        None
    }
}

/// Reads a match request; any other text is no request.
pub fn parse_match_type(text: &str) -> (r: Option<RoomType>)
    ensures
        r == room_type_from_text(text@),
{
    if same_text(text, "quick") {
        Some(RoomType::Public)
    } else if same_text(text, "private") {
        Some(RoomType::Private)
    } else {
        None
    }
}

/// Whether `a` beats `b`.
pub fn choice_beats(a: Choice, b: Choice) -> (r: bool)
    ensures
        r == beats(a, b),
{
    match (a, b) {
        (Choice::Rock, Choice::Scissors) => true,
        (Choice::Scissors, Choice::Paper) => true,
        (Choice::Paper, Choice::Rock) => true,
        _ => false,
    }
}

/// Resolves a round between two players who have both chosen: the player
/// whose choice beats the other's, or `None` when the choices are equal.
pub fn calculate_rps(p1: &Player, p2: &Player) -> (r: Option<Player>)
    requires
        has_choice(*p1),
        has_choice(*p2),
    ensures
        r == winner_of(*p1, *p2),
{
    let c1 = p1.choice.unwrap();
    let c2 = p2.choice.unwrap();
    if choice_beats(c1, c2) {
        Some(*p1)
    } else if choice_beats(c2, c1) {
        Some(*p2)
    } else {
        None
    }
}

/// No choice beats itself, and of two different choices exactly one beats
/// the other.
pub proof fn lemma_beats_total(a: Choice, b: Choice)
    ensures
        !beats(a, a),
        a != b ==> (beats(a, b) != beats(b, a)),
{
}

/// Resolution does not depend on the order of the two players: both orders
/// name the same winner, or both report a draw.
pub proof fn lemma_resolve_symmetric(a: Player, b: Player)
    requires
        has_choice(a),
        has_choice(b),
    ensures
        winner_of(a, b) == winner_of(b, a),
{
}

/// Equal choices are a draw, whoever holds them.
pub proof fn lemma_equal_choices_draw(a: Player, b: Player)
    requires
        has_choice(a),
        a.choice == b.choice,
    ensures
        winner_of(a, b) is None,
{
}

} // verus!
