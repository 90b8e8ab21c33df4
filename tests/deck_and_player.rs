use uno_server::card::{hand_score, Card, Color, Value};
use uno_server::deck::Deck;
use uno_server::error::GameError;
use uno_server::player::Player;

#[test]
fn test_deck_new() {
    let deck = Deck::new();
    assert_eq!(deck.cards.len(), 108);
}

#[test]
fn test_player_new() {
    let player = Player::new(0);
    assert_eq!(player.id, 0);
    assert_eq!(player.name, "Player 0");
    assert!(player.hand.is_empty());
    assert!(player.current_game.is_none());
    assert!(!player.is_spectator);
}

#[test]
fn test_player_join_game() {
    let mut player = Player::new(0);
    player.join_game(0).unwrap();
    assert_eq!(player.current_game, Some(0));
}

#[test]
fn test_player_leave_game() {
    let mut player = Player::new(0);
    player.join_game(0).unwrap();
    player.leave_game().unwrap();
    assert_eq!(player.current_game, None);
}

#[test]
fn player_name_uses_decimal_id() {
    assert_eq!(Player::new(4071).name, "Player 4071");
}

#[test]
fn joining_twice_is_refused() {
    let mut player = Player::new(3);
    player.join_game(1).unwrap();
    assert_eq!(player.join_game(2), Err(GameError::AlreadyInGame));
    assert_eq!(player.current_game, Some(1));
}

#[test]
fn serializable_player_counts_cards() {
    let mut player = Player::new(9);
    player.set_hand(vec![
        Card { id: 1, color: Color::Red, value: Value::Number(1) },
        Card { id: 2, color: Color::Blue, value: Value::Skip },
    ]);
    let s = player.to_serializable();
    assert_eq!(s.id, 9);
    assert_eq!(s.name, "Player 9");
    assert_eq!(s.card_count, 2);
}

fn count(cards: &[Card], f: impl Fn(&Card) -> bool) -> usize {
    cards.iter().filter(|c| f(c)).count()
}

#[test]
fn fresh_deck_composition() {
    let deck = Deck::new();
    let cards = &deck.cards;
    for color in [Color::Red, Color::Yellow, Color::Green, Color::Blue] {
        assert_eq!(count(cards, |c| c.color == color), 25);
        assert_eq!(count(cards, |c| c.color == color && matches!(c.value, Value::Number(_))), 19);
        assert_eq!(count(cards, |c| c.color == color && c.value == Value::Number(0)), 1);
        for n in 1..=9u8 {
            assert_eq!(count(cards, |c| c.color == color && c.value == Value::Number(n)), 2);
        }
        for v in [Value::Skip, Value::Reverse, Value::DrawTwo] {
            assert_eq!(count(cards, |c| c.color == color && c.value == v), 2);
        }
    }
    assert_eq!(count(cards, |c| c.color == Color::Wild && c.value == Value::Wild), 4);
    assert_eq!(count(cards, |c| c.color == Color::Wild && c.value == Value::WildDrawFour), 4);
    let mut ids: Vec<usize> = cards.iter().map(|c| c.id).collect();
    ids.sort();
    assert_eq!(ids, (0..108).collect::<Vec<usize>>());
}

#[test]
fn shuffle_keeps_cards_and_changes_order() {
    let mut deck = Deck::new();
    let before = deck.cards.clone();
    deck.shuffle();
    assert_eq!(deck.cards.len(), 108);
    assert_ne!(deck.cards, before);
    let mut ids: Vec<usize> = deck.cards.iter().map(|c| c.id).collect();
    ids.sort();
    assert_eq!(ids, (0..108).collect::<Vec<usize>>());
}

#[test]
fn draw_takes_from_the_tail() {
    let mut deck = Deck::new();
    let top = deck.draw().unwrap();
    assert_eq!(top.id, 107);
    assert_eq!(top.value, Value::WildDrawFour);
    assert_eq!(deck.cards.len(), 107);
    let mut empty = Deck { cards: vec![] };
    assert!(empty.is_empty());
    assert_eq!(empty.draw(), None);
}

#[test]
fn draw_n_stops_when_empty() {
    let mut deck = Deck { cards: vec![
        Card { id: 1, color: Color::Red, value: Value::Number(1) },
        Card { id: 2, color: Color::Red, value: Value::Number(2) },
        Card { id: 3, color: Color::Red, value: Value::Number(3) },
    ] };
    let two = deck.draw_n(2);
    assert_eq!(two.iter().map(|c| c.id).collect::<Vec<_>>(), vec![3, 2]);
    let rest = deck.draw_n(5);
    assert_eq!(rest.iter().map(|c| c.id).collect::<Vec<_>>(), vec![1]);
    assert!(deck.is_empty());
}

#[test]
fn points_per_value() {
    assert_eq!(Value::Number(7).to_points(), 7);
    assert_eq!(Value::Number(0).to_points(), 0);
    assert_eq!(Value::Skip.to_points(), 20);
    assert_eq!(Value::Reverse.to_points(), 20);
    assert_eq!(Value::DrawTwo.to_points(), 20);
    assert_eq!(Value::Wild.to_points(), 50);
    assert_eq!(Value::WildDrawFour.to_points(), 50);
}

#[test]
fn value_labels_round_trip() {
    let all = [
        Value::Number(0), Value::Number(9), Value::Skip, Value::Reverse, Value::DrawTwo, Value::Wild,
        Value::WildDrawFour,
    ];
    for v in all {
        assert_eq!(Value::from_label(&v.label()), Some(v));
    }
    assert_eq!(Value::Number(5).label(), "5");
    assert_eq!(Value::DrawTwo.label(), "draw_two");
}

#[test]
fn value_labels_ignore_case_and_reject_unknown() {
    assert_eq!(Value::from_label("SKIP"), Some(Value::Skip));
    assert_eq!(Value::from_label("Wild_Draw_Four"), Some(Value::WildDrawFour));
    assert_eq!(Value::from_label("7"), Some(Value::Number(7)));
    assert_eq!(Value::from_label("+7"), None);
    assert_eq!(Value::from_label("05"), None);
    assert_eq!(Value::from_label("10"), None);
    assert_eq!(Value::from_label("-1"), None);
    assert_eq!(Value::from_label(""), None);
    assert_eq!(Value::from_label("sk1p"), None);
    assert_eq!(Value::from_lowercase_label(&"SKIP".to_string()), None);
}

#[test]
fn card_matching_rules() {
    let top = Card { id: 0, color: Color::Red, value: Value::Number(5) };
    assert!(Card { id: 1, color: Color::Red, value: Value::Number(7) }.can_play_on(&top));
    assert!(Card { id: 2, color: Color::Blue, value: Value::Number(5) }.can_play_on(&top));
    assert!(Card { id: 3, color: Color::Wild, value: Value::Wild }.can_play_on(&top));
    assert!(!Card { id: 4, color: Color::Green, value: Value::Number(3) }.can_play_on(&top));
}

#[test]
fn error_messages() {
    assert_eq!(GameError::NotYourTurn.message(), "Not your turn");
    assert_eq!(GameError::GameFull.message(), "Game is full");
    assert_eq!(GameError::DeckEmpty.message(), "Deck is empty");
}

#[test]
fn hand_score_sums_points() {
    let hand = vec![
        Card { id: 1, color: Color::Red, value: Value::Number(7) },
        Card { id: 2, color: Color::Blue, value: Value::Skip },
        Card { id: 3, color: Color::Wild, value: Value::WildDrawFour },
    ];
    assert_eq!(hand_score(&hand), 77);
    assert_eq!(hand_score(&vec![]), 0);
}
