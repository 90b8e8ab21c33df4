use uno_server::card::{Card, Color, Value};
use uno_server::deck::Deck;
use uno_server::error::GameError;
use uno_server::events::{Event, Outbound};
use uno_server::game_state::GameState;
use uno_server::player::Player;
use uno_server::playerpool::{PlayerConnection, PlayerPool};

fn card(id: usize, color: Color, value: Value) -> Card {
    Card { id, color, value }
}

fn seat(id: usize, hand: Vec<Card>, is_spectator: bool) -> PlayerConnection {
    PlayerConnection {
        player: Player { id, name: format!("P{}", id), hand, current_game: Some(1), is_spectator },
    }
}

fn room(seats: Vec<PlayerConnection>, deck: Vec<Card>, discard: Vec<Card>, to_play: usize) -> GameState {
    GameState {
        id: 1,
        deck: Deck { cards: deck },
        discard_pile: discard,
        player_to_play: to_play,
        direction: 1,
        round_in_progress: true,
        is_waiting_for_players: false,
        game_player_pool: PlayerPool { connections: seats, outbox: vec![] },
    }
}

fn filler_deck(n: usize) -> Vec<Card> {
    (0..n).map(|i| card(500 + i, Color::Yellow, Value::Number((i % 10) as u8))).collect()
}

fn hand_ids(g: &GameState, seat: usize) -> Vec<usize> {
    g.game_player_pool.connections[seat].player.hand.iter().map(|c| c.id).collect()
}

fn total(g: &GameState) -> usize {
    g.deck.cards.len()
        + g.discard_pile.len()
        + g.game_player_pool.connections.iter().map(|c| c.player.hand.len()).sum::<usize>()
}

fn your_turn_to(outbox: &[Outbound], id: usize) -> bool {
    outbox.iter().any(|o| matches!(o.event, Event::YourTurn(p) if p == id) && o.recipients == vec![id])
}

fn card_played_count(outbox: &[Outbound]) -> usize {
    outbox.iter().filter(|o| matches!(o.event, Event::CardPlayed(..))).count()
}

#[test]
fn basic_color_match_play() {
    let mut g = room(
        vec![
            seat(1, vec![card(10, Color::Red, Value::Number(7)), card(11, Color::Green, Value::Number(3))], false),
            seat(2, vec![card(20, Color::Blue, Value::Number(1))], false),
        ],
        filler_deck(10),
        vec![card(0, Color::Red, Value::Number(5))],
        1,
    );
    let before = total(&g);
    let r = g.play_cards(1, vec![card(10, Color::Red, Value::Number(7))]);
    assert_eq!(r, Ok(()));
    assert_eq!(hand_ids(&g, 0), vec![11]);
    assert_eq!(*g.discard_pile.last().unwrap(), card(10, Color::Red, Value::Number(7)));
    assert_eq!(g.player_to_play, 2);
    assert!(your_turn_to(&g.game_player_pool.outbox, 2));
    assert_eq!(card_played_count(&g.game_player_pool.outbox), 1);
    assert_eq!(total(&g), before);
}

#[test]
fn skip_passes_over_next_player() {
    let mut g = room(
        vec![
            seat(1, vec![card(10, Color::Blue, Value::Skip), card(11, Color::Red, Value::Number(1))], false),
            seat(2, vec![card(20, Color::Red, Value::Number(2))], false),
            seat(3, vec![card(30, Color::Red, Value::Number(3))], false),
        ],
        filler_deck(10),
        vec![card(0, Color::Blue, Value::Number(2))],
        1,
    );
    assert_eq!(g.play_cards(1, vec![card(10, Color::Blue, Value::Skip)]), Ok(()));
    assert_eq!(g.player_to_play, 3);
    assert_eq!(g.discard_pile.last().unwrap().value, Value::Skip);
    assert!(your_turn_to(&g.game_player_pool.outbox, 3));
}

#[test]
fn reverse_with_two_players_repeats_turn() {
    let mut g = room(
        vec![
            seat(1, vec![card(10, Color::Green, Value::Reverse), card(11, Color::Red, Value::Number(1))], false),
            seat(2, vec![card(20, Color::Red, Value::Number(2))], false),
        ],
        filler_deck(10),
        vec![card(0, Color::Green, Value::Number(4))],
        1,
    );
    assert_eq!(g.play_cards(1, vec![card(10, Color::Green, Value::Reverse)]), Ok(()));
    assert_eq!(g.direction, -1);
    assert_eq!(g.player_to_play, 1);
    assert!(your_turn_to(&g.game_player_pool.outbox, 1));
}

#[test]
fn two_reverses_restore_direction_and_next_player() {
    let mut g = room(
        vec![
            seat(1, vec![
                card(10, Color::Green, Value::Reverse),
                card(11, Color::Red, Value::Reverse),
                card(12, Color::Red, Value::Number(1)),
            ], false),
            seat(2, vec![card(20, Color::Red, Value::Number(2))], false),
            seat(3, vec![card(30, Color::Red, Value::Number(3))], false),
        ],
        filler_deck(10),
        vec![card(0, Color::Green, Value::Number(4))],
        1,
    );
    let r = g.play_cards(1, vec![card(10, Color::Green, Value::Reverse), card(11, Color::Red, Value::Reverse)]);
    assert_eq!(r, Ok(()));
    assert_eq!(g.direction, 1);
    assert_eq!(g.player_to_play, 2);
}

#[test]
fn two_reverses_with_two_players_pass_the_turn() {
    let mut g = room(
        vec![
            seat(1, vec![
                card(10, Color::Green, Value::Reverse),
                card(11, Color::Red, Value::Reverse),
                card(12, Color::Red, Value::Number(1)),
            ], false),
            seat(2, vec![card(20, Color::Red, Value::Number(2))], false),
        ],
        filler_deck(10),
        vec![card(0, Color::Green, Value::Number(4))],
        1,
    );
    let r = g.play_cards(1, vec![card(10, Color::Green, Value::Reverse), card(11, Color::Red, Value::Reverse)]);
    assert_eq!(r, Ok(()));
    assert_eq!(g.direction, 1);
    assert_eq!(g.player_to_play, 2);
}

#[test]
fn own_draw_checks_turn_and_deck() {
    let mut g = room(
        vec![seat(1, vec![], false), seat(2, vec![], false)],
        filler_deck(3),
        vec![card(0, Color::Red, Value::Number(3))],
        1,
    );
    assert_eq!(g.draw_cards(2, 1, true), Err(GameError::NotYourTurn));
    assert_eq!(g.deck.cards.len(), 3);
    assert_eq!(g.draw_cards(1, 2, false), Ok(()));
    assert_eq!(hand_ids(&g, 0), vec![502, 501]);
    assert_eq!(g.player_to_play, 1);
    let mut h = room(vec![seat(1, vec![], false)], vec![], vec![card(0, Color::Red, Value::Number(3))], 1);
    assert_eq!(h.draw_cards(1, 1, true), Err(GameError::DeckEmpty));
}

#[test]
fn stacked_draw_twos_go_to_next_player() {
    let mut g = room(
        vec![
            seat(1, vec![
                card(10, Color::Red, Value::DrawTwo),
                card(11, Color::Red, Value::DrawTwo),
                card(12, Color::Blue, Value::Number(1)),
            ], false),
            seat(2, vec![card(20, Color::Red, Value::Number(2))], false),
            seat(3, vec![card(30, Color::Red, Value::Number(3))], false),
        ],
        filler_deck(10),
        vec![card(0, Color::Red, Value::Number(8))],
        1,
    );
    let before = total(&g);
    let r = g.play_cards(1, vec![card(10, Color::Red, Value::DrawTwo), card(11, Color::Red, Value::DrawTwo)]);
    assert_eq!(r, Ok(()));
    assert_eq!(g.game_player_pool.connections[1].player.hand.len(), 5);
    assert_eq!(g.game_player_pool.connections[2].player.hand.len(), 1);
    assert_eq!(g.player_to_play, 2);
    assert_eq!(total(&g), before);
}

#[test]
fn wild_takes_chosen_color() {
    let mut g = room(
        vec![
            seat(1, vec![card(10, Color::Wild, Value::Wild), card(11, Color::Red, Value::Number(1))], false),
            seat(2, vec![card(20, Color::Red, Value::Number(3)), card(21, Color::Blue, Value::Number(4))], false),
        ],
        filler_deck(10),
        vec![card(0, Color::Green, Value::Number(9))],
        1,
    );
    assert_eq!(g.play_cards(1, vec![card(10, Color::Blue, Value::Wild)]), Ok(()));
    assert_eq!(*g.discard_pile.last().unwrap(), card(10, Color::Blue, Value::Wild));
    assert_eq!(g.player_to_play, 2);
    assert_eq!(g.play_cards(2, vec![card(20, Color::Red, Value::Number(3))]), Err(GameError::InvalidPlay));
    assert_eq!(g.play_cards(2, vec![card(21, Color::Blue, Value::Number(4))]), Ok(()));
}

#[test]
fn wild_without_chosen_color_is_refused() {
    let mut g = room(
        vec![
            seat(1, vec![card(10, Color::Wild, Value::Wild), card(11, Color::Red, Value::Number(1))], false),
            seat(2, vec![card(20, Color::Red, Value::Number(3))], false),
        ],
        filler_deck(10),
        vec![card(0, Color::Green, Value::Number(9))],
        1,
    );
    assert_eq!(g.play_cards(1, vec![card(10, Color::Wild, Value::Wild)]), Err(GameError::InvalidPlay));
}

#[test]
fn deck_exhaustion_reshuffles_discard() {
    let mut g = room(
        vec![
            seat(1, vec![card(10, Color::Red, Value::Number(1))], false),
            seat(2, vec![card(20, Color::Red, Value::Number(2))], false),
        ],
        vec![],
        vec![
            card(4, Color::Green, Value::Wild),
            card(3, Color::Blue, Value::Skip),
            card(2, Color::Yellow, Value::Number(5)),
            card(1, Color::Red, Value::Number(3)),
        ],
        1,
    );
    let before = total(&g);
    assert_eq!(g.draw_card(1), Ok(()));
    assert_eq!(g.discard_pile, vec![card(1, Color::Red, Value::Number(3))]);
    assert_eq!(g.deck.cards.len(), 2);
    let hand = &g.game_player_pool.connections[0].player.hand;
    assert_eq!(hand.len(), 2);
    let mut moved: Vec<Card> = g.deck.cards.clone();
    moved.push(hand[1]);
    moved.sort_by_key(|c| c.id);
    assert_eq!(moved, vec![
        card(2, Color::Yellow, Value::Number(5)),
        card(3, Color::Blue, Value::Skip),
        card(4, Color::Wild, Value::Wild),
    ]);
    assert_eq!(g.player_to_play, 2);
    assert_eq!(total(&g), before);
}

#[test]
fn draw_with_nothing_left_is_deck_empty() {
    let mut g = room(
        vec![seat(1, vec![], false), seat(2, vec![], false)],
        vec![],
        vec![card(1, Color::Red, Value::Number(3))],
        1,
    );
    assert_eq!(g.draw_card(1), Err(GameError::DeckEmpty));
    assert_eq!(g.player_to_play, 1);
}

#[test]
fn rejected_plays_change_nothing() {
    let make = || room(
        vec![
            seat(1, vec![card(10, Color::Red, Value::Number(7)), card(11, Color::Green, Value::Number(3))], false),
            seat(2, vec![card(20, Color::Blue, Value::Number(1))], false),
        ],
        filler_deck(3),
        vec![card(0, Color::Red, Value::Number(5))],
        1,
    );
    let cases: Vec<(usize, Vec<Card>, GameError)> = vec![
        (1, vec![], GameError::InvalidPlay),
        (2, vec![card(20, Color::Blue, Value::Number(1))], GameError::NotYourTurn),
        (1, vec![card(99, Color::Red, Value::Number(7))], GameError::CardNotInHand),
        (1, vec![card(11, Color::Green, Value::Number(3))], GameError::InvalidPlay),
        (1, vec![card(10, Color::Red, Value::Number(7)), card(11, Color::Green, Value::Number(3))], GameError::InvalidPlay),
        (1, vec![card(10, Color::Red, Value::Number(7)), card(10, Color::Red, Value::Number(7))], GameError::CardNotInHand),
    ];
    for (pid, cards, err) in cases {
        let mut g = make();
        assert_eq!(g.play_cards(pid, cards), Err(err));
        assert_eq!(hand_ids(&g, 0), vec![10, 11]);
        assert_eq!(hand_ids(&g, 1), vec![20]);
        assert_eq!(g.discard_pile, vec![card(0, Color::Red, Value::Number(5))]);
        assert_eq!(g.deck.cards.len(), 3);
        assert_eq!(g.player_to_play, 1);
        assert!(g.game_player_pool.outbox.is_empty());
    }
}

#[test]
fn play_by_unseated_player_is_player_not_found() {
    let mut g = room(vec![seat(1, vec![], false)], filler_deck(3), vec![card(0, Color::Red, Value::Number(5))], 7);
    assert_eq!(g.play_cards(7, vec![card(1, Color::Red, Value::Number(5))]), Err(GameError::PlayerNotFound));
}

#[test]
fn emptying_hand_wins_and_ends_round() {
    let mut g = room(
        vec![
            seat(1, vec![card(10, Color::Red, Value::Number(7))], false),
            seat(2, vec![card(20, Color::Blue, Value::Number(1))], false),
        ],
        filler_deck(5),
        vec![card(0, Color::Red, Value::Number(5))],
        1,
    );
    assert_eq!(g.play_cards(1, vec![card(10, Color::Red, Value::Number(7))]), Ok(()));
    assert!(!g.round_in_progress);
    assert!(g.is_waiting_for_players);
    assert!(g.game_player_pool.outbox.iter().any(|o| matches!(o.event, Event::WinnerFound(1, 1))));
    assert!(g.game_player_pool.connections.iter().all(|c| c.player.hand.is_empty()));
    assert_eq!(total(&g), 108);
    let played = card_played_count(&g.game_player_pool.outbox);
    assert_eq!(played, 1);
    assert_eq!(g.play_cards(2, vec![card(20, Color::Blue, Value::Number(1))]), Err(GameError::NotYourTurn));
    assert_eq!(g.draw_card(1), Err(GameError::NotYourTurn));
    assert_eq!(card_played_count(&g.game_player_pool.outbox), played);
}

#[test]
fn round_starts_with_two_players() {
    let mut g = GameState::new(5, PlayerPool::new());
    assert_eq!(g.deck.cards.len(), 107);
    assert_eq!(g.add_player(Player::new(1)), Ok(()));
    assert!(!g.round_in_progress);
    assert_eq!(g.player_to_play, 1);
    assert_eq!(g.add_player(Player::new(2)), Ok(()));
    assert!(g.round_in_progress);
    assert_eq!(g.direction, 1);
    assert_eq!(g.player_to_play, 1);
    assert!(matches!(g.discard_pile.last().unwrap().value, Value::Number(_)));
    assert_eq!(g.discard_pile.len(), 1);
    for c in &g.game_player_pool.connections {
        assert_eq!(c.player.hand.len(), 7);
    }
    assert_eq!(total(&g), 108);
    assert!(your_turn_to(&g.game_player_pool.outbox, 1));
}

#[test]
fn late_joiner_spectates_and_never_takes_a_turn() {
    let mut g = GameState::new(5, PlayerPool::new());
    g.add_player(Player::new(1)).unwrap();
    g.add_player(Player::new(2)).unwrap();
    g.add_player(Player::new(3)).unwrap();
    let spectator = &g.game_player_pool.connections[2].player;
    assert!(spectator.is_spectator);
    assert!(spectator.hand.is_empty());
    let ids: Vec<usize> = g.get_all_players_in_game().iter().map(|p| p.id).collect();
    assert_eq!(ids, vec![1, 2]);
    assert_eq!(g.get_next_player_id(), 2);
    g.player_to_play = 2;
    assert_eq!(g.get_next_player_id(), 1);
    assert_eq!(g.remove_player(3), Ok(()));
    assert_eq!(g.player_to_play, 2);
    assert!(g.round_in_progress);
}

#[test]
fn join_refusals() {
    let mut g = GameState::new(5, PlayerPool::new());
    for id in 1..=6 {
        g.add_player(Player::new(id)).unwrap();
    }
    assert_eq!(g.add_player(Player::new(7)), Err(GameError::GameFull));
    let mut h = GameState::new(6, PlayerPool::new());
    h.add_player(Player::new(1)).unwrap();
    assert_eq!(h.add_player(Player::new(1)), Err(GameError::AlreadyInGame));
    assert_eq!(h.get_player_count(), 1);
}

#[test]
fn leaving_player_to_play_passes_turn_and_stops_round() {
    let mut g = GameState::new(5, PlayerPool::new());
    g.add_player(Player::new(1)).unwrap();
    g.add_player(Player::new(2)).unwrap();
    g.add_player(Player::new(3)).unwrap();
    g.remove_player(3).unwrap();
    assert_eq!(g.remove_player(1), Ok(()));
    assert_eq!(g.player_to_play, 2);
    assert!(!g.round_in_progress);
    assert!(g.is_waiting_for_players);
    assert_eq!(g.remove_player(1), Err(GameError::PlayerNotFound));
}

#[test]
fn check_winner_finds_empty_hand() {
    let g = room(
        vec![seat(1, vec![card(1, Color::Red, Value::Number(1))], false), seat(2, vec![], true), seat(3, vec![], false)],
        vec![],
        vec![card(0, Color::Red, Value::Number(5))],
        1,
    );
    assert_eq!(g.check_winner(), Some(3));
    assert!(g.is_valid_play(&card(5, Color::Blue, Value::Number(5))));
    assert!(!g.is_valid_play(&card(6, Color::Blue, Value::Number(4))));
}

#[test]
fn shuffle_discard_resets_wild_colors() {
    let mut g = room(
        vec![seat(1, vec![], false)],
        vec![],
        vec![
            card(4, Color::Green, Value::WildDrawFour),
            card(3, Color::Blue, Value::Wild),
            card(1, Color::Red, Value::Number(3)),
        ],
        1,
    );
    g.shuffle_discard_into_deck();
    assert_eq!(g.discard_pile, vec![card(1, Color::Red, Value::Number(3))]);
    assert_eq!(g.deck.cards.len(), 2);
    assert!(g.deck.cards.iter().all(|c| c.color == Color::Wild));
}

#[test]
fn broadcast_reaches_every_seat_once() {
    let mut g = room(
        vec![seat(1, vec![], false), seat(2, vec![], true), seat(3, vec![], false)],
        vec![],
        vec![card(0, Color::Red, Value::Number(5))],
        1,
    );
    g.update_game_state();
    let out = g.game_player_pool.take_outbox();
    assert_eq!(out.len(), 1);
    assert_eq!(out[0].recipients, vec![1, 2, 3]);
    match &out[0].event {
        Event::UpdateGameState(s) => {
            assert_eq!(s.top_card, card(0, Color::Red, Value::Number(5)));
            assert_eq!(s.player_count, 3);
        },
        _ => panic!("expected a game state update"),
    }
    assert_eq!(out[0].event.name(), "update_game_state");
    assert!(g.game_player_pool.outbox.is_empty());
}

#[test]
fn winner_scores_other_hands() {
    let g = room(
        vec![
            seat(1, vec![], false),
            seat(2, vec![card(20, Color::Blue, Value::Number(4)), card(21, Color::Red, Value::Reverse)], false),
            seat(3, vec![card(30, Color::Wild, Value::Wild)], false),
        ],
        vec![],
        vec![card(0, Color::Red, Value::Number(5))],
        1,
    );
    assert_eq!(g.score_for(0), 74);
    assert_eq!(g.score_for(2), 24);
}

#[test]
fn turn_steps_on_from_a_spectator_seat() {
    let mut g = room(
        vec![seat(1, vec![], false), seat(2, vec![], true), seat(3, vec![], false), seat(4, vec![], false)],
        vec![],
        vec![card(0, Color::Red, Value::Number(5))],
        2,
    );
    assert_eq!(g.get_next_player_id(), 3);
    g.direction = -1;
    assert_eq!(g.get_next_player_id(), 1);
    g.direction = 1;
    assert_eq!(g.remove_player(2), Ok(()));
    assert_eq!(g.player_to_play, 3);
}
