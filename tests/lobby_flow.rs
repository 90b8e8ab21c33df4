use uno_server::card::{Card, Color, Value};
use uno_server::error::GameError;
use uno_server::events::{Event, Outbound};
use uno_server::lobby::Lobby;
use uno_server::player::Player;
use uno_server::playerpool::PlayerPool;
use uno_server::protocol::Command;

fn lobby_with(ids: &[usize]) -> Lobby {
    let mut l = Lobby::new(PlayerPool::new());
    for &id in ids {
        l.connect(Player::new(id)).unwrap();
    }
    l.take_messages();
    l
}

fn events_for(out: &[Outbound], id: usize) -> Vec<&'static str> {
    out.iter().filter(|o| o.recipients.contains(&id)).map(|o| o.event.name()).collect()
}

#[test]
fn connect_sends_identity_and_room_list() {
    let mut l = Lobby::new(PlayerPool::new());
    assert_eq!(l.connect(Player::new(42)), Ok(()));
    let out = l.take_messages();
    assert_eq!(events_for(&out, 42), vec!["player", "update_lobby_games_list"]);
    assert_eq!(l.connect(Player::new(42)), Err(GameError::AlreadyInGame));
}

#[test]
fn rooms_get_increasing_ids() {
    let mut l = lobby_with(&[1]);
    assert_eq!(l.create_game(), Some(1));
    assert_eq!(l.create_game(), Some(2));
    let list = l.list_games();
    assert_eq!(list.len(), 2);
    assert_eq!((list[0].id, list[0].player_count, list[0].round_in_progress), (1, 0, false));
    assert_eq!(list[1].id, 2);
    let out = l.take_messages();
    assert_eq!(events_for(&out, 1), vec!["update_lobby_games_list", "update_lobby_games_list"]);
}

#[test]
fn joining_a_room_starts_a_round() {
    let mut l = lobby_with(&[1, 2, 3]);
    let id = l.create_game().unwrap();
    assert_eq!(l.join_game(id, 1), Ok(()));
    assert_eq!(l.join_game(id, 2), Ok(()));
    let room = &l.games[0];
    assert!(room.round_in_progress);
    assert_eq!(room.get_player_count(), 2);
    assert_eq!(l.player_pool.get_player_by_id(1).unwrap().current_game, Some(id));
    let lobby_only: Vec<usize> = l.get_all_players_in_lobby().iter().map(|p| p.id).collect();
    assert_eq!(lobby_only, vec![3]);
    let out = l.take_messages();
    let to_one = events_for(&out, 1);
    assert!(to_one.contains(&"you_joined_game"));
    assert!(to_one.contains(&"update_players"));
    assert!(to_one.contains(&"your_turn"));
    assert!(events_for(&out, 3).contains(&"update_lobby_games_list"));
}

#[test]
fn join_errors() {
    let mut l = lobby_with(&[1, 2]);
    assert_eq!(l.join_game(9, 1), Err(GameError::GameNotFound));
    let id = l.create_game().unwrap();
    assert_eq!(l.join_game(id, 77), Err(GameError::PlayerNotFound));
    l.join_game(id, 1).unwrap();
    assert_eq!(l.join_game(id, 1), Err(GameError::AlreadyInGame));
}

#[test]
fn last_leaver_removes_room() {
    let mut l = lobby_with(&[1, 2]);
    let id = l.create_game().unwrap();
    l.join_game(id, 1).unwrap();
    l.join_game(id, 2).unwrap();
    assert_eq!(l.leave_game(1), Ok(()));
    assert_eq!(l.games.len(), 1);
    assert!(!l.games[0].round_in_progress);
    assert_eq!(l.player_pool.get_player_by_id(1).unwrap().current_game, None);
    assert_eq!(l.leave_game(1), Err(GameError::GameNotFound));
    l.disconnect(2);
    assert!(l.games.is_empty());
    assert!(l.player_pool.get_player_by_id(2).is_none());
    assert_eq!(l.leave_game(2), Err(GameError::PlayerNotFound));
}

#[test]
fn commands_are_read_from_messages() {
    assert!(matches!(Command::from_message("fetch_games", None, None), Some(Command::FetchGames)));
    assert!(matches!(Command::from_message("create_game", Some(3), None), Some(Command::CreateGame)));
    assert!(matches!(Command::from_message("join_game", Some(3), None), Some(Command::JoinGame(3))));
    assert!(Command::from_message("join_game", None, None).is_none());
    let c = Card { id: 1, color: Color::Red, value: Value::Number(1) };
    assert!(matches!(Command::from_message("play_card", Some(2), Some(vec![c])), Some(Command::PlayCard(2, _))));
    assert!(Command::from_message("play_card", Some(2), None).is_none());
    assert!(matches!(Command::from_message("draw_card", Some(4), None), Some(Command::DrawCard(4))));
    assert!(Command::from_message("dance", Some(4), None).is_none());
}

#[test]
fn handled_commands_reply_and_report_errors() {
    let mut l = lobby_with(&[1, 2]);
    assert_eq!(l.handle_command(1, Command::CreateGame), Ok(()));
    assert_eq!(l.handle_command(1, Command::FetchGames), Ok(()));
    let out = l.take_messages();
    assert_eq!(events_for(&out, 1).last(), Some(&"update_lobby_games_list"));
    assert_eq!(l.handle_command(1, Command::JoinGame(1)), Ok(()));
    assert_eq!(l.handle_command(2, Command::JoinGame(1)), Ok(()));
    l.take_messages();
    assert_eq!(l.handle_command(2, Command::DrawCard(1)), Err(GameError::NotYourTurn));
    let out = l.take_messages();
    assert_eq!(out.len(), 1);
    assert!(matches!(out[0].event, Event::Error(GameError::NotYourTurn)));
    assert_eq!(out[0].recipients, vec![2]);
    assert_eq!(l.handle_command(1, Command::DrawCard(1)), Ok(()));
    assert_eq!(l.games[0].player_to_play, 2);
    assert_eq!(l.games[0].game_player_pool.connections[0].player.hand.len(), 8);
    let out = l.take_messages();
    assert!(events_for(&out, 2).contains(&"update_game_state"));
    assert_eq!(l.handle_command(1, Command::PlayCard(9, vec![])), Err(GameError::GameNotFound));
}

#[test]
fn disconnect_unseats_and_keeps_occupied_room() {
    let mut l = lobby_with(&[1, 2, 3]);
    let id = l.create_game().unwrap();
    l.join_game(id, 1).unwrap();
    l.join_game(id, 2).unwrap();
    l.join_game(id, 3).unwrap();
    l.disconnect(3);
    assert_eq!(l.games.len(), 1);
    let seats: Vec<usize> = l.games[0].game_player_pool.connections.iter().map(|c| c.player.id).collect();
    assert_eq!(seats, vec![1, 2]);
    assert!(l.games[0].round_in_progress);
    assert!(l.player_pool.get_player_by_id(3).is_none());
}
