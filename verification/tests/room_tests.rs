use minesweeper_rooms::game::{Minefield, Square, SquareContents};
use minesweeper_rooms::messages::{IncomingMessage, OutgoingMessage};
use minesweeper_rooms::multiplayer::{decode_code, room_id_to_code, GameRoom, RoomManager};

/// Builds a board with mines at the given positions and first-move
/// protection already spent, so reveals act on the layout as
/// written.
fn board(width: usize, height: usize, mines: &[(usize, usize)]) -> Minefield {
    let mut squares: Vec<Square> = Vec::new();
    let mut count: usize = 0;
    let mut i: usize = 0;
    while i < width * height {
        let x: usize = i % width;
        let y: usize = i / width;
        let is_mine = mines.contains(&(x, y));
        if is_mine {
            count += 1;
        }
        squares.push(Square {
            is_mine,
            revealed: false,
            flagged: false,
            x,
            y,
        });
        i += 1;
    }
    Minefield {
        squares,
        width,
        height,
        is_first_move: false,
        num_mines: count,
    }
}

const CODE_ALPHABET: &str = "GHQJKLMNOPABCDEF";

#[test]
fn room_code_stable_and_well_formed() {
    let a = room_id_to_code(5);
    let b = room_id_to_code(5);
    assert_eq!(a, b);
    assert_eq!(a.len(), 8);
    for c in a.chars() {
        assert!(CODE_ALPHABET.contains(c));
    }
}

#[test]
fn room_codes_distinct_for_distinct_ids() {
    let mut codes: Vec<String> = Vec::new();
    let mut id: u32 = 0;
    while id < 40 {
        codes.push(room_id_to_code(id));
        id += 1;
    }
    let mut i: usize = 0;
    while i < codes.len() {
        let mut j: usize = i + 1;
        while j < codes.len() {
            assert_ne!(codes[i], codes[j]);
            j += 1;
        }
        i += 1;
    }
}

#[test]
fn decode_code_round_trip() {
    let k0 = decode_code(&room_id_to_code(0));
    let k7 = decode_code(&room_id_to_code(7));
    assert!(k0.is_some());
    assert!(k7.is_some());
    assert_ne!(k0, k7);
}

#[test]
fn decode_code_rejects_bad_text() {
    assert_eq!(decode_code("short"), None);
    assert_eq!(decode_code("12345678"), None);
    assert_eq!(decode_code("GGGGGGGGG"), None);
    assert_eq!(decode_code(""), None);
    assert!(decode_code("GGGGGGGG").is_some());
}

#[test]
fn game_over_latch() {
    let field = board(2, 2, &[(0, 0)]);
    let mut room = GameRoom::new(field, 1, room_id_to_code(1));
    room.add_client(10);
    let sends = room.reveal_square(0, 0);
    assert_eq!(sends.len(), 1);
    assert_eq!(
        sends[0],
        (10, OutgoingMessage::Reveal(0, 0, SquareContents::MineBoom))
    );
    let after = room.reveal_square(1, 1);
    assert!(after.is_empty());
    assert!(!room.field.get_square(1, 1).unwrap().revealed());
    let again = room.reveal_square(1, 0);
    assert!(again.is_empty());
}

#[test]
fn reveal_broadcasts_to_all_members_in_order() {
    let field = board(3, 3, &[(1, 1)]);
    let mut room = GameRoom::new(field, 1, room_id_to_code(1));
    room.add_client(10);
    room.add_client(20);
    let sends = room.reveal_square(2, 2);
    assert_eq!(sends.len(), 2);
    assert_eq!(
        sends[0],
        (10, OutgoingMessage::Reveal(2, 2, SquareContents::NumMines(1)))
    );
    assert_eq!(
        sends[1],
        (20, OutgoingMessage::Reveal(2, 2, SquareContents::NumMines(1)))
    );
}

#[test]
fn join_snapshot_replays_board_in_order() {
    let field = board(3, 3, &[(2, 2)]);
    let code = room_id_to_code(4);
    let mut room = GameRoom::new(field, 4, code.clone());
    room.add_client(1);
    let reveal_sends = room.reveal_square(0, 0);
    assert_eq!(reveal_sends.len(), 8);
    let flag_sends = room.handle_flag(2, 2, true);
    assert_eq!(flag_sends.len(), 1);
    let msgs = room.add_client(2);
    let expected = vec![
        OutgoingMessage::NewGame(3, 3, 1),
        OutgoingMessage::RoomCode(code),
        OutgoingMessage::Reveal(0, 0, SquareContents::NumMines(0)),
        OutgoingMessage::Reveal(1, 0, SquareContents::NumMines(0)),
        OutgoingMessage::Reveal(2, 0, SquareContents::NumMines(0)),
        OutgoingMessage::Reveal(0, 1, SquareContents::NumMines(0)),
        OutgoingMessage::Reveal(1, 1, SquareContents::NumMines(1)),
        OutgoingMessage::Reveal(2, 1, SquareContents::NumMines(1)),
        OutgoingMessage::Reveal(0, 2, SquareContents::NumMines(0)),
        OutgoingMessage::Reveal(1, 2, SquareContents::NumMines(1)),
        OutgoingMessage::Flag(2, 2, true),
    ];
    assert_eq!(msgs, expected);
}

#[test]
fn flag_out_of_bounds_is_ignored() {
    let field = board(2, 2, &[]);
    let mut room = GameRoom::new(field, 9, room_id_to_code(9));
    room.add_client(5);
    let sends = room.handle_flag(7, 0, true);
    assert!(sends.is_empty());
}

#[test]
fn manager_creates_room_and_announces_it() {
    let mut manager = RoomManager::new();
    let sends = manager.add_client_to_new_room(100).expect("fresh identity");
    assert_eq!(sends.len(), 2);
    assert_eq!(sends[0], (100, OutgoingMessage::NewGame(30, 16, 99)));
    assert_eq!(sends[1].0, 100);
    match &sends[1].1 {
        OutgoingMessage::RoomCode(code) => assert_eq!(*code, room_id_to_code(0)),
        other => panic!("expected a room code, got {:?}", other),
    }
}

#[test]
fn manager_routes_flags_to_room_members() {
    let mut manager = RoomManager::new();
    manager.add_client_to_new_room(100).expect("fresh identity");
    let code0 = room_id_to_code(0);
    manager.add_client_to_new_room(200).expect("fresh identity");

    let joined = manager.handle_message(200, IncomingMessage::JoinRoom(code0));
    assert_eq!(joined.len(), 2);
    assert_eq!(joined[0], (200, OutgoingMessage::NewGame(30, 16, 99)));

    let sends = manager.handle_message(100, IncomingMessage::Flag(1, 1, true));
    assert_eq!(sends.len(), 2);
    assert_eq!(sends[0], (100, OutgoingMessage::Flag(1, 1, true)));
    assert_eq!(sends[1], (200, OutgoingMessage::Flag(1, 1, true)));
}

#[test]
fn manager_first_reveal_is_safe() {
    let mut manager = RoomManager::new();
    manager.add_client_to_new_room(100).expect("fresh identity");
    let sends = manager.handle_message(100, IncomingMessage::Reveal(5, 5));
    assert!(!sends.is_empty());
    assert_eq!(
        sends[0],
        (100, OutgoingMessage::Reveal(5, 5, SquareContents::NumMines(0)))
    );
}

#[test]
fn manager_answers_unknown_code() {
    let mut manager = RoomManager::new();
    manager.add_client_to_new_room(100).expect("fresh identity");
    let sends = manager.handle_message(100, IncomingMessage::JoinRoom(String::from("XYZ")));
    assert_eq!(sends, vec![(100, OutgoingMessage::BadRoomCode)]);
    let unknown = room_id_to_code(77);
    let sends2 = manager.handle_message(100, IncomingMessage::JoinRoom(unknown));
    assert_eq!(sends2, vec![(100, OutgoingMessage::BadRoomCode)]);
}

#[test]
fn manager_join_own_room_is_noop() {
    let mut manager = RoomManager::new();
    manager.add_client_to_new_room(100).expect("fresh identity");
    let sends = manager.handle_message(100, IncomingMessage::JoinRoom(room_id_to_code(0)));
    assert!(sends.is_empty());
}

#[test]
fn manager_flag_out_of_bounds_is_ignored() {
    let mut manager = RoomManager::new();
    manager.add_client_to_new_room(100).expect("fresh identity");
    let sends = manager.handle_message(100, IncomingMessage::Flag(999, 0, true));
    assert!(sends.is_empty());
}

#[test]
fn manager_removes_clients_once() {
    let mut manager = RoomManager::new();
    manager.add_client_to_new_room(100).expect("fresh identity");
    assert!(manager.remove_client(100));
    assert!(!manager.remove_client(100));
}

#[test]
fn moving_the_last_member_frees_the_room_code() {
    let mut manager = RoomManager::new();
    manager.add_client_to_new_room(100).expect("fresh identity");
    manager.add_client_to_new_room(200).expect("fresh identity");
    let code1 = room_id_to_code(1);

    // Client 100 moves to room 1; room 0 is now empty and destroyed.
    let joined = manager.handle_message(100, IncomingMessage::JoinRoom(code1));
    assert_eq!(joined[0], (100, OutgoingMessage::NewGame(30, 16, 99)));

    // Room 0's code no longer resolves.
    let code0 = room_id_to_code(0);
    let sends = manager.handle_message(200, IncomingMessage::JoinRoom(code0));
    assert_eq!(sends, vec![(200, OutgoingMessage::BadRoomCode)]);
}
