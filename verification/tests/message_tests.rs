use minesweeper_rooms::game::SquareContents;
use minesweeper_rooms::messages::{IncomingMessage, OutgoingMessage};

#[test]
fn encode_contents_digits_and_boom() {
    assert_eq!(SquareContents::NumMines(0).encode(), "0");
    assert_eq!(SquareContents::NumMines(5).encode(), "5");
    assert_eq!(SquareContents::NumMines(8).encode(), "8");
    assert_eq!(SquareContents::MineBoom.encode(), "!");
}

#[test]
fn encode_new_game() {
    let m = OutgoingMessage::NewGame(30, 16, 99);
    assert_eq!(
        m.encode(),
        "{\"t\":\"newgame\",\"width\":30,\"height\":16,\"mines\":99}"
    );
}

#[test]
fn encode_reveal_number() {
    let m = OutgoingMessage::Reveal(3, 14, SquareContents::NumMines(2));
    assert_eq!(m.encode(), "{\"t\":\"reveal\",\"x\":3,\"y\":14,\"content\":\"2\"}");
}

#[test]
fn encode_reveal_mine() {
    let m = OutgoingMessage::Reveal(0, 0, SquareContents::MineBoom);
    assert_eq!(m.encode(), "{\"t\":\"reveal\",\"x\":0,\"y\":0,\"content\":\"!\"}");
}

#[test]
fn encode_room_code() {
    let m = OutgoingMessage::RoomCode(String::from("HQJKLMNG"));
    assert_eq!(m.encode(), "{\"t\":\"room\",\"id\":\"HQJKLMNG\"}");
}

#[test]
fn encode_flag() {
    let on = OutgoingMessage::Flag(1, 2, true);
    assert_eq!(on.encode(), "{\"t\":\"flag\",\"x\":1,\"y\":2,\"on\":true}");
    let off = OutgoingMessage::Flag(10, 0, false);
    assert_eq!(off.encode(), "{\"t\":\"flag\",\"x\":10,\"y\":0,\"on\":false}");
}

#[test]
fn encode_notices() {
    assert_eq!(OutgoingMessage::BadBoardParams.encode(), "{\"t\":\"badboard\"}");
    assert_eq!(OutgoingMessage::BadRoomCode.encode(), "{\"t\":\"badcode\"}");
}

#[test]
fn duplicate_copies_every_variant() {
    let m = OutgoingMessage::RoomCode(String::from("GGGGGGGG"));
    assert_eq!(m.duplicate(), m);
    let r = OutgoingMessage::Reveal(1, 2, SquareContents::NumMines(3));
    assert_eq!(r.duplicate(), r);
}

#[test]
fn parse_reveal() {
    assert_eq!(
        IncomingMessage::parse("reveal\n3\n14"),
        Some(IncomingMessage::Reveal(3, 14))
    );
}

#[test]
fn parse_reveal_crlf() {
    assert_eq!(
        IncomingMessage::parse("reveal\r\n3\r\n14\r\n"),
        Some(IncomingMessage::Reveal(3, 14))
    );
}

#[test]
fn parse_flag() {
    assert_eq!(
        IncomingMessage::parse("flag\n1\n2\ntrue"),
        Some(IncomingMessage::Flag(1, 2, true))
    );
    assert_eq!(
        IncomingMessage::parse("flag\n0\n9\nfalse"),
        Some(IncomingMessage::Flag(0, 9, false))
    );
}

#[test]
fn parse_join() {
    assert_eq!(
        IncomingMessage::parse("join\nHQJKLMNG"),
        Some(IncomingMessage::JoinRoom(String::from("HQJKLMNG")))
    );
}

#[test]
fn parse_join_empty_code_line() {
    assert_eq!(
        IncomingMessage::parse("join\n\nrest"),
        Some(IncomingMessage::JoinRoom(String::new()))
    );
}

#[test]
fn parse_join_without_code_is_rejected() {
    assert_eq!(IncomingMessage::parse("join"), None);
    assert_eq!(IncomingMessage::parse("join\n"), None);
}

#[test]
fn parse_unknown_command_is_rejected() {
    assert_eq!(IncomingMessage::parse("newgame\n9\n9\n10"), None);
    assert_eq!(IncomingMessage::parse(""), None);
    assert_eq!(IncomingMessage::parse("shout\nloud"), None);
}

#[test]
fn parse_bad_parameters_are_rejected() {
    assert_eq!(IncomingMessage::parse("reveal\nx\n4"), None);
    assert_eq!(IncomingMessage::parse("reveal\n3"), None);
    assert_eq!(IncomingMessage::parse("reveal\n-1\n4"), None);
    assert_eq!(IncomingMessage::parse("reveal\n3\n"), None);
    assert_eq!(IncomingMessage::parse("flag\n1\n2\nmaybe"), None);
    assert_eq!(IncomingMessage::parse("flag\n1\n2"), None);
}

#[test]
fn parse_number_bounds() {
    let max = usize::MAX.to_string();
    let input = format!("reveal\n{}\n0", max);
    assert_eq!(
        IncomingMessage::parse(&input),
        Some(IncomingMessage::Reveal(usize::MAX, 0))
    );
    let over = format!("reveal\n{}9\n0", max);
    assert_eq!(IncomingMessage::parse(&over), None);
}

#[test]
fn parse_ignores_trailing_lines() {
    assert_eq!(
        IncomingMessage::parse("reveal\n3\n14\nextra\nlines"),
        Some(IncomingMessage::Reveal(3, 14))
    );
}
