use chess::Board;
use loco_chess::rules::{CastleRights, Color};
use loco_chess::utils::{
    char_to_piece, piece_to_char, show_board, textboard_lines, try_board_from_textboard,
};
use std::str::FromStr;

fn chars(text: &str) -> Vec<char> {
    text.chars().collect()
}

#[test]
fn test_symbols_are_read_back() {
    for color in [Color::White, Color::Black] {
        for kind in 0..6u8 {
            let symbol = piece_to_char(kind, color);
            assert_eq!(char_to_piece(&chars(&symbol)), Some((kind, color)));
        }
    }
    assert_eq!(piece_to_char(5, Color::White), "♚");
    assert_eq!(piece_to_char(0, Color::White), "♟︎");
    assert_eq!(piece_to_char(0, Color::Black), "♙");
    assert_eq!(piece_to_char(4, Color::Black), "♕");
    assert_eq!(char_to_piece(&chars("♞")), Some((1, Color::White)));
    assert_eq!(char_to_piece(&chars("♗")), Some((2, Color::Black)));
    assert_eq!(char_to_piece(&chars("♟")), None);
    assert_eq!(char_to_piece(&chars("")), None);
    assert_eq!(char_to_piece(&chars("K")), None);
    assert_eq!(char_to_piece(&chars("♚♚")), None);
}

#[test]
fn test_lines_are_trimmed_and_empty_ones_dropped() {
    let lines = textboard_lines("\n   8| ♔ |  \n\n \t \n7|   |\n");
    assert_eq!(lines, vec![chars("8| ♔ |"), chars("7|   |")]);
    assert_eq!(textboard_lines(""), Vec::<Vec<char>>::new());
    assert_eq!(textboard_lines("a"), vec![chars("a")]);
}

#[test]
fn test_short_or_unsound_boards_are_refused() {
    let short = r#"
        8|   |   |   |   | ♔ |   |   |   |
        1|   |   |   |   | ♚ |   |   |   |
        "#;
    assert_eq!(
        try_board_from_textboard(short, CastleRights::NoRights, CastleRights::NoRights, Color::White),
        None
    );
    let no_black_king = r#"
        8|   |   |   |   |   |   |   |   |
        7|   |   |   |   |   |   |   |   |
        6|   |   |   |   |   |   |   |   |
        5|   |   |   |   |   |   |   |   |
        4|   |   |   |   |   |   |   |   |
        3|   |   |   |   |   |   |   |   |
        2|   |   |   |   |   |   |   |   |
        1|   |   |   |   | ♚ |   |   |   |
        "#;
    assert_eq!(
        try_board_from_textboard(
            no_black_king,
            CastleRights::NoRights,
            CastleRights::NoRights,
            Color::White
        ),
        None
    );
    let kings = r#"
        8|   |   |   |   | ♔ |   |   |   |
        7|   |   |   |   |   |   |   |   |
        6|   |   |   |   |   |   |   |   |
        5|   |   |   |   |   |   |   |   |
        4|   |   |   |   |   |   |   |   |
        3|   |   |   |   |   |   |   |   |
        2|   |   |   |   |   |   |   |   |
        1|   |   |   |   | ♚ |   |   |   |
        "#;
    assert_eq!(
        try_board_from_textboard(kings, CastleRights::NoRights, CastleRights::NoRights, Color::Black),
        Some(Board::from_str("4k3/8/8/8/8/8/8/4K3 b - - 0 1").unwrap())
    );
    assert_eq!(
        try_board_from_textboard(kings, CastleRights::Both, CastleRights::NoRights, Color::White),
        None
    );
}

#[test]
fn test_board_is_drawn_as_it_is_read() {
    let board = Board::default();
    let lines = show_board(&board);
    assert_eq!(
        lines,
        vec![
            "| ♖ | ♘ | ♗ | ♕ | ♔ | ♗ | ♘ | ♖ ",
            "| ♙ | ♙ | ♙ | ♙ | ♙ | ♙ | ♙ | ♙ ",
            "|   |   |   |   |   |   |   |   ",
            "|   |   |   |   |   |   |   |   ",
            "|   |   |   |   |   |   |   |   ",
            "|   |   |   |   |   |   |   |   ",
            "| ♟︎ | ♟︎ | ♟︎ | ♟︎ | ♟︎ | ♟︎ | ♟︎ | ♟︎ ",
            "| ♜ | ♞ | ♝ | ♛ | ♚ | ♝ | ♞ | ♜ ",
        ]
    );
    let mut text = String::new();
    for (i, line) in lines.iter().enumerate() {
        text.push_str(&format!("{}{}|\n", 8 - i, line));
    }
    assert_eq!(
        try_board_from_textboard(&text, CastleRights::Both, CastleRights::Both, Color::White),
        Some(board)
    );
}

#[test]
fn test_castle_rights_and_side_are_set() {
    let text = r#"
        8| ♖ |   |   |   | ♔ |   |   | ♖ |
        7|   |   |   |   |   |   |   |   |
        6|   |   |   |   |   |   |   |   |
        5|   |   |   |   |   |   |   |   |
        4|   |   |   |   |   |   |   |   |
        3|   |   |   |   |   |   |   |   |
        2|   |   |   |   |   |   |   |   |
        1| ♜ |   |   |   | ♚ |   |   | ♜ |
        "#;
    assert_eq!(
        try_board_from_textboard(text, CastleRights::KingSide, CastleRights::QueenSide, Color::Black),
        Some(Board::from_str("r3k2r/8/8/8/8/8/8/R3K2R b Kq - 0 1").unwrap())
    );
    assert_eq!(
        try_board_from_textboard(text, CastleRights::Both, CastleRights::NoRights, Color::White),
        Some(Board::from_str("r3k2r/8/8/8/8/8/8/R3K2R w KQ - 0 1").unwrap())
    );
}

#[test]
fn test_boards_without_a_king_are_refused() {
    let empty = r#"
        8|   |   |   |   |   |   |   |   |
        7|   |   |   |   |   |   |   |   |
        6|   |   |   |   |   |   |   |   |
        5|   |   |   |   |   |   |   |   |
        4|   |   |   |   |   |   |   |   |
        3|   |   |   |   |   |   |   |   |
        2|   |   |   |   |   |   |   |   |
        1|   |   |   |   |   |   |   |   |
        "#;
    for side in [Color::White, Color::Black] {
        assert_eq!(
            try_board_from_textboard(empty, CastleRights::NoRights, CastleRights::NoRights, side),
            None
        );
    }
    let no_white_king = r#"
        8|   |   |   |   | ♔ |   |   |   |
        7|   |   |   |   |   |   |   |   |
        6|   |   |   |   |   |   |   |   |
        5|   |   |   |   |   |   |   |   |
        4|   |   |   |   |   |   |   |   |
        3|   |   |   |   |   |   |   |   |
        2|   |   |   |   | ♟︎ |   |   |   |
        1|   |   |   |   |   |   |   |   |
        "#;
    for side in [Color::White, Color::Black] {
        assert_eq!(
            try_board_from_textboard(
                no_white_king,
                CastleRights::NoRights,
                CastleRights::NoRights,
                side
            ),
            None
        );
    }
    let two_white_kings = r#"
        8|   |   |   |   | ♔ |   |   |   |
        7|   |   |   |   |   |   |   |   |
        6|   |   |   |   |   |   |   |   |
        5|   |   |   |   |   |   |   |   |
        4|   |   |   |   |   |   |   |   |
        3|   |   |   |   |   |   |   |   |
        2|   |   |   |   |   |   |   |   |
        1| ♚ |   |   |   | ♚ |   |   |   |
        "#;
    assert_eq!(
        try_board_from_textboard(
            two_white_kings,
            CastleRights::NoRights,
            CastleRights::NoRights,
            Color::White
        ),
        None
    );
    let overwritten = r#"
        8|   |   |   |   | ♔ |   |   |   |
        7|   |   |   |   |   |   |   |   |
        6|   |   |   |   |   |   |   |   |
        5|   |   |   |   |   |   |   |   |
        4|   |   |   |   |   |   |   |   |
        3|   |   |   |   |   |   |   |   |
        2|   |   |   |   |   |   |   |   |
        1| ♚ |   |   |   |   |   |   |   | ♜ |
        "#;
    assert_eq!(
        try_board_from_textboard(
            overwritten,
            CastleRights::NoRights,
            CastleRights::NoRights,
            Color::White
        ),
        None
    );
}
