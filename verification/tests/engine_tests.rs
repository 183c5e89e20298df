use chess::{Board, BoardStatus, Game, MoveGen};
use loco_chess::eval::{eval, eval_with_children, CHECKMATE_EVAL};
use loco_chess::rules::{CastleRights, Color, Move};
use loco_chess::search::{chess_move_to_string, Search};
use loco_chess::utils::board_from_textboard;
use std::str::FromStr;

fn assert_mv_eq(mv: &Move, expcted: &str) {
    assert_eq!(chess_move_to_string(mv), expcted);
}

fn assert_mv_ne(mv: &Move, expcted: &str) {
    assert_ne!(chess_move_to_string(mv), expcted);
}

fn is_legal_on(board: &Board, mv: &Move) -> bool {
    MoveGen::new_legal(board).any(|legal| {
        legal.get_source().to_int() == mv.source
            && legal.get_dest().to_int() == mv.dest
            && legal.get_promotion().map(|piece| piece.to_index() as u8) == mv.promotion
    })
}

#[test]
fn test_evaluating_pawns() {
    let textboard = r#"
        8|   |   |   |   | ♔ |   |   |   |
        7|   |   |   |   | ♙ |   |   |   |
        6|   |   |   |   |   |   |   |   |
        5|   |   |   |   |   |   |   |   |
        4|   |   |   |   |   |   |   |   |
        3|   |   |   |   |   |   |   |   |
        2|   |   |   |   | ♟︎ | ♟︎ |   |   |
        1|   |   |   |   | ♚ |   |   |   |
        a   b   c   d   e   f   g   h 
        "#;
    let board = board_from_textboard(
        textboard,
        CastleRights::NoRights,
        CastleRights::NoRights,
        Color::White,
    );
    assert_eq!(eval(&board, &vec![]), 100);
    assert_eq!(eval_with_children(&board, &vec![]), (100, 100));
}

#[test]
fn test_evaluating_stalemate() {
    let textboard = r#"
        8|   |   |   |   |   |   |   | ♔ |
        7|   |   |   |   |   |   |   | ♟︎ |
        6|   |   |   |   |   |   |   | ♚ |
        5|   |   |   |   |   |   |   |   |
        4|   |   |   |   |   |   |   |   |
        3|   |   |   |   |   |   |   |   |
        2|   |   |   |   |   |   |   |   |
        1|   |   |   |   |   |   |   |   |
        a   b   c   d   e   f   g   h 
        "#;
    let board = board_from_textboard(
        textboard,
        CastleRights::NoRights,
        CastleRights::NoRights,
        Color::Black,
    );
    assert_eq!(board.status(), BoardStatus::Stalemate);
    assert_eq!(eval(&board, &vec![]), 0);
    assert_eq!(eval_with_children(&board, &vec![]), (0, 0));
}

#[test]
fn test_evaluating_checkmate() {
    let textboard = r#"
        8|   |   |   |   |   |   |   | ♔ |
        7|   |   |   |   |   |   | ♟︎ | ♟︎ |
        6|   |   |   |   |   |   |   | ♚ |
        5|   |   |   |   |   |   |   |   |
        4|   |   |   |   |   |   |   |   |
        3|   |   |   |   |   |   |   |   |
        2|   |   |   |   |   |   |   |   |
        1|   |   |   |   |   |   |   |   |
        a   b   c   d   e   f   g   h 
        "#;
    let board = board_from_textboard(
        textboard,
        CastleRights::NoRights,
        CastleRights::NoRights,
        Color::Black,
    );
    assert_eq!(board.status(), BoardStatus::Checkmate);
    assert_eq!(eval(&board, &vec![]), CHECKMATE_EVAL);
    assert_eq!(
        eval_with_children(&board, &vec![]),
        (CHECKMATE_EVAL, CHECKMATE_EVAL)
    );
}

#[test]
fn test_running_search() {
    let board = Game::new().current_position();
    let mut search = Search::new(&board, Color::White);
    let best = search.run(2);
    assert!(is_legal_on(&board, &best));
}

#[test]
fn test_performing_checkmate_in_one() {
    let textboard = r#"
        8|   |   |   |   |   |   |   | ♔ |
        7|   |   |   |   |   |   |   | ♟︎ |
        6|   |   |   |   |   |   | ♟︎ | ♚ |
        5|   |   |   |   |   |   |   |   |
        4|   |   |   |   |   |   |   |   |
        3|   |   |   |   |   |   |   |   |
        2|   |   |   |   |   |   |   |   |
        1|   |   |   |   |   |   |   |   |
        a   b   c   d   e   f   g   h 
        "#;
    let board = board_from_textboard(
        textboard,
        CastleRights::NoRights,
        CastleRights::NoRights,
        Color::White,
    );
    let mut search = Search::new(&board, Color::White);
    let best = search.run(2);
    println!("{}", chess_move_to_string(&best));
    assert_mv_eq(&best, "g6:g7");
}

#[test]
fn test_avoiding_checkmate_in_one_white() {
    let textboard = r#"
        8|   |   |   |   | ♖ |   |   | ♔ |
        7|   |   |   |   |   |   |   |   |
        6|   |   |   |   |   |   |   |   |
        5|   |   |   |   |   |   |   |   |
        4|   | ♟︎ | ♟︎ |   |   |   |   | ♙ |
        3|   |   |   |   |   | ♙ | ♟︎ |   |
        2| ♟︎ |   |   |   |   | ♟︎ |   | ♟︎ |
        1|   |   |   |   |   |   |   | ♚ |
           a   b   c   d   e   f   g   h 
        "#;
    let board = board_from_textboard(
        textboard,
        CastleRights::NoRights,
        CastleRights::NoRights,
        Color::White,
    );
    let mut search = Search::new(&board, Color::White);
    println!("{:?}", search.run(2));
    let best = search.run(2);
    assert_mv_eq(&best, "h2:h3")
}

#[test]
fn test_avoiding_checkmate_in_one_black() {
    let textboard = r#"
        8|   |   |   |   |   |   |   | ♔ |
        7|   |   | ♙ |   |   | ♙ |   | ♙ |
        6|   | ♙ |   |   |   | ♟︎ | ♙ |   |
        5| ♙ |   |   |   |   |   |   | ♟︎ |
        4|   |   |   |   |   |   |   |   |
        3|   |   |   |   |   |   |   |   |
        2|   |   |   |   |   |   |   |   |
        1|   |   |   |   | ♜ | ♚ |   |   |
           a   b   c   d   e   f   g   h 
        "#;
    let board = board_from_textboard(
        textboard,
        CastleRights::NoRights,
        CastleRights::NoRights,
        Color::Black,
    );
    let mut search = Search::new(&board, Color::Black);
    println!("{:?}", search.run(2));
    let best = search.run(2);
    assert_mv_eq(&best, "h7:h6")
}

#[test]
fn test_avoiding_checkmate_in_two_white() {
    let textboard = r#"
        8|   |   |   |   | ♖ |   |   | ♔ |
        7|   |   |   |   | ♙ |   |   |   |
        6|   |   |   |   |   |   |   |   |
        5|   |   |   |   |   |   |   |   |
        4|   | ♟︎ | ♟︎ |   |   |   |   |   |
        3|   |   |   |   |   |   | ♟︎ | ♙ |
        2| ♟︎ |   |   |   |   | ♟︎ |   | ♟︎ |
        1|   |   |   |   |   |   |   | ♚ |
           a   b   c   d   e   f   g   h 
        "#;
    let board = board_from_textboard(
        textboard,
        CastleRights::NoRights,
        CastleRights::NoRights,
        Color::White,
    );
    let mut search = Search::new(&board, Color::White);
    let best = search.run(2);
    assert_eq!(best, search.run(3));
    assert_mv_eq(&best, "h1:g1")
}

#[test]
fn test_avoiding_checkmate_in_two_black() {
    let textboard = r#"
        8|   |   |   |   |   |   |   | ♔ |
        7|   |   | ♙ |   |   | ♙ |   | ♙ |
        6|   | ♙ |   |   |   |   | ♙ | ♟︎ |
        5| ♙ |   |   |   |   |   |   |   |
        4|   |   |   |   |   |   |   |   |
        3|   |   |   |   |   |   |   |   |
        2|   |   |   |   | ♟︎ |   |   |   |
        1|   |   |   |   | ♜ | ♚ |   |   |
           a   b   c   d   e   f   g   h 
        "#;
    let board = board_from_textboard(
        textboard,
        CastleRights::NoRights,
        CastleRights::NoRights,
        Color::Black,
    );
    let mut search = Search::new(&board, Color::Black);

    let best = search.run(2);
    assert_eq!(best, search.run(3));
    assert_mv_eq(&best, "h8:g8")
}

#[test]
fn test_real_situation_1() {
    let board =
        Board::from_str("2r2rk1/p1qnbppp/1p1ppn2/6N1/2PQ4/2N3P1/PP2PPKP/R1B2R2 w - - 3 14").unwrap();
    let mut search = Search::new(&board, Color::White);
    search.set_shuffling(true);

    let best = search.run(4);
    assert_mv_ne(&best, "g2:h3")
}

#[test]
fn test_generating_start_position() {
    let position = r#"
        8| ♖ | ♘ | ♗ | ♕ | ♔ | ♗ | ♘ | ♖ |
        7| ♙ | ♙ | ♙ | ♙ | ♙ | ♙ | ♙ | ♙ |
        6|   |   |   |   |   |   |   |   |
        5|   |   |   |   |   |   |   |   |
        4|   |   |   |   |   |   |   |   |
        3|   |   |   |   |   |   |   |   |
        2| ♟︎ | ♟︎ | ♟︎ | ♟︎ | ♟︎ | ♟︎ | ♟︎ | ♟︎ |
        1| ♜ | ♞ | ♝ | ♛ | ♚ | ♝ | ♞ | ♜ |
           a   b   c   d   e   f   g   h 
        "#;
    let board = board_from_textboard(
        position,
        CastleRights::Both,
        CastleRights::Both,
        Color::White,
    );
    assert_eq!(board, Board::default());
}
