use chess::{Board, BoardStatus, ChessMove, Square};
use loco_chess::eval::{
    eval, eval_checkmate, eval_material, eval_one, eval_with_children, is_legal_line, is_playable,
    make_moves, try_eval, try_eval_with_children, CHECKMATE_EVAL,
};
use loco_chess::rules::{CastleRights, Color, Move};
use loco_chess::utils::board_from_textboard;
use std::str::FromStr;

fn mv(source: u8, dest: u8) -> Move {
    Move { source: source, dest: dest, promotion: None }
}

#[test]
fn test_getting_right_min_and_max() {
    let textboard = r#"
        8|   |   |   |   | ♔ |   |   |   |
        7|   |   |   |   | ♙ |   |   |   |
        6|   |   |   |   |   |   |   |   |
        5|   |   |   |   |   |   |   |   |
        4|   |   |   |   |   |   |   |   |
        3|   |   |   |   |   |   | ♙ |   |
        2|   |   |   |   | ♟︎ | ♟︎ |   |   |
        1|   |   |   |   | ♚ |   |   |   |
        a   b   c   d   e   f   g   h 
        "#;
    let board = board_from_textboard(
        textboard,
        CastleRights::NoRights,
        CastleRights::NoRights,
        Color::White,
    );
    assert_eq!(eval(&board, &vec![]), 0);
    assert_eq!(eval_with_children(&board, &vec![]), (0, 100));
}

#[test]
fn test_material_counts_every_kind() {
    let board = Board::from_str("4k3/8/8/8/8/8/4P3/QRBNK3 w - - 0 1").unwrap();
    assert_eq!(eval_material(&board), 900 + 500 + 310 + 290 + 100);
    assert_eq!(eval_one(&board), 2100);
    let board = Board::from_str("qrbnk3/4p3/8/8/8/8/8/4K3 w - - 0 1").unwrap();
    assert_eq!(eval_material(&board), -2100);
    let board = Board::from_str("4k3/8/8/8/8/8/8/QQ2K3 w - - 0 1").unwrap();
    assert_eq!(eval_material(&board), 1800);
    let board = Board::from_str("4k3/pp6/8/8/8/8/PPP5/R3K3 w - - 0 1").unwrap();
    assert_eq!(eval_material(&board), 600);
}

#[test]
fn test_start_position_is_balanced() {
    let board = Board::default();
    assert_eq!(eval_material(&board), 0);
    assert_eq!(eval_one(&board), 0);
    assert_eq!(eval_checkmate(&board), None);
    assert_eq!(eval_with_children(&board, &vec![]), (0, 0));
}

#[test]
fn test_material_is_antisymmetric() {
    let position = "4k3/1q3p2/8/8/8/2N5/PP6/R3K3 w - - 0 1";
    let swapped = "4K3/1Q3P2/8/8/8/2n5/pp6/r3k3 w - - 0 1";
    let score = eval_material(&Board::from_str(position).unwrap());
    assert_eq!(score, 500 + 290 + 200 - 900 - 100);
    assert_eq!(eval_material(&Board::from_str(swapped).unwrap()), -score);
}

#[test]
fn test_checkmate_scores_against_the_mated_side() {
    let black_mated = Board::from_str("7k/6PP/7K/8/8/8/8/8 b - - 0 1").unwrap();
    assert_eq!(black_mated.status(), BoardStatus::Checkmate);
    assert_eq!(eval_checkmate(&black_mated), Some(CHECKMATE_EVAL));
    assert_eq!(eval_one(&black_mated), 10000);
    let white_mated = Board::from_str("8/8/8/8/8/7k/6pp/7K w - - 0 1").unwrap();
    assert_eq!(white_mated.status(), BoardStatus::Checkmate);
    assert_eq!(eval_checkmate(&white_mated), Some(-CHECKMATE_EVAL));
    assert_eq!(eval_one(&white_mated), -10000);
}

#[test]
fn test_stalemate_scores_nothing_whatever_the_material() {
    let board = Board::from_str("7k/5Q2/6K1/8/8/8/8/8 b - - 0 1").unwrap();
    assert_eq!(board.status(), BoardStatus::Stalemate);
    assert_eq!(eval_material(&board), 900);
    assert_eq!(eval_checkmate(&board), None);
    assert_eq!(eval_one(&board), 0);
    assert_eq!(eval_with_children(&board, &vec![]), (0, 0));
}

#[test]
fn test_evaluating_after_moves() {
    let board = Board::default();
    let line = vec![mv(12, 28), mv(51, 35), mv(28, 35)];
    assert_eq!(eval(&board, &vec![mv(12, 28)]), 0);
    assert_eq!(eval(&board, &line), 100);
    let reached = make_moves(&board, &line);
    let expected = board
        .make_move_new(ChessMove::new(Square::E2, Square::E4, None))
        .make_move_new(ChessMove::new(Square::D7, Square::D5, None))
        .make_move_new(ChessMove::new(Square::E4, Square::D5, None));
    assert_eq!(reached, expected);
    assert_ne!(reached, board);
    assert_eq!(try_eval(&board, &line), Some(100));
}

#[test]
fn test_children_scores_after_moves() {
    let board = Board::default();
    let line = vec![mv(12, 28), mv(51, 35)];
    assert_eq!(eval_with_children(&board, &line), (0, 100));
    assert_eq!(try_eval_with_children(&board, &line), Some((0, 100)));
    let line = vec![mv(12, 28), mv(51, 35), mv(28, 35)];
    assert_eq!(eval_with_children(&board, &line), (0, 100));
}

#[test]
fn test_illegal_lines_are_refused() {
    let board = Board::default();
    assert!(is_legal_line(&board, &vec![]));
    assert!(is_legal_line(&board, &vec![mv(12, 28), mv(52, 36)]));
    assert!(!is_legal_line(&board, &vec![mv(12, 36)]));
    assert!(!is_legal_line(&board, &vec![mv(12, 28), mv(12, 28)]));
    assert!(!is_legal_line(&board, &vec![mv(64, 28)]));
    assert!(!is_legal_line(&board, &vec![mv(12, 200)]));
    assert!(!is_legal_line(
        &board,
        &vec![Move { source: 12, dest: 28, promotion: Some(6) }]
    ));
    assert!(!is_legal_line(
        &board,
        &vec![Move { source: 12, dest: 28, promotion: Some(4) }]
    ));
    assert_eq!(try_eval(&board, &vec![mv(12, 36)]), None);
    assert_eq!(try_eval(&board, &vec![mv(64, 28)]), None);
    assert_eq!(try_eval_with_children(&board, &vec![mv(0, 63)]), None);
    assert_eq!(try_eval(&board, &vec![]), Some(0));
}

#[test]
fn test_promotion_is_a_legal_move() {
    let board = Board::from_str("8/4P1k1/8/8/8/8/8/4K3 w - - 0 1").unwrap();
    let queen = Move { source: 52, dest: 60, promotion: Some(4) };
    let knight = Move { source: 52, dest: 60, promotion: Some(1) };
    assert!(is_legal_line(&board, &vec![queen]));
    assert!(is_legal_line(&board, &vec![knight]));
    assert!(!is_legal_line(&board, &vec![mv(52, 60)]));
    assert_eq!(eval(&board, &vec![]), 100);
    assert_eq!(eval(&board, &vec![queen]), 900);
    assert_eq!(eval(&board, &vec![knight]), 290);
}

#[test]
fn test_crowded_boards_are_not_playable() {
    let crowded = Board::from_str("4k3/8/8/PPPPPPPP/PPPPPPPP/8/8/4K3 w - - 0 1").unwrap();
    assert!(!is_playable(&crowded));
    assert_eq!(eval_material(&crowded), 1600);
    assert!(!is_legal_line(&crowded, &vec![]));
    assert_eq!(try_eval(&crowded, &vec![]), None);
    assert_eq!(try_eval_with_children(&crowded, &vec![]), None);
    let full = Board::from_str("4k3/8/8/PPPPPPP1/PPPPPPPP/8/8/4K3 w - - 0 1").unwrap();
    assert!(is_playable(&full));
    assert_eq!(try_eval(&full, &vec![]), Some(1500));
    assert!(is_playable(&Board::default()));
}

#[test]
#[allow(deprecated)]
fn test_boards_that_are_not_sane_are_not_playable() {
    let rookless = Board::default().clear_square(Square::A1).unwrap();
    assert!(!rookless.is_sane());
    assert!(!is_playable(&rookless));
    assert!(!is_legal_line(&rookless, &vec![]));
    assert_eq!(try_eval(&rookless, &vec![]), None);
    assert_eq!(try_eval_with_children(&rookless, &vec![mv(12, 28)]), None);
    assert_eq!(eval_material(&rookless), -500);
}
