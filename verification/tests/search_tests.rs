use chess::{Board, MoveGen, Piece, Square};
use loco_chess::rules::{Color, Move};
use loco_chess::search::{
    board_from_moves, chess_move_to_string, get_possible_moves, moves_to_string, Position, Search,
    ITERATION_CAP,
};
use std::str::FromStr;

fn legal_moves_of(board: &Board) -> Vec<Move> {
    MoveGen::new_legal(board)
        .map(|legal| Move {
            source: legal.get_source().to_int(),
            dest: legal.get_dest().to_int(),
            promotion: legal.get_promotion().map(|piece| piece.to_index() as u8),
        })
        .collect()
}

fn sorted(moves: &Vec<Move>) -> Vec<(u8, u8, Option<u8>)> {
    let mut keys: Vec<(u8, u8, Option<u8>)> =
        moves.iter().map(|mv| (mv.source, mv.dest, mv.promotion)).collect();
    keys.sort();
    keys
}

#[test]
fn test_best_move_is_always_legal() {
    let positions = [
        "rnbqkbnr/pppppppp/8/8/8/8/PPPPPPPP/RNBQKBNR w KQkq - 0 1",
        "r1bqkbnr/pppp1ppp/2n5/4p3/4P3/5N2/PPPP1PPP/RNBQKB1R w KQkq - 2 3",
        "8/4P1k1/8/8/8/8/8/4K3 w - - 0 1",
        "4k3/8/8/8/8/8/4p3/4K3 b - - 0 1",
        "r3k2r/8/8/8/8/8/8/R3K2R b KQkq - 0 1",
    ];
    for fen in positions {
        let board = Board::from_str(fen).unwrap();
        let legal = legal_moves_of(&board);
        for depth in 1..3u8 {
            for shuffling in [false, true] {
                let mut search = Search::new(&board, Color::White);
                search.set_shuffling(shuffling);
                let best = search.run(depth);
                assert!(legal.contains(&best));
                assert!(search.finished());
            }
        }
    }
}

#[test]
fn test_opening_move_is_a_pawn_or_knight_move() {
    let board = Board::default();
    let mut search = Search::new(&board, Color::White);
    let best = search.run(2);
    assert!(legal_moves_of(&board).contains(&best));
    let moved = board.piece_on(chess::ALL_SQUARES[best.source as usize]);
    assert!(moved == Some(Piece::Pawn) || moved == Some(Piece::Knight));
    assert!(best.source < 16);
    assert_eq!(best.promotion, None);
}

#[test]
fn test_mate_in_one_is_found_at_every_depth() {
    let board = Board::from_str("6k1/5ppp/8/8/8/8/8/R3K3 w - - 0 1").unwrap();
    for depth in 1..4u8 {
        let mut search = Search::new(&board, Color::White);
        let best = search.run(depth);
        assert_eq!(chess_move_to_string(&best), "a1:a8");
    }
    let board = Board::from_str("r3k3/8/8/8/8/8/5PPP/6K1 b - - 0 1").unwrap();
    for depth in 1..4u8 {
        let mut search = Search::new(&board, Color::Black);
        let best = search.run(depth);
        assert_eq!(chess_move_to_string(&best), "a8:a1");
    }
}

#[test]
fn test_material_is_won_for_the_side_to_move() {
    let board = Board::from_str("4k3/8/8/3q4/8/8/8/3RK3 w - - 0 1").unwrap();
    let mut search = Search::new(&board, Color::White);
    assert_eq!(chess_move_to_string(&search.run(1)), "d1:d5");
    assert_eq!(chess_move_to_string(&search.run(2)), "d1:d5");
    let board = Board::from_str("3rk3/8/8/8/3Q4/8/8/4K3 b - - 0 1").unwrap();
    let mut search = Search::new(&board, Color::Black);
    assert_eq!(chess_move_to_string(&search.run(1)), "d8:d4");
    assert_eq!(chess_move_to_string(&search.run(2)), "d8:d4");
}

#[test]
fn test_the_side_given_does_not_change_the_move() {
    let board = Board::from_str("3rk3/8/8/8/3Q4/8/8/4K3 b - - 0 1").unwrap();
    let mut as_white = Search::new(&board, Color::White);
    let mut as_black = Search::new(&board, Color::Black);
    assert_eq!(as_white.run(2), as_black.run(2));
}

#[test]
fn test_pruning_does_not_change_the_move() {
    let positions = [
        ("rnbqkbnr/pppppppp/8/8/8/8/PPPPPPPP/RNBQKBNR w KQkq - 0 1", 2u8),
        ("r1bqkbnr/pppp1ppp/2n5/4p3/4P3/5N2/PPPP1PPP/RNBQKB1R w KQkq - 2 3", 2u8),
        ("4k3/8/8/3q4/8/8/8/3RK3 w - - 0 1", 3u8),
        ("3rk3/8/8/8/3Q4/8/8/4K3 b - - 0 1", 3u8),
        ("4r2k/8/8/8/1PP4p/5pP1/P4P1P/7K w - - 0 1", 3u8),
        ("7k/2p2p1p/1p3Pp1/p6P/8/8/8/4RK2 b - - 0 1", 3u8),
    ];
    for (fen, max_depth) in positions {
        let board = Board::from_str(fen).unwrap();
        for depth in 1..(max_depth + 1) {
            for shuffling in [false, true] {
                let mut pruned = Search::new(&board, Color::White);
                pruned.set_shuffling(shuffling);
                let mut full = Search::new(&board, Color::White);
                full.set_shuffling(shuffling);
                full.set_pruning(false);
                let chosen = pruned.run(depth);
                assert_eq!(chosen, full.run(depth));
                assert!(pruned.finished());
                assert!(full.finished());
                assert_eq!(pruned.principal_variation()[0], chosen);
            }
        }
    }
}

#[test]
fn test_search_without_a_move_finds_nothing() {
    let mated = Board::from_str("7k/6PP/7K/8/8/8/8/8 b - - 0 1").unwrap();
    let mut search = Search::new(&mated, Color::Black);
    assert_eq!(search.find_move(2), None);
    let stalemate = Board::from_str("7k/5Q2/6K1/8/8/8/8/8 b - - 0 1").unwrap();
    let mut search = Search::new(&stalemate, Color::Black);
    assert_eq!(search.find_move(3), None);
    let crowded = Board::from_str("4k3/8/8/PPPPPPPP/PPPPPPPP/8/8/4K3 w - - 0 1").unwrap();
    let mut search = Search::new(&crowded, Color::White);
    assert_eq!(search.find_move(1), None);
    let board = Board::default();
    let mut search = Search::new(&board, Color::White);
    assert_eq!(search.find_move(0), None);
    let found = search.find_move(2);
    assert_eq!(found, Some(search.run(2)));
}

#[test]
fn test_principal_variation_follows_the_best_children() {
    let board = Board::from_str("4k3/8/8/3q4/8/8/8/3RK3 w - - 0 1").unwrap();
    let mut search = Search::new(&board, Color::White);
    let best = search.run(3);
    let line = search.principal_variation();
    assert!(line.len() >= 1 && line.len() <= 3);
    assert_eq!(line[0], best);
    let mut reached = board;
    for mv in line.iter() {
        assert!(legal_moves_of(&reached).contains(mv));
        reached = board_from_moves(&reached, &vec![*mv]);
    }
    assert_eq!(search.principal_variation(), line);
    let fresh = Search::new(&board, Color::White).principal_variation();
    assert!(fresh.is_empty());
}

#[test]
fn test_shuffle_keeps_the_legal_moves() {
    let positions = [
        "rnbqkbnr/pppppppp/8/8/8/8/PPPPPPPP/RNBQKBNR w KQkq - 0 1",
        "2r2rk1/p1qnbppp/1p1ppn2/6N1/2PQ4/2N3P1/PP2PPKP/R1B2R2 w - - 3 14",
        "8/4P1k1/8/8/8/8/8/4K3 w - - 0 1",
        "7k/6PP/7K/8/8/8/8/8 b - - 0 1",
    ];
    for fen in positions {
        let board = Board::from_str(fen).unwrap();
        let shuffled = get_possible_moves(&board);
        assert_eq!(sorted(&shuffled), sorted(&legal_moves_of(&board)));
        assert_eq!(shuffled, get_possible_moves(&board));
    }
}

#[test]
fn test_shuffle_follows_the_hash() {
    let board = Board::default();
    let mut expected = legal_moves_of(&board);
    let mut seed = board.get_hash();
    let len = expected.len();
    for i in 0..len {
        seed = seed.wrapping_add(expected[i].source as u64 * expected[i].dest as u64);
        expected.swap(i, (seed % len as u64) as usize);
    }
    assert_eq!(get_possible_moves(&board), expected);
    assert_ne!(get_possible_moves(&board), legal_moves_of(&board));
}

#[test]
fn test_moves_as_text() {
    assert_eq!(chess_move_to_string(&Move { source: 12, dest: 28, promotion: None }), "e2:e4");
    assert_eq!(chess_move_to_string(&Move { source: 0, dest: 63, promotion: None }), "a1:h8");
    assert_eq!(chess_move_to_string(&Move { source: 55, dest: 7, promotion: Some(4) }), "h7:h1");
    assert_eq!(moves_to_string(&vec![]), "");
    assert_eq!(
        moves_to_string(&vec![
            Move { source: 12, dest: 28, promotion: None },
            Move { source: 52, dest: 36, promotion: None }
        ]),
        "e2:e4, e7:e5, "
    );
}

#[test]
fn test_new_position_is_unvisited() {
    let position = Position::new(None, -5, 7, 3);
    let text = format!("{:?}", position);
    assert!(text.contains("alpha: -5"));
    assert!(text.contains("beta: 7"));
    assert!(text.contains("depth: 3"));
    assert!(text.contains("potential_next_moves: None"));
    assert!(text.contains("next_best: None"));
}

#[test]
fn test_search_stops_at_the_cap() {
    let board = Board::from_str("8/8/4k3/4p3/4P3/4K3/8/8 w - - 0 1").unwrap();
    let mut search = Search::new(&board, Color::White);
    search.set_pruning(false);
    let best = search.run(5);
    assert!(search.finished());
    assert!(legal_moves_of(&board).contains(&best));
    let best = search.run(8);
    assert!(!search.finished());
    assert!(legal_moves_of(&board).contains(&best));
    assert_eq!(ITERATION_CAP, 1048576);
}

#[test]
fn test_horizon_is_scored_as_it_stands() {
    let board = Board::from_str("4k3/8/3p4/4p3/8/8/8/4Q1K1 w - - 0 1").unwrap();
    for shuffling in [false, true] {
        let mut search = Search::new(&board, Color::White);
        search.set_shuffling(shuffling);
        assert_eq!(chess_move_to_string(&search.run(1)), "e1:e5");
        assert_eq!(search.principal_variation().len(), 1);
        assert_ne!(chess_move_to_string(&search.run(2)), "e1:e5");
        assert_eq!(search.principal_variation().len(), 2);
        assert_ne!(chess_move_to_string(&search.run(3)), "e1:e5");
    }
    let board = Board::from_str("4q1k1/8/8/8/4P3/3P4/8/4K3 b - - 0 1").unwrap();
    let mut search = Search::new(&board, Color::Black);
    assert_eq!(chess_move_to_string(&search.run(1)), "e8:e4");
    assert_ne!(chess_move_to_string(&search.run(2)), "e8:e4");
}

#[test]
#[allow(deprecated)]
fn test_boards_that_are_not_sane_are_not_searched() {
    let rookless = Board::default().clear_square(Square::A1).unwrap();
    assert!(!rookless.is_sane());
    let mut search = Search::new(&rookless, Color::White);
    assert_eq!(search.find_move(2), None);
    assert!(search.principal_variation().is_empty());
    let sound = Board::from_str("1nbqkbnr/pppppppp/8/8/8/8/PPPPPPPP/1NBQKBNR w Kk - 0 1").unwrap();
    let mut search = Search::new(&sound, Color::White);
    assert!(search.find_move(1).is_some());
}
