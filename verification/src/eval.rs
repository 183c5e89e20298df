//! The static evaluator: the score of a position, from White's point of view.

use crate::rules::{
    color_combined, color_index, count_ones, in_check, is_legal, is_sane, legal_moves,
    legal_moves_of, make_move, pieces, playable, popcnt, position_after, position_of, side_of,
    side_to_move, status, status_of, BoardStatus, Color, Move, BISHOP, KNIGHT, PAWN, QUEEN, ROOK,
};
use vstd::arithmetic::power2::{lemma2_to64, lemma_pow2_unfold, pow2};
use vstd::prelude::*;

verus! {

/// The magnitude of the score of a position in which a side is checkmated.
pub const CHECKMATE_EVAL: i32 = 10000;

/// What a piece of each kind is worth. The king is worth nothing: both sides have one.
pub open spec fn piece_value(kind: int) -> int {
    if kind == PAWN {
        100
    } else if kind == KNIGHT {
        290
    } else if kind == BISHOP {
        310
    } else if kind == ROOK {
        500
    } else if kind == QUEEN {
        900
    } else {
        0
    }
}

/// How many pieces of one kind a side has.
pub open spec fn piece_count(position: Seq<u64>, color: Color, kind: int) -> nat {
    count_ones(position[color_index(color)] & position[kind])
}

/// What the pieces of a side are worth.
pub open spec fn side_material(position: Seq<u64>, color: Color) -> int {
    let queens = piece_count(position, color, QUEEN as int) as int;
    let rooks = piece_count(position, color, ROOK as int) as int;
    let bishops = piece_count(position, color, BISHOP as int) as int;
    let knights = piece_count(position, color, KNIGHT as int) as int;
    let pawns = piece_count(position, color, PAWN as int) as int;
    900 * queens + 500 * rooks + 310 * bishops + 290 * knights + 100 * pawns
}

/// What the pieces of a side are worth, counting only the kinds below `kinds`.
spec fn material_below(position: Seq<u64>, color: Color, kinds: int) -> int
    decreases kinds,
{
    if kinds <= 0 {
        0
    } else {
        material_below(position, color, kinds - 1) + piece_value(kinds - 1) * piece_count(
            position,
            color,
            kinds - 1,
        )
    }
}

/// The material score: what White's pieces are worth less what Black's are worth.
pub open spec fn material_score(position: Seq<u64>) -> int {
    side_material(position, Color::White) - side_material(position, Color::Black)
}

/// The score of a position: 0 for a stalemate, the checkmate score against the
/// side that is mated, and the material score while the game goes on.
pub open spec fn evaluate(position: Seq<u64>) -> int {
    match status_of(position) {
        BoardStatus::Stalemate => 0,
        BoardStatus::Checkmate => match side_of(position) {
            Color::White => -CHECKMATE_EVAL,
            Color::Black => CHECKMATE_EVAL as int,
        },
        BoardStatus::Ongoing => material_score(position),
    }
}

/// The position reached from `start` by a line of moves.
pub open spec fn play(start: Seq<u64>, line: Seq<Move>) -> Seq<u64>
    decreases line.len(),
{
    if line.len() == 0 {
        start
    } else {
        position_after(play(start, line.drop_last()), line.last())
    }
}

/// Every move of the line is legal in the position in which it is played.
pub open spec fn legal_line(start: Seq<u64>, line: Seq<Move>) -> bool
    decreases line.len(),
{
    line.len() == 0 || (legal_line(start, line.drop_last()) && legal_moves_of(
        play(start, line.drop_last()),
    ).contains(line.last()))
}

/// The scores of the positions that the legal moves of a position lead to.
pub open spec fn child_scores(position: Seq<u64>) -> Seq<int> {
    Seq::new(
        legal_moves_of(position).len(),
        |i: int| evaluate(position_after(position, legal_moves_of(position)[i])),
    )
}

/// The least of some scores.
pub open spec fn least(scores: Seq<int>) -> int
    decreases scores.len(),
{
    if scores.len() <= 1 {
        scores[0]
    } else if scores.last() < least(scores.drop_last()) {
        scores.last()
    } else {
        least(scores.drop_last())
    }
}

/// The greatest of some scores.
pub open spec fn greatest(scores: Seq<int>) -> int
    decreases scores.len(),
{
    if scores.len() <= 1 {
        scores[0]
    } else if scores.last() > greatest(scores.drop_last()) {
        scores.last()
    } else {
        greatest(scores.drop_last())
    }
}

proof fn lemma_count_ones_below(bits: u64, width: nat)
    requires
        bits < pow2(width),
    ensures
        count_ones(bits) <= width,
    decreases width,
{
    if bits != 0 {
        if width == 0 {
            lemma2_to64();
        } else {
            lemma_pow2_unfold(width);
            lemma_count_ones_below(bits / 2, (width - 1) as nat);
        }
    }
}

/// A word has at most 64 bits set.
pub proof fn lemma_count_ones_bound(bits: u64)
    ensures
        count_ones(bits) <= 64,
{
    lemma2_to64();
    lemma_count_ones_below(bits, 64);
}

proof fn lemma_material_below_bound(position: Seq<u64>, color: Color, kinds: int)
    requires
        0 <= kinds <= 5,
    ensures
        0 <= material_below(position, color, kinds) <= 57600 * kinds,
        kinds == 5 ==> material_below(position, color, kinds) == side_material(position, color),
    decreases kinds,
{
    if kinds > 0 {
        lemma_material_below_bound(position, color, kinds - 1);
        lemma_count_ones_bound(position[color_index(color)] & position[kinds - 1]);
        assert(0 <= piece_value(kinds - 1) * piece_count(position, color, kinds - 1) <= 900 * 64)
            by (nonlinear_arith)
            requires
                0 <= piece_value(kinds - 1) <= 900,
                0 <= piece_count(position, color, kinds - 1) <= 64,
        ;
    }
    if kinds == 5 {
        reveal_with_fuel(material_below, 6);
    }
}

/// A side's material is never negative, and each kind adds at most 64 pieces to it.
pub proof fn lemma_side_material_bound(position: Seq<u64>, color: Color)
    ensures
        0 <= side_material(position, color) <= 288000,
{
    lemma_material_below_bound(position, color, 5);
}

/// Every score lies within the range of `i32`, far from its ends.
pub proof fn lemma_evaluate_bound(position: Seq<u64>)
    ensures
        -288000 <= evaluate(position) <= 288000,
{
    lemma_side_material_bound(position, Color::White);
    lemma_side_material_bound(position, Color::Black);
}

/// The score of a position without a legal move: 0 if the side to move is not in
/// check, else the checkmate score, negative when it is White that is mated.
pub proof fn lemma_evaluate_without_moves(position: Seq<u64>)
    requires
        legal_moves_of(position).len() == 0,
    ensures
        !in_check(position) ==> evaluate(position) == 0,
        in_check(position) && side_of(position) == Color::White ==> evaluate(position)
            == -CHECKMATE_EVAL,
        in_check(position) && side_of(position) == Color::Black ==> evaluate(position)
            == CHECKMATE_EVAL,
{
}

/// The material score is antisymmetric: where two positions hold the same
/// pieces with the two sides exchanged, the score of one is the negative of the other's.
pub proof fn lemma_material_antisymmetric(position: Seq<u64>, swapped: Seq<u64>)
    requires
        swapped[color_index(Color::White)] == position[color_index(Color::Black)],
        swapped[color_index(Color::Black)] == position[color_index(Color::White)],
        forall|kind: int| 0 <= kind < 5 ==> swapped[kind] == position[kind],
    ensures
        material_score(swapped) == -material_score(position),
{
}

fn value_of(kind: u8) -> (value: i32)
    ensures
        value == piece_value(kind as int),
{
    if kind == 0 {
        100
    } else if kind == 1 {
        290
    } else if kind == 2 {
        310
    } else if kind == 3 {
        500
    } else if kind == 4 {
        900
    } else {
        0
    }
}

fn material_of(board: &chess::Board, color: Color) -> (total: i32)
    ensures
        total == side_material(position_of(*board), color),
{
    let side: u64 = color_combined(board, color);
    let mut total: i32 = 0;
    let mut kind: u8 = 0;
    while kind < 5
        invariant
            kind <= 5,
            side == position_of(*board)[color_index(color)],
            total == material_below(position_of(*board), color, kind as int),
        decreases 5 - kind,
    {
        let of_kind: u64 = pieces(board, kind);
        let count: u32 = popcnt(side & of_kind);
        proof {
            lemma_count_ones_bound(side & of_kind);
            lemma_material_below_bound(position_of(*board), color, kind as int);
            assert(0 <= piece_value(kind as int) * count <= 900 * 64) by (nonlinear_arith)
                requires
                    0 <= piece_value(kind as int) <= 900,
                    0 <= count <= 64,
            ;
        }
        total = total + value_of(kind) * (count as i32);
        kind = kind + 1;
    }
    proof {
        lemma_material_below_bound(position_of(*board), color, 5);
    }
    total
}

/// The material score of a position.
pub fn eval_material(board: &chess::Board) -> (score: i32)
    ensures
        score == material_score(position_of(*board)),
{
    proof {
        lemma_side_material_bound(position_of(*board), Color::White);
        lemma_side_material_bound(position_of(*board), Color::Black);
    }
    material_of(board, Color::White) - material_of(board, Color::Black)
}

/// The checkmate score of a position in which the side to move is mated, and
/// nothing for any other position.
pub fn eval_checkmate(board: &chess::Board) -> (score: Option<i32>)
    requires
        playable(position_of(*board)),
    ensures
        score is Some <==> status_of(position_of(*board)) == BoardStatus::Checkmate,
        score matches Some(mate) ==> mate == (match side_of(position_of(*board)) {
            Color::White => -CHECKMATE_EVAL,
            Color::Black => CHECKMATE_EVAL as int,
        }),
{
    match status(board) {
        BoardStatus::Checkmate => match side_to_move(board) {
            Color::White => Some(-CHECKMATE_EVAL),
            Color::Black => Some(CHECKMATE_EVAL),
        },
        _ => None,
    }
}

/// The score of a position.
pub fn eval_one(board: &chess::Board) -> (score: i32)
    requires
        playable(position_of(*board)),
    ensures
        score == evaluate(position_of(*board)),
{
    if let BoardStatus::Stalemate = status(board) {
        return 0;
    }
    match eval_checkmate(board) {
        Some(score) => score,
        None => eval_material(board),
    }
}

/// The board reached from `start_board` by a line of legal moves.
pub fn make_moves(start_board: &chess::Board, moves: &Vec<Move>) -> (board: chess::Board)
    requires
        playable(position_of(*start_board)),
        legal_line(position_of(*start_board), moves@),
        forall|i: int| 0 <= i < moves@.len() ==> (#[trigger] moves@[i]).in_range(),
    ensures
        position_of(board) == play(position_of(*start_board), moves@),
        playable(position_of(board)),
{
    let mut board: chess::Board = *start_board;
    let mut i: usize = 0;
    while i < moves.len()
        invariant
            i <= moves@.len(),
            legal_line(position_of(*start_board), moves@),
            forall|i: int| 0 <= i < moves@.len() ==> (#[trigger] moves@[i]).in_range(),
            position_of(board) == play(position_of(*start_board), moves@.take(i as int)),
            playable(position_of(board)),
        decreases moves@.len() - i,
    {
        proof {
            lemma_legal_line_prefix(position_of(*start_board), moves@, i as int + 1);
            assert(moves@.take(i as int + 1).drop_last() == moves@.take(i as int));
        }
        board = make_move(&board, moves[i]);
        i = i + 1;
    }
    proof {
        assert(moves@.take(i as int) == moves@);
    }
    board
}

/// Every prefix of a legal line is a legal line.
pub proof fn lemma_legal_line_prefix(start: Seq<u64>, line: Seq<Move>, len: int)
    requires
        legal_line(start, line),
        0 <= len <= line.len(),
    ensures
        legal_line(start, line.take(len)),
    decreases line.len(),
{
    if len == line.len() {
        assert(line.take(len) == line);
    } else {
        lemma_legal_line_prefix(start, line.drop_last(), len);
        assert(line.drop_last().take(len) == line.take(len));
    }
}

/// Whether a board is one for which `chess` can list the moves: it is sane,
/// and neither side has more than sixteen pieces.
pub fn is_playable(board: &chess::Board) -> (fit: bool)
    ensures
        fit == playable(position_of(*board)),
{
    is_sane(board) && popcnt(color_combined(board, Color::White)) <= 16 && popcnt(
        color_combined(board, Color::Black),
    ) <= 16
}

/// Whether a line of moves can be played from a board: the board is playable,
/// and every move names squares of the board and is legal where it is played.
pub fn is_legal_line(start_board: &chess::Board, moves: &Vec<Move>) -> (legal: bool)
    ensures
        legal == (playable(position_of(*start_board)) && legal_line(
            position_of(*start_board),
            moves@,
        ) && forall|i: int| 0 <= i < moves@.len() ==> (#[trigger] moves@[i]).in_range()),
{
    if !is_playable(start_board) {
        return false;
    }
    let mut board: chess::Board = *start_board;
    let mut i: usize = 0;
    while i < moves.len()
        invariant
            i <= moves@.len(),
            playable(position_of(board)),
            legal_line(position_of(*start_board), moves@.take(i as int)),
            forall|j: int| 0 <= j < i ==> (#[trigger] moves@[j]).in_range(),
            position_of(board) == play(position_of(*start_board), moves@.take(i as int)),
        decreases moves@.len() - i,
    {
        let mv: Move = moves[i];
        proof {
            assert(moves@.take(i as int + 1).drop_last() == moves@.take(i as int));
        }
        let in_range: bool = mv.source < 64 && mv.dest < 64 && match mv.promotion {
            Some(kind) => kind < 6,
            None => true,
        };
        if !in_range {
            return false;
        }
        if !is_legal(&board, mv) {
            proof {
                if legal_line(position_of(*start_board), moves@) {
                    lemma_legal_line_prefix(position_of(*start_board), moves@, i as int + 1);
                }
            }
            return false;
        }
        board = make_move(&board, mv);
        i = i + 1;
    }
    proof {
        assert(moves@.take(i as int) == moves@);
    }
    true
}

/// The score of the position reached from `start_board` by a line of legal moves.
pub fn eval(start_board: &chess::Board, moves: &Vec<Move>) -> (score: i32)
    requires
        playable(position_of(*start_board)),
        legal_line(position_of(*start_board), moves@),
        forall|i: int| 0 <= i < moves@.len() ==> (#[trigger] moves@[i]).in_range(),
    ensures
        score == evaluate(play(position_of(*start_board), moves@)),
{
    let board: chess::Board = make_moves(start_board, moves);
    eval_one(&board)
}

/// The least and the greatest score among the positions one move after the one
/// reached from `start_board` by a line of legal moves; where that position has
/// no legal move, its own score twice.
pub fn eval_with_children(start_board: &chess::Board, moves: &Vec<Move>) -> (scores: (i32, i32))
    requires
        playable(position_of(*start_board)),
        legal_line(position_of(*start_board), moves@),
        forall|i: int| 0 <= i < moves@.len() ==> (#[trigger] moves@[i]).in_range(),
    ensures
        ({
            let position = play(position_of(*start_board), moves@);
            if legal_moves_of(position).len() > 0 {
                scores.0 == least(child_scores(position)) && scores.1 == greatest(
                    child_scores(position),
                )
            } else {
                scores.0 == evaluate(position) && scores.1 == evaluate(position)
            }
        }),
{
    let board: chess::Board = make_moves(start_board, moves);
    let ghost position = position_of(board);
    match status(&board) {
        BoardStatus::Ongoing => {
            let replies: Vec<Move> = legal_moves(&board);
            let first: chess::Board = make_move(&board, replies[0]);
            let mut low: i32 = eval_one(&first);
            let mut high: i32 = low;
            let mut i: usize = 1;
            proof {
                assert(child_scores(position).take(1).len() == 1);
            }
            while i < replies.len()
                invariant
                    1 <= i <= replies@.len(),
                    playable(position),
                    position == position_of(board),
                    replies@ == legal_moves_of(position),
                    forall|j: int| 0 <= j < replies@.len() ==> (#[trigger] replies@[j]).in_range(),
                    low == least(child_scores(position).take(i as int)),
                    high == greatest(child_scores(position).take(i as int)),
                decreases replies@.len() - i,
            {
                let next: chess::Board = make_move(&board, replies[i]);
                let score: i32 = eval_one(&next);
                proof {
                    let scores = child_scores(position);
                    assert(scores.take(i as int + 1).drop_last() == scores.take(i as int));
                    assert(scores.take(i as int + 1).last() == score);
                }
                if score < low {
                    low = score;
                }
                if score > high {
                    high = score;
                }
                i = i + 1;
            }
            proof {
                assert(child_scores(position).take(i as int) == child_scores(position));
            }
            (low, high)
        },
        _ => {
            let score: i32 = eval_one(&board);
            (score, score)
        },
    }
}

/// The score of the position reached by a line of moves, or nothing where the
/// line cannot be played from the board.
pub fn try_eval(start_board: &chess::Board, moves: &Vec<Move>) -> (score: Option<i32>)
    ensures
        score is Some <==> (playable(position_of(*start_board)) && legal_line(
            position_of(*start_board),
            moves@,
        ) && forall|i: int| 0 <= i < moves@.len() ==> (#[trigger] moves@[i]).in_range()),
        score is Some ==> score->0 == evaluate(play(position_of(*start_board), moves@)),
{
    if is_legal_line(start_board, moves) {
        Some(eval(start_board, moves))
    } else {
        None
    }
}

/// The least and greatest score one move after a line of moves (see
/// [`eval_with_children`]), or nothing where the line cannot be played.
pub fn try_eval_with_children(start_board: &chess::Board, moves: &Vec<Move>) -> (scores: Option<
    (i32, i32),
>)
    ensures
        scores is Some <==> (playable(position_of(*start_board)) && legal_line(
            position_of(*start_board),
            moves@,
        ) && forall|i: int| 0 <= i < moves@.len() ==> (#[trigger] moves@[i]).in_range()),
        scores matches Some(pair) ==> ({
            let position = play(position_of(*start_board), moves@);
            if legal_moves_of(position).len() > 0 {
                pair.0 == least(child_scores(position)) && pair.1 == greatest(
                    child_scores(position),
                )
            } else {
                pair.0 == evaluate(position) && pair.1 == evaluate(position)
            }
        }),
{
    if is_legal_line(start_board, moves) {
        Some(eval_with_children(start_board, moves))
    } else {
        None
    }
}

} // verus!
