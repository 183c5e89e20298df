//! The boundary to the `chess` crate, which knows the rules of the game.
//!
//! A position is a `chess::Board`. Verus cannot look into one, so everything
//! here is a contract that is believed, not proved: each function below puts
//! a question to `chess` and says what the answer is.

use vstd::prelude::*;

verus! {

/// The two sides.
#[derive(Clone, Copy, PartialEq, Eq, Debug)]
pub enum Color {
    White,
    Black,
}

/// Whether a game goes on from a position, and how it ended if not.
#[derive(Clone, Copy, PartialEq, Eq, Debug)]
pub enum BoardStatus {
    Ongoing,
    Stalemate,
    Checkmate,
}

/// Which castlings a side may still make.
#[derive(Clone, Copy, PartialEq, Eq, Debug)]
pub enum CastleRights {
    NoRights,
    KingSide,
    QueenSide,
    Both,
}

/// One ply: the squares a piece leaves and reaches (0 is a1, 7 is h1, 63 is h8)
/// and, for a pawn that promotes, the kind it becomes (see [`KNIGHT`] to [`QUEEN`]).
#[derive(Clone, Copy, PartialEq, Eq, Debug)]
pub struct Move {
    pub source: u8,
    pub dest: u8,
    pub promotion: Option<u8>,
}

/// The kinds of pieces, numbered as `chess::Piece::to_index` numbers them.
pub const PAWN: u8 = 0;
pub const KNIGHT: u8 = 1;
pub const BISHOP: u8 = 2;
pub const ROOK: u8 = 3;
pub const QUEEN: u8 = 4;
pub const KING: u8 = 5;

impl Move {
    /// Both squares are on the board and the promotion, if any, is a kind of piece.
    pub open spec fn in_range(self) -> bool {
        &&& self.source < 64
        &&& self.dest < 64
        &&& self.promotion matches Some(kind) ==> kind < 6
    }
}

/// `chess::Board`, a position of the game. Nothing of its inside is known here
/// but what the functions below say.
#[verifier::external_type_specification]
#[verifier::external_body]
pub struct ExBoard(chess::Board);

/// What a `chess::Board` holds: its fields as 64-bit words, in the order in which
/// `chess` declares them. Entries 0 to 5 are the bitboards of the six kinds of
/// pieces, 6 and 7 those of White's and of Black's pieces, 8 that of all pieces,
/// 9 the side to move (0 for White), 10 and 11 the castle rights of White and
/// of Black (0 none, 1 king side, 2 queen side, 3 both), 12 the pinned pieces,
/// 13 the pieces that give check, 14 the hash and 15 the en passant square
/// plus one (0 for none). Bit `s` of a bitboard stands for square `s`.
pub uninterp spec fn position_of(board: chess::Board) -> Seq<u64>;

/// The moves that `chess::MoveGen::new_legal` yields for a position, in its order.
pub uninterp spec fn legal_moves_of(position: Seq<u64>) -> Seq<Move>;

/// The position that `chess::Board::make_move_new` reaches by a move.
pub uninterp spec fn position_after(position: Seq<u64>, mv: Move) -> Seq<u64>;

/// The Zobrist hash that `chess::Board::get_hash` computes of a position.
pub uninterp spec fn hash_of(position: Seq<u64>) -> u64;

/// What `chess::Board::is_sane` says of a position: no square holds two
/// pieces, each side has one king, the two kings do not touch, the side that
/// has moved is not in check, and the castle rights and the en passant
/// square fit the pieces.
pub uninterp spec fn sane_of(position: Seq<u64>) -> bool;

/// Where the side to move stands in a position.
pub open spec fn side_index() -> int {
    9
}

/// Where the pieces that give check stand in a position.
pub open spec fn check_index() -> int {
    13
}

/// The side whose turn it is.
pub open spec fn side_of(position: Seq<u64>) -> Color {
    if position[side_index()] == 0 {
        Color::White
    } else {
        Color::Black
    }
}

/// Where the bitboard of a side's pieces stands in a position.
pub open spec fn color_index(color: Color) -> int {
    match color {
        Color::White => 6,
        Color::Black => 7,
    }
}

/// The side to move is in check.
pub open spec fn in_check(position: Seq<u64>) -> bool {
    position[check_index()] != 0
}

/// The status of a position: the game goes on while there is a legal move;
/// without one it is checkmate if the side to move is in check, else stalemate.
pub open spec fn status_of(position: Seq<u64>) -> BoardStatus {
    if legal_moves_of(position).len() > 0 {
        BoardStatus::Ongoing
    } else if in_check(position) {
        BoardStatus::Checkmate
    } else {
        BoardStatus::Stalemate
    }
}

/// A position for which `chess` can list the moves. It is sane: `chess` looks
/// up the king of the side to move without asking whether there is one. And
/// neither side has more than sixteen pieces: the list of `chess` has room
/// for the moves of that many.
pub open spec fn playable(position: Seq<u64>) -> bool {
    &&& sane_of(position)
    &&& count_ones(position[color_index(Color::White)]) <= 16
    &&& count_ones(position[color_index(Color::Black)]) <= 16
}

/// The number of bits set in a word.
pub open spec fn count_ones(bits: u64) -> nat
    decreases bits,
{
    if bits == 0 {
        0
    } else {
        (bits % 2) as nat + count_ones(bits / 2)
    }
}

/// `chess::Board::is_sane`: whether a board is one that the rules allow.
#[verifier::external_body]
pub(crate) fn is_sane(board: &chess::Board) -> (ok: bool)
    ensures
        ok == sane_of(position_of(*board)),
{
    board.is_sane()
}

/// `chess::MoveGen::new_legal`, collected: the legal moves of a position. Every
/// square that `chess` hands out is one of the 64, and every promotion a kind.
#[verifier::external_body]
pub(crate) fn legal_moves(board: &chess::Board) -> (moves: Vec<Move>)
    requires
        sane_of(position_of(*board)),
        playable(position_of(*board)),
    ensures
        moves@ == legal_moves_of(position_of(*board)),
        forall|i: int| 0 <= i < moves@.len() ==> (#[trigger] moves@[i]).in_range(),
{
    chess::MoveGen::new_legal(board).map(|m| Move {
        source: m.get_source().to_int(),
        dest: m.get_dest().to_int(),
        promotion: m.get_promotion().map(|p| p.to_index() as u8),
    }).collect()
}

/// `chess::Board::legal`: whether a move is among the legal moves of a position.
#[verifier::external_body]
pub(crate) fn is_legal(board: &chess::Board, mv: Move) -> (legal: bool)
    requires
        sane_of(position_of(*board)),
        playable(position_of(*board)),
        mv.in_range(),
    ensures
        legal == legal_moves_of(position_of(*board)).contains(mv),
{
    board.legal(chess::ChessMove::new(
        chess::ALL_SQUARES[mv.source as usize],
        chess::ALL_SQUARES[mv.dest as usize],
        mv.promotion.map(|kind| chess::ALL_PIECES[kind as usize]),
    ))
}

/// `chess::Board::make_move_new`: the position after a move. `chess` panics on a
/// move whose source square is empty, so the move must be legal. A legal move
/// on a sane board leaves a sane board and adds no piece to either side; on
/// a board that is not sane a castling could bring a rook out of nothing.
#[verifier::external_body]
pub(crate) fn make_move(board: &chess::Board, mv: Move) -> (next: chess::Board)
    requires
        sane_of(position_of(*board)),
        mv.in_range(),
        legal_moves_of(position_of(*board)).contains(mv),
    ensures
        position_of(next) == position_after(position_of(*board), mv),
        sane_of(position_of(next)),
        count_ones(position_of(next)[color_index(Color::White)]) <= count_ones(
            position_of(*board)[color_index(Color::White)],
        ),
        count_ones(position_of(next)[color_index(Color::Black)]) <= count_ones(
            position_of(*board)[color_index(Color::Black)],
        ),
{
    board.make_move_new(chess::ChessMove::new(
        chess::ALL_SQUARES[mv.source as usize],
        chess::ALL_SQUARES[mv.dest as usize],
        mv.promotion.map(|kind| chess::ALL_PIECES[kind as usize]),
    ))
}

/// `chess::Board::status`, which counts the legal moves and looks for pieces
/// that give check.
#[verifier::external_body]
pub(crate) fn status(board: &chess::Board) -> (status: BoardStatus)
    requires
        sane_of(position_of(*board)),
        playable(position_of(*board)),
    ensures
        status == status_of(position_of(*board)),
{
    match board.status() {
        chess::BoardStatus::Ongoing => BoardStatus::Ongoing,
        chess::BoardStatus::Stalemate => BoardStatus::Stalemate,
        chess::BoardStatus::Checkmate => BoardStatus::Checkmate,
    }
}

/// `chess::Board::side_to_move`.
#[verifier::external_body]
pub(crate) fn side_to_move(board: &chess::Board) -> (side: Color)
    ensures
        side == side_of(position_of(*board)),
{
    match board.side_to_move() {
        chess::Color::White => Color::White,
        chess::Color::Black => Color::Black,
    }
}

/// `chess::Board::pieces`: the squares that hold a piece of one kind.
#[verifier::external_body]
pub(crate) fn pieces(board: &chess::Board, kind: u8) -> (bits: u64)
    requires
        kind < 6,
    ensures
        bits == position_of(*board)[kind as int],
{
    board.pieces(chess::ALL_PIECES[kind as usize]).0
}

/// `chess::Board::color_combined`: the squares that hold a piece of one side.
#[verifier::external_body]
pub(crate) fn color_combined(board: &chess::Board, color: Color) -> (bits: u64)
    ensures
        bits == position_of(*board)[color_index(color)],
{
    board.color_combined(chess::ALL_COLORS[color as usize]).0
}

/// `chess::BitBoard::popcnt`: how many squares a bitboard holds.
#[verifier::external_body]
pub(crate) fn popcnt(bits: u64) -> (count: u32)
    ensures
        count == count_ones(bits),
{
    chess::BitBoard(bits).popcnt()
}

/// Whether a bitboard holds a square.
pub open spec fn holds_square(bits: u64, square: int) -> bool {
    (bits >> (square as u64)) & 1 == 1
}

/// The piece that a list of placements leaves on a square: the kind and the
/// side of the last placement there, if there is one.
pub open spec fn occupant(pieces: Seq<(u8, u8, Color)>, square: int) -> Option<(u8, Color)>
    decreases pieces.len(),
{
    if pieces.len() == 0 {
        None
    } else if pieces.last().0 == square {
        Some((pieces.last().1, pieces.last().2))
    } else {
        occupant(pieces.drop_last(), square)
    }
}

/// How many of the first `squares` squares a list of placements leaves with
/// a king of one side.
pub open spec fn kings_below(pieces: Seq<(u8, u8, Color)>, color: Color, squares: int) -> nat
    decreases squares,
{
    if squares <= 0 {
        0
    } else if occupant(pieces, squares - 1) == Some((KING, color)) {
        kings_below(pieces, color, squares - 1) + 1
    } else {
        kings_below(pieces, color, squares - 1)
    }
}

/// A list of placements leaves each side with one king.
pub open spec fn one_king_each(pieces: Seq<(u8, u8, Color)>) -> bool {
    &&& kings_below(pieces, Color::White, 64) == 1
    &&& kings_below(pieces, Color::Black, 64) == 1
}

/// The number that stands for castle rights in a position.
pub open spec fn rights_index(rights: CastleRights) -> u64 {
    match rights {
        CastleRights::NoRights => 0,
        CastleRights::KingSide => 1,
        CastleRights::QueenSide => 2,
        CastleRights::Both => 3,
    }
}

/// A position holds the pieces that a list of placements leaves on the
/// board, the given side is to move and has the given castle rights, and
/// there is no en passant square.
pub open spec fn set_up(
    position: Seq<u64>,
    pieces: Seq<(u8, u8, Color)>,
    side: Color,
    white: CastleRights,
    black: CastleRights,
) -> bool {
    &&& side_of(position) == side
    &&& position[10] == rights_index(white)
    &&& position[11] == rights_index(black)
    &&& position[15] == 0
    &&& forall|square: int, kind: int|
        0 <= square < 64 && 0 <= kind < 6 ==> (#[trigger] holds_square(position[kind], square) <==> (
        occupant(pieces, square) matches Some(piece) && piece.0 == kind))
    &&& forall|square: int, color: Color|
        0 <= square < 64 ==> (#[trigger] holds_square(position[color_index(color)], square) <==> (
        occupant(pieces, square) matches Some(piece) && piece.1 == color))
}

/// Whether `chess::Board::is_sane` accepts the board that a list of
/// placements with one king of each side, a side to move and the castle
/// rights of both sides make up.
pub uninterp spec fn sane_setup(
    pieces: Seq<(u8, u8, Color)>,
    side: Color,
    white: CastleRights,
    black: CastleRights,
) -> bool;

/// The board that `chess::BoardBuilder::setup` and `chess::Board::try_from`
/// make of a list of placements (square, kind, side), a side to move and the
/// castle rights of both sides, without an en passant square; nothing where
/// `chess` finds the board not sane. Of two placements on one square the
/// later one stands. Each side must have its king: `chess` looks for the
/// pieces that pin and give check from the king's square before it asks
/// whether the board is sane.
#[verifier::external_body]
pub(crate) fn board_from_setup(
    pieces: &Vec<(u8, u8, Color)>,
    side: Color,
    white: CastleRights,
    black: CastleRights,
) -> (board: Option<chess::Board>)
    requires
        forall|i: int| 0 <= i < pieces@.len() ==> (#[trigger] pieces@[i]).0 < 64 && pieces@[i].1 < 6,
        one_king_each(pieces@),
    ensures
        board is Some <==> sane_setup(pieces@, side, white, black),
        board matches Some(made) ==> set_up(position_of(made), pieces@, side, white, black),
        board matches Some(made) ==> sane_of(position_of(made)),
{
    let placed: Vec<(chess::Square, chess::Piece, chess::Color)> = pieces.iter().map(|piece| (
        chess::ALL_SQUARES[piece.0 as usize],
        chess::ALL_PIECES[piece.1 as usize],
        chess::ALL_COLORS[piece.2 as usize],
    )).collect();
    chess::Board::try_from(chess::BoardBuilder::setup(
        &placed,
        chess::ALL_COLORS[side as usize],
        chess::CastleRights::from_index(white as usize),
        chess::CastleRights::from_index(black as usize),
        None,
    )).ok()
}

/// The kind of the piece on a square of a position: none where no piece
/// stands, else the kind whose bitboard holds the square.
pub open spec fn piece_at(position: Seq<u64>, square: int) -> Option<u8> {
    if !holds_square(position[8], square) {
        None
    } else if holds_square(position[0] ^ position[1] ^ position[2], square) {
        if holds_square(position[0], square) {
            Some(PAWN)
        } else if holds_square(position[1], square) {
            Some(KNIGHT)
        } else {
            Some(BISHOP)
        }
    } else {
        if holds_square(position[3], square) {
            Some(ROOK)
        } else if holds_square(position[4], square) {
            Some(QUEEN)
        } else {
            Some(KING)
        }
    }
}

/// The side of the piece on a square of a position.
pub open spec fn color_at(position: Seq<u64>, square: int) -> Option<Color> {
    if holds_square(position[6], square) {
        Some(Color::White)
    } else if holds_square(position[7], square) {
        Some(Color::Black)
    } else {
        None
    }
}

/// `chess::Board::piece_on`: the kind of the piece on a square.
#[verifier::external_body]
pub(crate) fn piece_on(board: &chess::Board, square: u8) -> (kind: Option<u8>)
    requires
        square < 64,
    ensures
        kind == piece_at(position_of(*board), square as int),
{
    board.piece_on(chess::ALL_SQUARES[square as usize]).map(|piece| piece.to_index() as u8)
}

/// `chess::Board::color_on`: the side of the piece on a square.
#[verifier::external_body]
pub(crate) fn color_on(board: &chess::Board, square: u8) -> (color: Option<Color>)
    requires
        square < 64,
    ensures
        color == color_at(position_of(*board), square as int),
{
    board.color_on(chess::ALL_SQUARES[square as usize]).map(|color| match color {
        chess::Color::White => Color::White,
        chess::Color::Black => Color::Black,
    })
}

/// The name of a square: the letter of its file and the digit of its rank.
pub open spec fn square_name_of(square: u8) -> Seq<char> {
    seq![(97 + square % 8) as char, (49 + square / 8) as char]
}

/// The name that `chess::Square` prints for a square.
#[verifier::external_body]
pub(crate) fn square_name(square: u8) -> (name: String)
    requires
        square < 64,
    ensures
        name@ == square_name_of(square),
{
    chess::ALL_SQUARES[square as usize].to_string()
}

/// `chess::Board::get_hash`.
#[verifier::external_body]
pub(crate) fn get_hash(board: &chess::Board) -> (hash: u64)
    ensures
        hash == hash_of(position_of(*board)),
{
    board.get_hash()
}

} // verus!
