//! Boards as text: a board is drawn as eight ranks, the eighth first, each a
//! line of squares between bars that hold a chess symbol or nothing.

use crate::rules::{
    board_from_setup, color_at, color_on, kings_below, occupant, one_king_each, piece_at,
    piece_on, position_of, sane_of, sane_setup, set_up, CastleRights, Color, BISHOP, KING,
    KNIGHT, PAWN, QUEEN, ROOK,
};
use vstd::prelude::*;
use vstd::string::{StrSliceExecFns, StringExecFns};

verus! {

/// Whether a character is white space.
pub open spec fn is_space(c: char) -> bool {
    let code = c as u32;
    ||| 9 <= code <= 13
    ||| code == 0x20
    ||| code == 0x85
    ||| code == 0xA0
    ||| code == 0x1680
    ||| 0x2000 <= code <= 0x200A
    ||| code == 0x2028
    ||| code == 0x2029
    ||| code == 0x202F
    ||| code == 0x205F
    ||| code == 0x3000
}

/// How many bytes a character takes in UTF-8.
pub open spec fn char_bytes(c: char) -> nat {
    let code = c as u32;
    if code < 0x80 {
        1
    } else if code < 0x800 {
        2
    } else if code < 0x10000 {
        3
    } else {
        4
    }
}

/// How many bytes a text takes in UTF-8.
pub open spec fn text_bytes(text: Seq<char>) -> nat
    decreases text.len(),
{
    if text.len() == 0 {
        0
    } else {
        text_bytes(text.drop_last()) + char_bytes(text.last())
    }
}

/// The text without the white space at its start.
pub open spec fn trimmed_start(text: Seq<char>) -> Seq<char>
    decreases text.len(),
{
    if text.len() > 0 && is_space(text[0]) {
        trimmed_start(text.skip(1))
    } else {
        text
    }
}

/// The text without the white space at its end.
pub open spec fn trimmed_end(text: Seq<char>) -> Seq<char>
    decreases text.len(),
{
    if text.len() > 0 && is_space(text.last()) {
        trimmed_end(text.drop_last())
    } else {
        text
    }
}

/// The text without the white space at its start and at its end.
pub open spec fn trimmed(text: Seq<char>) -> Seq<char> {
    trimmed_end(trimmed_start(text))
}

/// The parts of a text between the places of a separator. A text without the
/// separator is one part; the separator at the end leaves an empty last part.
pub open spec fn split(text: Seq<char>, separator: char) -> Seq<Seq<char>>
    decreases text.len(),
{
    if text.len() == 0 {
        seq![Seq::<char>::empty()]
    } else {
        let before = split(text.drop_last(), separator);
        if text.last() == separator {
            before.push(Seq::<char>::empty())
        } else {
            before.drop_last().push(before.last().push(text.last()))
        }
    }
}

/// The texts that some vectors hold.
pub open spec fn texts(parts: Seq<Vec<char>>) -> Seq<Seq<char>> {
    parts.map_values(|part: Vec<char>| part@)
}

fn is_space_char(c: char) -> (space: bool)
    ensures
        space == is_space(c),
{
    let code: u32 = c as u32;
    (9 <= code && code <= 13) || code == 0x20 || code == 0x85 || code == 0xA0 || code == 0x1680 || (
    0x2000 <= code && code <= 0x200A) || code == 0x2028 || code == 0x2029 || code == 0x202F || code
        == 0x205F || code == 0x3000
}

fn chars_of(text: &str) -> (chars: Vec<char>)
    ensures
        chars@ == text@,
{
    let len: usize = text.unicode_len();
    let mut chars: Vec<char> = Vec::new();
    let mut i: usize = 0;
    while i < len
        invariant
            i <= len,
            len == text@.len(),
            chars@ == text@.take(i as int),
        decreases len - i,
    {
        chars.push(text.get_char(i));
        proof {
            assert(text@.take(i as int + 1) == text@.take(i as int).push(text@[i as int]));
        }
        i = i + 1;
    }
    proof {
        assert(text@.take(len as int) == text@);
    }
    chars
}

fn byte_len(text: &Vec<char>) -> (bytes: usize)
    ensures
        bytes == text_bytes(text@) || (bytes == usize::MAX && text_bytes(text@) > usize::MAX),
{
    let mut bytes: usize = 0;
    let mut i: usize = 0;
    while i < text.len()
        invariant
            i <= text@.len(),
            bytes == text_bytes(text@.take(i as int)),
        decreases text@.len() - i,
    {
        let code: u32 = text[i] as u32;
        let width: usize = if code < 0x80 {
            1
        } else if code < 0x800 {
            2
        } else if code < 0x10000 {
            3
        } else {
            4
        };
        proof {
            assert(text@.take(i as int + 1).drop_last() == text@.take(i as int));
            lemma_text_bytes_grow(text@, i as int + 1);
        }
        if bytes > usize::MAX - width {
            return usize::MAX;
        }
        bytes = bytes + width;
        i = i + 1;
    }
    proof {
        assert(text@.take(i as int) == text@);
    }
    bytes
}

/// A text takes at least as many bytes as any of its beginnings.
pub proof fn lemma_text_bytes_grow(text: Seq<char>, len: int)
    requires
        0 <= len <= text.len(),
    ensures
        text_bytes(text.take(len)) <= text_bytes(text),
    decreases text.len(),
{
    if len == text.len() {
        assert(text.take(len) == text);
    } else {
        lemma_text_bytes_grow(text.drop_last(), len);
        assert(text.drop_last().take(len) == text.take(len));
    }
}

fn trim(text: &Vec<char>) -> (short: Vec<char>)
    ensures
        short@ == trimmed(text@),
{
    let mut start: usize = 0;
    proof {
        assert(text@.skip(0) == text@);
    }
    while start < text.len() && is_space_char(text[start])
        invariant
            start <= text@.len(),
            trimmed_start(text@) == trimmed_start(text@.skip(start as int)),
        decreases text@.len() - start,
    {
        proof {
            assert(text@.skip(start as int).skip(1) == text@.skip(start as int + 1));
        }
        start = start + 1;
    }
    let ghost rest = text@.skip(start as int);
    assert(trimmed_start(text@) == rest);
    let mut end: usize = text.len();
    proof {
        assert(rest.take(rest.len() as int) == rest);
    }
    while end > start && is_space_char(text[end - 1])
        invariant
            start <= end <= text@.len(),
            rest == text@.skip(start as int),
            trimmed_end(rest) == trimmed_end(rest.take(end - start)),
        decreases end,
    {
        proof {
            assert(rest.take(end - start).drop_last() == rest.take(end - start - 1));
        }
        end = end - 1;
    }
    proof {
        assert(trimmed_end(rest) == rest.take(end - start));
    }
    let mut short: Vec<char> = Vec::new();
    let mut i: usize = start;
    while i < end
        invariant
            start <= i <= end <= text@.len(),
            short@ == text@.subrange(start as int, i as int),
        decreases end - i,
    {
        short.push(text[i]);
        proof {
            assert(text@.subrange(start as int, i as int + 1) == text@.subrange(
                start as int,
                i as int,
            ).push(text@[i as int]));
        }
        i = i + 1;
    }
    proof {
        assert(text@.subrange(start as int, end as int) == rest.take(end - start));
    }
    short
}

fn split_text(text: &Vec<char>, separator: char) -> (parts: Vec<Vec<char>>)
    ensures
        texts(parts@) == split(text@, separator),
{
    let mut parts: Vec<Vec<char>> = Vec::new();
    let mut part: Vec<char> = Vec::new();
    let mut i: usize = 0;
    proof {
        assert(texts(parts@).push(part@) == split(text@.take(0), separator));
    }
    while i < text.len()
        invariant
            i <= text@.len(),
            texts(parts@).push(part@) == split(text@.take(i as int), separator),
        decreases text@.len() - i,
    {
        let c: char = text[i];
        proof {
            assert(text@.take(i as int + 1).drop_last() == text@.take(i as int));
            let before = split(text@.take(i as int), separator);
            assert(before.drop_last() == texts(parts@));
            assert(before.last() == part@);
        }
        if c == separator {
            let ghost done = texts(parts@);
            parts.push(part);
            part = Vec::new();
            proof {
                assert(texts(parts@) == done.push(parts@.last()@));
            }
        } else {
            part.push(c);
        }
        i = i + 1;
    }
    let ghost done = texts(parts@);
    parts.push(part);
    proof {
        assert(text@.take(i as int) == text@);
        assert(texts(parts@) == done.push(parts@.last()@));
    }
    parts
}


/// The symbol of a piece: the black chess symbols of Unicode stand for White's
/// pieces and the white ones for Black's, as they show on a dark screen.
/// White's pawn is followed by the mark that asks for its text form.
pub open spec fn symbol_of(kind: u8, color: Color) -> Seq<char> {
    match color {
        Color::White => {
            if kind == KING {
                seq!['\u{265a}']
            } else if kind == QUEEN {
                seq!['\u{265b}']
            } else if kind == ROOK {
                seq!['\u{265c}']
            } else if kind == BISHOP {
                seq!['\u{265d}']
            } else if kind == KNIGHT {
                seq!['\u{265e}']
            } else {
                seq!['\u{265f}', '\u{fe0e}']
            }
        },
        Color::Black => {
            if kind == KING {
                seq!['\u{2654}']
            } else if kind == QUEEN {
                seq!['\u{2655}']
            } else if kind == ROOK {
                seq!['\u{2656}']
            } else if kind == BISHOP {
                seq!['\u{2657}']
            } else if kind == KNIGHT {
                seq!['\u{2658}']
            } else {
                seq!['\u{2659}']
            }
        },
    }
}

/// The piece that a text is the symbol of, if it is one.
pub open spec fn piece_of(text: Seq<char>) -> Option<(u8, Color)> {
    if text.len() == 1 && 0x2654 <= text[0] as u32 <= 0x265e {
        let code = text[0] as u32;
        let color = if code <= 0x2659 {
            Color::Black
        } else {
            Color::White
        };
        let place = if code <= 0x2659 {
            code - 0x2654
        } else {
            code - 0x265a
        };
        if place == 0 {
            Some((KING, color))
        } else if place == 1 {
            Some((QUEEN, color))
        } else if place == 2 {
            Some((ROOK, color))
        } else if place == 3 {
            Some((BISHOP, color))
        } else if place == 4 {
            Some((KNIGHT, color))
        } else {
            Some((PAWN, Color::Black))
        }
    } else if text.len() == 2 && text[0] as u32 == 0x265f && text[1] as u32 == 0xfe0e {
        Some((PAWN, Color::White))
    } else {
        None
    }
}

/// Each symbol is read back as the piece that it stands for.
pub proof fn lemma_symbol_read_back(kind: u8, color: Color)
    requires
        kind < 6,
    ensures
        piece_of(symbol_of(kind, color)) == Some((kind, color)),
{
}

/// Of the first `count` parts, the trimmed ones that are not empty.
pub open spec fn lines_among(parts: Seq<Seq<char>>, count: int) -> Seq<Seq<char>>
    decreases count,
{
    if count <= 0 {
        Seq::<Seq<char>>::empty()
    } else if trimmed(parts[count - 1]).len() > 0 {
        lines_among(parts, count - 1).push(trimmed(parts[count - 1]))
    } else {
        lines_among(parts, count - 1)
    }
}

/// The lines of a drawn board: the lines of the text, trimmed, without the
/// empty ones.
pub open spec fn lines_of(text: Seq<char>) -> Seq<Seq<char>> {
    lines_among(split(text, '\n'), split(text, '\n').len() as int)
}

/// Of the first `count` parts of a line, the trimmed ones that are longer
/// than one byte: the squares of a rank. The number of the rank, which
/// stands before the first bar, is a single byte and drops out.
pub open spec fn squares_among(parts: Seq<Seq<char>>, count: int) -> Seq<Seq<char>>
    decreases count,
{
    if count <= 0 {
        Seq::<Seq<char>>::empty()
    } else if text_bytes(parts[count - 1]) > 1 {
        squares_among(parts, count - 1).push(trimmed(parts[count - 1]))
    } else {
        squares_among(parts, count - 1)
    }
}

/// The squares of a line, as the texts between its bars.
pub open spec fn squares_of(line: Seq<char>) -> Seq<Seq<char>> {
    squares_among(split(line, '|'), split(line, '|').len() as int)
}

/// The placements that the first `count` squares of a rank make: a square
/// that holds a symbol places its piece on the file that it has in the
/// line; beyond the eighth the files start over.
pub open spec fn rank_setup(squares: Seq<Seq<char>>, rank: int, count: int) -> Seq<
    (u8, u8, Color),
>
    decreases count,
{
    if count <= 0 {
        Seq::<(u8, u8, Color)>::empty()
    } else {
        match piece_of(squares[count - 1]) {
            Some(piece) => rank_setup(squares, rank, count - 1).push(
                ((rank * 8 + (count - 1) % 8) as u8, piece.0, piece.1),
            ),
            None => rank_setup(squares, rank, count - 1),
        }
    }
}

/// The placements that the first `count` lines make: the first line is the
/// eighth rank.
pub open spec fn ranks_setup(lines: Seq<Seq<char>>, count: int) -> Seq<(u8, u8, Color)>
    decreases count,
{
    if count <= 0 {
        Seq::<(u8, u8, Color)>::empty()
    } else {
        ranks_setup(lines, count - 1) + rank_setup(
            squares_of(lines[count - 1]),
            8 - count,
            squares_of(lines[count - 1]).len() as int,
        )
    }
}

/// The placements that a drawn board makes: those of its first eight lines.
pub open spec fn setup_of(text: Seq<char>) -> Seq<(u8, u8, Color)> {
    ranks_setup(lines_of(text), 8)
}

/// The symbol of a piece.
pub fn piece_to_char(piece: u8, color: Color) -> (symbol: String)
    ensures
        symbol@ == symbol_of(piece, color),
{
    proof {
        reveal_strlit("\u{265a}");
        reveal_strlit("\u{265b}");
        reveal_strlit("\u{265c}");
        reveal_strlit("\u{265d}");
        reveal_strlit("\u{265e}");
        reveal_strlit("\u{265f}\u{fe0e}");
        reveal_strlit("\u{2654}");
        reveal_strlit("\u{2655}");
        reveal_strlit("\u{2656}");
        reveal_strlit("\u{2657}");
        reveal_strlit("\u{2658}");
        reveal_strlit("\u{2659}");
    }
    let symbol: &str = match color {
        Color::White => {
            if piece == KING {
                "\u{265a}"
            } else if piece == QUEEN {
                "\u{265b}"
            } else if piece == ROOK {
                "\u{265c}"
            } else if piece == BISHOP {
                "\u{265d}"
            } else if piece == KNIGHT {
                "\u{265e}"
            } else {
                "\u{265f}\u{fe0e}"
            }
        },
        Color::Black => {
            if piece == KING {
                "\u{2654}"
            } else if piece == QUEEN {
                "\u{2655}"
            } else if piece == ROOK {
                "\u{2656}"
            } else if piece == BISHOP {
                "\u{2657}"
            } else if piece == KNIGHT {
                "\u{2658}"
            } else {
                "\u{2659}"
            }
        },
    };
    let text: String = String::from_str(symbol);
    proof {
        assert(text@ =~= symbol_of(piece, color));
    }
    text
}

/// The piece that a text is the symbol of, if it is one.
pub fn char_to_piece(text: &Vec<char>) -> (piece: Option<(u8, Color)>)
    ensures
        piece == piece_of(text@),
{
    if text.len() == 1 {
        let code: u32 = text[0] as u32;
        if 0x2654 <= code && code <= 0x265e {
            let color: Color = if code <= 0x2659 {
                Color::Black
            } else {
                Color::White
            };
            let place: u32 = if code <= 0x2659 {
                code - 0x2654
            } else {
                code - 0x265a
            };
            if place == 0 {
                Some((KING, color))
            } else if place == 1 {
                Some((QUEEN, color))
            } else if place == 2 {
                Some((ROOK, color))
            } else if place == 3 {
                Some((BISHOP, color))
            } else if place == 4 {
                Some((KNIGHT, color))
            } else {
                Some((PAWN, Color::Black))
            }
        } else {
            None
        }
    } else if text.len() == 2 && text[0] as u32 == 0x265f && text[1] as u32 == 0xfe0e {
        Some((PAWN, Color::White))
    } else {
        None
    }
}

/// The lines of a drawn board: the lines of the text, trimmed, without the
/// empty ones.
pub fn textboard_lines(textboard: &str) -> (lines: Vec<Vec<char>>)
    ensures
        texts(lines@) == lines_of(textboard@),
{
    let text: Vec<char> = chars_of(textboard);
    let parts: Vec<Vec<char>> = split_text(&text, '\n');
    let mut lines: Vec<Vec<char>> = Vec::new();
    let mut i: usize = 0;
    while i < parts.len()
        invariant
            i <= parts@.len(),
            texts(lines@) == lines_among(texts(parts@), i as int),
        decreases parts@.len() - i,
    {
        let line: Vec<char> = trim(&parts[i]);
        if line.len() > 0 {
            let ghost done = texts(lines@);
            lines.push(line);
            proof {
                assert(texts(lines@) == done.push(lines@.last()@));
            }
        }
        i = i + 1;
    }
    lines
}

/// The placements that one line of a drawn board makes on a rank.
fn rank_placements(line: &Vec<char>, rank: u8) -> (pieces: Vec<(u8, u8, Color)>)
    requires
        rank < 8,
    ensures
        pieces@ == rank_setup(squares_of(line@), rank as int, squares_of(line@).len() as int),
        forall|i: int| 0 <= i < pieces@.len() ==> (#[trigger] pieces@[i]).0 < 64 && pieces@[i].1 < 6,
{
    let parts: Vec<Vec<char>> = split_text(line, '|');
    let mut squares: Vec<Vec<char>> = Vec::new();
    let mut i: usize = 0;
    while i < parts.len()
        invariant
            i <= parts@.len(),
            texts(squares@) == squares_among(texts(parts@), i as int),
        decreases parts@.len() - i,
    {
        if byte_len(&parts[i]) > 1 {
            let ghost done = texts(squares@);
            squares.push(trim(&parts[i]));
            proof {
                assert(texts(squares@) == done.push(squares@.last()@));
            }
        }
        i = i + 1;
    }
    let mut pieces: Vec<(u8, u8, Color)> = Vec::new();
    let mut file: usize = 0;
    while file < squares.len()
        invariant
            rank < 8,
            file <= squares@.len(),
            pieces@ == rank_setup(texts(squares@), rank as int, file as int),
            forall|i: int|
                0 <= i < pieces@.len() ==> (#[trigger] pieces@[i]).0 < 64 && pieces@[i].1 < 6,
        decreases squares@.len() - file,
    {
        match char_to_piece(&squares[file]) {
            Some(piece) => {
                let square: u8 = rank * 8 + (file % 8) as u8;
                pieces.push((square, piece.0, piece.1));
            },
            None => {},
        }
        file = file + 1;
    }
    pieces
}

/// The piece that a list of placements leaves on a square.
fn occupant_of(pieces: &Vec<(u8, u8, Color)>, square: u8) -> (piece: Option<(u8, Color)>)
    ensures
        piece == occupant(pieces@, square as int),
{
    let mut i: usize = pieces.len();
    proof {
        assert(pieces@.take(i as int) == pieces@);
    }
    while i > 0
        invariant
            i <= pieces@.len(),
            occupant(pieces@, square as int) == occupant(pieces@.take(i as int), square as int),
        decreases i,
    {
        proof {
            assert(pieces@.take(i as int).drop_last() == pieces@.take(i as int - 1));
        }
        if pieces[i - 1].0 == square {
            return Some((pieces[i - 1].1, pieces[i - 1].2));
        }
        i = i - 1;
    }
    None
}

/// How many squares a list of placements leaves with a king of one side.
fn count_kings(pieces: &Vec<(u8, u8, Color)>, color: Color) -> (kings: u8)
    ensures
        kings == kings_below(pieces@, color, 64),
{
    let mut kings: u8 = 0;
    let mut square: u8 = 0;
    while square < 64
        invariant
            square <= 64,
            kings <= square,
            kings == kings_below(pieces@, color, square as int),
        decreases 64 - square,
    {
        let found: bool = match occupant_of(pieces, square) {
            Some((kind, side)) => kind == KING && match (side, color) {
                (Color::White, Color::White) => true,
                (Color::Black, Color::Black) => true,
                _ => false,
            },
            None => false,
        };
        if found {
            kings = kings + 1;
        }
        square = square + 1;
    }
    kings
}

/// The board that a text draws, with the given castle rights and side to
/// move, or nothing where the text has fewer than eight lines, where a side
/// is left without its king or with several, or where `chess` finds the
/// board not sane.
///
/// Each of the first eight lines is a rank, the eighth first. The squares
/// of a rank stand between bars; a square holds a chess symbol or nothing.
pub fn try_board_from_textboard(
    textboard: &str,
    white_castle_rights: CastleRights,
    black_castle_rights: CastleRights,
    side_to_move: Color,
) -> (board: Option<chess::Board>)
    ensures
        board is Some <==> lines_of(textboard@).len() >= 8 && one_king_each(setup_of(textboard@))
            && sane_setup(
            setup_of(textboard@),
            side_to_move,
            white_castle_rights,
            black_castle_rights,
        ),
        board matches Some(made) ==> sane_of(position_of(made)),
        board matches Some(made) ==> set_up(
            position_of(made),
            setup_of(textboard@),
            side_to_move,
            white_castle_rights,
            black_castle_rights,
        ),
{
    let lines: Vec<Vec<char>> = textboard_lines(textboard);
    if lines.len() < 8 {
        return None;
    }
    let mut pieces: Vec<(u8, u8, Color)> = Vec::new();
    let mut i: usize = 0;
    while i < 8
        invariant
            i <= 8 <= lines@.len(),
            pieces@ == ranks_setup(texts(lines@), i as int),
            forall|k: int|
                0 <= k < pieces@.len() ==> (#[trigger] pieces@[k]).0 < 64 && pieces@[k].1 < 6,
        decreases 8 - i,
    {
        let rank: u8 = 7 - i as u8;
        let mut placed: Vec<(u8, u8, Color)> = rank_placements(&lines[i], rank);
        pieces.append(&mut placed);
        i = i + 1;
    }
    if count_kings(&pieces, Color::White) != 1 || count_kings(&pieces, Color::Black) != 1 {
        return None;
    }
    board_from_setup(&pieces, side_to_move, white_castle_rights, black_castle_rights)
}

/// The board that a text draws, with the given castle rights and side to
/// move (see [`try_board_from_textboard`]). The text must draw a sane board.
pub fn board_from_textboard(
    textboard: &str,
    white_castle_rights: CastleRights,
    black_castle_rights: CastleRights,
    side_to_move: Color,
) -> (board: chess::Board)
    requires
        lines_of(textboard@).len() >= 8,
        one_king_each(setup_of(textboard@)),
        sane_setup(
            setup_of(textboard@),
            side_to_move,
            white_castle_rights,
            black_castle_rights,
        ),
    ensures
        set_up(
            position_of(board),
            setup_of(textboard@),
            side_to_move,
            white_castle_rights,
            black_castle_rights,
        ),
        sane_of(position_of(board)),
{
    let board: Option<chess::Board> = try_board_from_textboard(
        textboard,
        white_castle_rights,
        black_castle_rights,
        side_to_move,
    );
    board.unwrap()
}

/// A square as it is drawn: a bar, and between two spaces the symbol of the
/// piece that stands there, or a third space where none does.
pub open spec fn square_text(position: Seq<u64>, square: int) -> Seq<char> {
    match (piece_at(position, square), color_at(position, square)) {
        (Some(kind), Some(color)) => seq!['|', ' '] + symbol_of(kind, color) + seq![' '],
        _ => seq!['|', ' ', ' ', ' '],
    }
}

/// The first `files` squares of a rank as they are drawn.
pub open spec fn rank_text(position: Seq<u64>, rank: int, files: int) -> Seq<char>
    decreases files,
{
    if files <= 0 {
        Seq::<char>::empty()
    } else {
        rank_text(position, rank, files - 1) + square_text(position, rank * 8 + files - 1)
    }
}

/// The board as eight lines of text, the eighth rank first.
pub fn show_board(board: &chess::Board) -> (lines: Vec<String>)
    ensures
        lines@.len() == 8,
        forall|i: int|
            0 <= i < 8 ==> (#[trigger] lines@[i])@ == rank_text(position_of(*board), 7 - i, 8),
{
    let mut lines: Vec<String> = Vec::new();
    let mut drawn: u8 = 0;
    while drawn < 8
        invariant
            drawn <= 8,
            lines@.len() == drawn,
            forall|i: int|
                0 <= i < drawn ==> (#[trigger] lines@[i])@ == rank_text(
                    position_of(*board),
                    7 - i,
                    8,
                ),
        decreases 8 - drawn,
    {
        let l: u8 = 7 - drawn;
        let mut line: String = String::new();
        let mut f: u8 = 0;
        while f < 8
            invariant
                f <= 8,
                l < 8,
                line@ == rank_text(position_of(*board), l as int, f as int),
            decreases 8 - f,
        {
            let square: u8 = f + l * 8;
            proof {
                reveal_strlit("| ");
                reveal_strlit(" ");
                reveal_strlit("|   ");
            }
            match (piece_on(board, square), color_on(board, square)) {
                (Some(piece), Some(color)) => {
                    line.append("| ");
                    line.append(piece_to_char(piece, color).as_str());
                    line.append(" ");
                    proof {
                        assert("| "@ =~= seq!['|', ' ']);
                        assert(" "@ =~= seq![' ']);
                        assert(line@ =~= rank_text(position_of(*board), l as int, f as int) + (
                        seq!['|', ' '] + symbol_of(piece, color) + seq![' ']));
                    }
                },
                _ => {
                    line.append("|   ");
                    proof {
                        assert("|   "@ =~= seq!['|', ' ', ' ', ' ']);
                    }
                },
            }
            f = f + 1;
        }
        lines.push(line);
        drawn = drawn + 1;
    }
    lines
}

} // verus!
