//! The search engine: depth-limited minimax with alpha-beta pruning, run as a
//! loop that walks a cursor through the tree of explored positions.

use crate::alphabeta::{
    lemma_ordered_moves, next_seed, ordered_moves, shuffled_upto, swapped, Frame, Game, Window,
};
use crate::eval::{eval, is_playable, legal_line, make_moves, play};
use crate::rules::{
    get_hash, legal_moves, legal_moves_of, playable, position_after, position_of, side_of,
    side_to_move, square_name, square_name_of, Color, Move,
};
use crate::tree::{Tree, TreeView};
use crate::walk::{
    all_in_range, ended, frames, lemma_line_to_same, lemma_shaped_ascend, lemma_shaped_descend,
    lemma_valued_ascend, lemma_valued_descend, lemma_walking_cursor, lemma_walking_nodes,
    lemma_walking_start, lemma_walking_update, line_to, node_ok, waiting, walking, window_of,
};
use vstd::prelude::*;
use vstd::string::StringExecFns;

verus! {

/// The search gives up after this many steps and answers with what it has.
pub const ITERATION_CAP: u32 = 1048576;

/// One explored position, a node of the search tree.
#[derive(Debug)]
pub struct Position {
    chess_move: Option<Move>,
    potential_next_moves: Option<Vec<Move>>,
    next_best: Option<usize>,
    alpha: i32,
    beta: i32,
    depth: u8,
}

/// What a node of the search tree holds.
pub struct PositionView {
    /// The move that led here from the parent; the root has none.
    pub chess_move: Option<Move>,
    /// The moves not tried yet, which are taken from the end; nothing
    /// before the first visit.
    pub pending: Option<Seq<Move>>,
    /// The child that gave the node its bound.
    pub best: Option<usize>,
    pub alpha: int,
    pub beta: int,
    /// The distance from the root in plies.
    pub depth: nat,
}

impl View for Position {
    type V = PositionView;

    closed spec fn view(&self) -> PositionView {
        PositionView {
            chess_move: self.chess_move,
            pending: match self.potential_next_moves {
                Some(moves) => Some(moves@),
                None => None,
            },
            best: self.next_best,
            alpha: self.alpha as int,
            beta: self.beta as int,
            depth: self.depth as nat,
        }
    }
}

impl Position {
    /// A node that has not been visited yet.
    pub fn new(chess_move: Option<Move>, alpha: i32, beta: i32, depth: u8) -> (position: Position)
        ensures
            position@ == (PositionView {
                chess_move: chess_move,
                pending: None,
                best: None,
                alpha: alpha as int,
                beta: beta as int,
                depth: depth as nat,
            }),
    {
        Position {
            chess_move: chess_move,
            potential_next_moves: None,
            next_best: None,
            alpha: alpha,
            beta: beta,
            depth: depth,
        }
    }
}

/// The board reached from `initial_board` by a line of legal moves.
pub fn board_from_moves(initial_board: &chess::Board, moves: &Vec<Move>) -> (board: chess::Board)
    requires
        playable(position_of(*initial_board)),
        legal_line(position_of(*initial_board), moves@),
        forall|i: int| 0 <= i < moves@.len() ==> (#[trigger] moves@[i]).in_range(),
    ensures
        position_of(board) == play(position_of(*initial_board), moves@),
        playable(position_of(board)),
{
    make_moves(initial_board, moves)
}

/// The legal moves of a board in the order in which the search tries them,
/// last first: shuffled by the hash of the position, so that the order in
/// which `chess` lists them does not bias the search.
pub fn get_possible_moves(board: &chess::Board) -> (moves: Vec<Move>)
    requires
        playable(position_of(*board)),
    ensures
        moves@ == ordered_moves(position_of(*board)),
        forall|i: int| 0 <= i < moves@.len() ==> (#[trigger] moves@[i]).in_range(),
{
    let mut seed: u64 = get_hash(board);
    let mut legal_moves: Vec<Move> = legal_moves(board);
    let ghost given = legal_moves@;
    let ghost hash = seed;
    let len: usize = legal_moves.len();
    let mut i: usize = 0;
    while i < len
        invariant
            i <= len,
            len == given.len(),
            legal_moves@.len() == len,
            (legal_moves@, seed) == shuffled_upto(given, hash, i as nat),
            forall|k: int| 0 <= k < legal_moves@.len() ==> (#[trigger] legal_moves@[k]).in_range(),
        decreases len - i,
    {
        let mv: Move = legal_moves[i];
        assert(mv.source as int * mv.dest as int <= 65025) by (nonlinear_arith)
            requires
                0 <= mv.source <= 255,
                0 <= mv.dest <= 255,
        ;
        seed = seed.wrapping_add(mv.source as u64 * mv.dest as u64);
        let move_to: usize = (seed % (len as u64)) as usize;
        let other: Move = legal_moves[move_to];
        let ghost before = legal_moves@;
        legal_moves[i] = other;
        legal_moves[move_to] = mv;
        proof {
            assert(seed == next_seed(shuffled_upto(given, hash, i as nat).1, mv));
            assert(legal_moves@ == swapped(before, i as int, seed as int % before.len() as int));
        }
        i = i + 1;
    }
    legal_moves
}


/// A move as text: the names of its two squares with a colon between them.
pub open spec fn move_text(mv: Move) -> Seq<char> {
    square_name_of(mv.source) + seq![':'] + square_name_of(mv.dest)
}

/// A line of moves as text: each move, followed by a comma and a space.
pub open spec fn line_text(moves: Seq<Move>) -> Seq<char>
    decreases moves.len(),
{
    if moves.len() == 0 {
        Seq::<char>::empty()
    } else {
        line_text(moves.drop_last()) + move_text(moves.last()) + seq![',', ' ']
    }
}

/// A move as text, such as `e2:e4`.
pub fn chess_move_to_string(mv: &Move) -> (text: String)
    requires
        mv.source < 64,
        mv.dest < 64,
    ensures
        text@ == move_text(*mv),
{
    let mut text: String = square_name(mv.source);
    proof {
        reveal_strlit(":");
    }
    text.append(":");
    text.append(square_name(mv.dest).as_str());
    proof {
        assert(":"@ == seq![':']);
    }
    text
}

/// A line of moves as text, such as `e2:e4, e7:e5, `.
pub fn moves_to_string(moves: &Vec<Move>) -> (text: String)
    requires
        forall|i: int| 0 <= i < moves@.len() ==> (#[trigger] moves@[i]).source < 64 && moves@[i].dest
            < 64,
    ensures
        text@ == line_text(moves@),
{
    let mut text: String = String::new();
    let mut i: usize = 0;
    while i < moves.len()
        invariant
            i <= moves@.len(),
            forall|i: int|
                0 <= i < moves@.len() ==> (#[trigger] moves@[i]).source < 64 && moves@[i].dest < 64,
            text@ == line_text(moves@.take(i as int)),
        decreases moves@.len() - i,
    {
        proof {
            reveal_strlit(", ");
            assert(", "@ == seq![',', ' ']);
            assert(moves@.take(i as int + 1).drop_last() == moves@.take(i as int));
        }
        text.append(chess_move_to_string(&moves[i]).as_str());
        text.append(", ");
        i = i + 1;
    }
    proof {
        assert(moves@.take(i as int) == moves@);
    }
    text
}

/// A search from one position: the tree of what it has explored, the side
/// that the engine plays, and the position.
pub struct Search {
    tree: Tree<Position>,
    color: Color,
    board: chess::Board,
    pruning: bool,
    shuffling: bool,
    finished: bool,
}

/// What a search holds.
pub struct SearchView {
    /// The position that the search starts from.
    pub root: Seq<u64>,
    /// The side that the engine plays.
    pub side: Color,
    /// Whether the search prunes.
    pub pruning: bool,
    /// Whether the search shuffles the moves of a position.
    pub shuffling: bool,
    /// Whether the last run walked the whole tree before the cap on its steps.
    pub finished: bool,
    /// The principal variation of the last run: the moves along the best
    /// children from the root down.
    pub line: Seq<Move>,
}

impl View for Search {
    type V = SearchView;

    closed spec fn view(&self) -> SearchView {
        SearchView {
            root: position_of(self.board),
            side: self.color,
            pruning: self.pruning,
            shuffling: self.shuffling,
            finished: self.finished,
            line: self.best_line(0),
        }
    }
}

impl Search {
    /// The position that the search starts from.
    pub open spec fn root(&self) -> Seq<u64> {
        self@.root
    }

    /// The side that the engine plays.
    pub open spec fn side(&self) -> Color {
        self@.side
    }

    /// Whether the search prunes.
    pub open spec fn prunes(&self) -> bool {
        self@.pruning
    }

    /// Whether the search shuffles the moves of a position.
    pub open spec fn shuffles(&self) -> bool {
        self@.shuffling
    }

    /// The tree of the positions that the last run has explored, with the
    /// cursor. A run leaves the cursor on the root.
    pub closed spec fn explored(&self) -> TreeView<Position> {
        self.tree@
    }

    /// The tree is well-formed, and the best child of each of its nodes is
    /// one of the children of the node.
    pub closed spec fn wf(&self) -> bool {
        &&& self.tree.wf()
        &&& forall|node: int| 0 <= node < self.tree.len() ==> #[trigger] node_ok(self.tree, self.root(), node)
    }

    /// The moves along the best children from a node down.
    spec fn best_line(&self, node: int) -> Seq<Move>
        decreases self.tree.len() - node,
    {
        match self.tree.data_of(node)@.best {
            Some(best) => {
                let child = self.tree.children_of(node)[best as int] as int;
                if 0 <= node < child < self.tree.len() {
                    match self.tree.data_of(child)@.chess_move {
                        Some(mv) => seq![mv] + self.best_line(child),
                        None => Seq::<Move>::empty(),
                    }
                } else {
                    Seq::<Move>::empty()
                }
            },
            None => Seq::<Move>::empty(),
        }
    }

    /// The principal variation of the last run: the moves along the best
    /// children from the root down.
    pub open spec fn principal_line(&self) -> Seq<Move> {
        self@.line
    }

    /// A search from a position, for the side that the engine plays. It prunes.
    pub fn new(board: &chess::Board, color: Color) -> (search: Search)
        ensures
            search.wf(),
            search@ == (SearchView {
                root: position_of(*board),
                side: color,
                pruning: true,
                shuffling: false,
                finished: false,
                line: Seq::<Move>::empty(),
            }),
            search.explored().cursor == 0,
            search.explored().nodes.len() == 1,
            search.explored().nodes[0].children == Seq::<usize>::empty(),
            search.explored().nodes[0].parent == None::<usize>,
            search.explored().nodes[0].data@ == (PositionView {
                chess_move: None,
                pending: None,
                best: None,
                alpha: i32::MIN as int,
                beta: i32::MAX as int,
                depth: 0,
            }),
    {
        Search {
            tree: Tree::new(Position::new(None, i32::MIN, i32::MAX, 0)),
            color: color,
            board: *board,
            pruning: true,
            shuffling: false,
            finished: false,
        }
    }

    /// On the first visit of the cursor's node, finds the moves of its position.
    fn expand(
        &mut self,
        moves: &Vec<Move>,
        Ghost(game): Ghost<Game>,
        Ghost(path): Ghost<Seq<int>>,
        Ghost(spent): Ghost<nat>,
    )
        requires
            walking(old(self).tree, old(self).root(), game, moves@, path, spent),
            playable(old(self).root()),
            old(self).shuffling == game.shuffling,
            old(self).tree.data_of(old(self).tree.cursor())@.depth < game.max_depth,
        ensures
            walking(final(self).tree, final(self).root(), game, moves@, path, spent),
            final(self).root() == old(self).root(),
            final(self).pruning == old(self).pruning,
            final(self).shuffling == old(self).shuffling,
            final(self).color == old(self).color,
            final(self).tree.data_of(final(self).tree.cursor())@.pending is Some,
            final(self).tree.len() == old(self).tree.len(),
            final(self).tree.cursor() == old(self).tree.cursor(),
            final(self).tree.children_of(0) == old(self).tree.children_of(0),
            final(self).tree.children_of(final(self).tree.cursor()) == old(self).tree.children_of(
                old(self).tree.cursor(),
            ),
            final(self).tree.data_of(final(self).tree.cursor())@.alpha == old(self).tree.data_of(
                old(self).tree.cursor(),
            )@.alpha,
            final(self).tree.data_of(final(self).tree.cursor())@.beta == old(self).tree.data_of(
                old(self).tree.cursor(),
            )@.beta,
            frames(final(self).tree, final(self).root(), moves@, path) == frames(
                old(self).tree,
                old(self).root(),
                moves@,
                path,
            ).update(
                path.len() - 1,
                game.visited(
                    frames(old(self).tree, old(self).root(), moves@, path)[path.len() - 1],
                    (path.len() - 1) as nat,
                ),
            ),
    {
        proof {
            lemma_walking_cursor(self.tree, self.root(), game, moves@, path);
        }
        if self.tree.data().potential_next_moves.is_none() {
            let board: chess::Board = board_from_moves(&self.board, moves);
            let possible: Vec<Move> = if self.shuffling {
                get_possible_moves(&board)
            } else {
                legal_moves(&board)
            };
            let data = self.tree.data_mut();
            data.potential_next_moves = Some(possible);
            proof {
                let last = path.len() - 1;
                let moves_here = game.moves(play(self.root(), moves@.take(last)));
                assert(moves_here.take(moves_here.len() as int) == moves_here);
                lemma_walking_update(old(self).tree, self.tree, self.root(), game, moves@, path, spent);
            }
        } else {
            proof {
                let given = frames(self.tree, self.root(), moves@, path);
                assert(given.update(path.len() - 1, given[path.len() - 1]) == given);
            }
        }
    }

    /// The depth of the cursor's node, corrected so that it is even where
    /// White is to move.
    fn corrected_depth(&self, depth_correction: u8) -> (corrected: u16)
        requires
            self.tree.wf(),
            depth_correction <= 1,
        ensures
            corrected == self.tree.data_of(self.tree.cursor())@.depth + depth_correction,
    {
        self.tree.data().depth as u16 + depth_correction as u16
    }

    /// Gives the cursor's node the score of its position as both its bounds.
    /// This is for a node at the horizon and for one whose position has no
    /// legal move.
    fn settle(
        &mut self,
        moves: &Vec<Move>,
        Ghost(game): Ghost<Game>,
        Ghost(path): Ghost<Seq<int>>,
        Ghost(spent): Ghost<nat>,
    )
        requires
            walking(old(self).tree, old(self).root(), game, moves@, path, spent),
            playable(old(self).root()),
            ({
                let data = old(self).tree.data_of(old(self).tree.cursor())@;
                data.depth >= game.max_depth || ((data.pending matches Some(pending)
                    && pending.len() == 0) && old(self).tree.children_of(
                    old(self).tree.cursor(),
                ).len() == 0 && !(game.pruning && data.alpha >= data.beta))
            }),
        ensures
            walking(final(self).tree, final(self).root(), game, moves@, path, spent),
            ended(final(self).tree, final(self).root(), game, moves@, path),
            final(self).root() == old(self).root(),
            final(self).pruning == old(self).pruning,
            final(self).shuffling == old(self).shuffling,
            final(self).color == old(self).color,
            final(self).tree.len() == old(self).tree.len(),
            final(self).tree.children_of(0) == old(self).tree.children_of(0),
            frames(final(self).tree, final(self).root(), moves@, path) == frames(
                old(self).tree,
                old(self).root(),
                moves@,
                path,
            ).update(
                path.len() - 1,
                game.closed(
                    frames(old(self).tree, old(self).root(), moves@, path)[path.len() - 1],
                    (path.len() - 1) as nat,
                ),
            ),
    {
        proof {
            lemma_walking_cursor(self.tree, self.root(), game, moves@, path);
            game.lemma_moves(play(self.root(), moves@));
        }
        let score: i32 = eval(&self.board, moves);
        let data = self.tree.data_mut();
        data.alpha = score;
        data.beta = score;
        proof {
            lemma_walking_update(old(self).tree, self.tree, self.root(), game, moves@, path, spent);
        }
    }

    /// Moves the cursor to the parent, if there is one, and takes the last
    /// move off the line.
    fn move_up(&mut self, moves: &mut Vec<Move>) -> (moved: bool)
        requires
            old(self).tree.wf(),
        ensures
            final(self).tree.wf(),
            final(self).tree.same_nodes(old(self).tree),
            final(self).board == old(self).board,
            final(self).pruning == old(self).pruning,
            final(self).shuffling == old(self).shuffling,
            final(self).color == old(self).color,
            moved == (old(self).tree.cursor() != 0),
            moved ==> Some(final(self).tree.cursor() as usize) == old(self).tree.parent_of(
                old(self).tree.cursor(),
            ),
            moved && old(moves)@.len() > 0 ==> final(moves)@ == old(moves)@.drop_last(),
            !moved ==> *final(self) == *old(self) && final(moves)@ == old(moves)@,
    {
        if self.tree.has_parent() {
            self.tree.goto_parent();
            moves.pop();
            true
        } else {
            false
        }
    }

    /// Takes the score of the youngest child into the window of the cursor's
    /// node: where White moves at the node a greater score raises alpha,
    /// where Black moves a lesser one lowers beta, and the child is then the
    /// best of the node.
    fn absorb(&mut self, score: i32, maximizing: bool, Ghost(game): Ghost<Game>)
        requires
            old(self).tree.wf(),
            old(self).tree.children_of(old(self).tree.cursor()).len() > 0,
            maximizing == game.maximizing(old(self).tree.data_of(old(self).tree.cursor())@.depth),
        ensures
            final(self).tree.wf(),
            final(self).tree.same_shape(old(self).tree),
            final(self).board == old(self).board,
            final(self).pruning == old(self).pruning,
            final(self).shuffling == old(self).shuffling,
            final(self).color == old(self).color,
            forall|node: int|
                0 <= node < old(self).tree.len() && node != old(self).tree.cursor()
                    ==> final(self).tree.data_of(node) == old(self).tree.data_of(node),
            ({
                let before = old(self).tree.data_of(old(self).tree.cursor())@;
                let after = final(self).tree.data_of(old(self).tree.cursor())@;
                &&& after.chess_move == before.chess_move
                &&& after.depth == before.depth
                &&& after.pending == before.pending
                &&& window_of(after) == game.absorb(
                    before.depth,
                    window_of(before),
                    score as int,
                    (old(self).tree.children_of(old(self).tree.cursor()).len() - 1) as nat,
                )
            }),
    {
        let child: usize = self.tree.child_count() - 1;
        let data = self.tree.data_mut();
        if maximizing {
            if score > data.alpha {
                data.alpha = score;
                data.next_best = Some(child);
            }
        } else {
            if score < data.beta {
                data.beta = score;
                data.next_best = Some(child);
            }
        }
    }

    /// Ends the visit of the cursor's node, which has ended: the cursor goes
    /// up and the parent takes the score of the node in. At the root
    /// nothing happens.
    fn ascend(
        &mut self,
        moves: &mut Vec<Move>,
        depth_correction: u8,
        Ghost(game): Ghost<Game>,
        Ghost(path): Ghost<Seq<int>>,
        Ghost(spent): Ghost<nat>,
    ) -> (moved: bool)
        requires
            walking(old(self).tree, old(self).root(), game, old(moves)@, path, spent),
            ended(old(self).tree, old(self).root(), game, old(moves)@, path),
            depth_correction == game.correction,
            depth_correction <= 1,
        ensures
            final(self).root() == old(self).root(),
            final(self).pruning == old(self).pruning,
            final(self).shuffling == old(self).shuffling,
            final(self).tree.len() == old(self).tree.len(),
            final(self).tree.children_of(0) == old(self).tree.children_of(0),
            final(self).color == old(self).color,
            moved == (path.len() >= 2),
            moved ==> final(moves)@ == old(moves)@.drop_last() && walking(
                final(self).tree,
                final(self).root(),
                game,
                final(moves)@,
                path.drop_last(),
                spent + 1,
            ),
            moved ==> frames(
                final(self).tree,
                final(self).root(),
                final(moves)@,
                path.drop_last(),
            ) == game.risen(frames(old(self).tree, old(self).root(), old(moves)@, path)),
            !moved ==> *final(self) == *old(self) && final(moves)@ == old(moves)@,
    {
        proof {
            lemma_walking_cursor(self.tree, self.root(), game, moves@, path);
        }
        let score: i32 = if self.corrected_depth(depth_correction) % 2 == 0 {
            self.tree.data().alpha
        } else {
            self.tree.data().beta
        };
        if self.move_up(moves) {
            proof {
                self.tree.lemma_wf();
                assert(self.tree.cursor() == path[path.len() - 2]);
            }
            let maximizing: bool = self.corrected_depth(depth_correction) % 2 == 0;
            self.absorb(score, maximizing, Ghost(game));
            proof {
                lemma_shaped_ascend(
                    old(self).tree,
                    self.tree,
                    self.root(),
                    game,
                    old(moves)@,
                    path,
                );
                lemma_valued_ascend(
                    old(self).tree,
                    self.tree,
                    self.root(),
                    game,
                    old(moves)@,
                    path,
                    spent,
                );
            }
            true
        } else {
            false
        }
    }

    /// Takes the last of the moves that wait at the cursor's node.
    fn take_move(&mut self) -> (mv: Move)
        requires
            old(self).tree.wf(),
            old(self).tree.data_of(old(self).tree.cursor())@.pending matches Some(pending)
                && pending.len() > 0,
        ensures
            final(self).tree.wf(),
            final(self).tree.same_shape(old(self).tree),
            final(self).board == old(self).board,
            final(self).pruning == old(self).pruning,
            final(self).shuffling == old(self).shuffling,
            final(self).color == old(self).color,
            forall|node: int|
                0 <= node < old(self).tree.len() && node != old(self).tree.cursor()
                    ==> final(self).tree.data_of(node) == old(self).tree.data_of(node),
            mv == old(self).tree.data_of(old(self).tree.cursor())@.pending->0.last(),
            final(self).tree.data_of(old(self).tree.cursor())@ == (PositionView {
                pending: Some(
                    old(self).tree.data_of(old(self).tree.cursor())@.pending->0.drop_last(),
                ),
                ..old(self).tree.data_of(old(self).tree.cursor())@
            }),
    {
        let data = self.tree.data_mut();
        let ghost pending = data@.pending->0;
        let next_move: Option<Move> = match &mut data.potential_next_moves {
            Some(pending) => pending.pop(),
            None => None,
        };
        proof {
            assert(pending.subrange(0, pending.len() - 1) == pending.drop_last());
        }
        match next_move {
            Some(mv) => mv,
            None => Move { source: 0, dest: 0, promotion: None },
        }
    }

    /// Takes the last waiting move of the cursor's node, gives the node a
    /// child for it and moves the cursor there.
    fn descend(
        &mut self,
        moves: &mut Vec<Move>,
        Ghost(game): Ghost<Game>,
        Ghost(path): Ghost<Seq<int>>,
        Ghost(spent): Ghost<nat>,
    )
        requires
            walking(old(self).tree, old(self).root(), game, old(moves)@, path, spent),
            old(self).tree.len() < usize::MAX,
            game.max_depth <= 255,
            ({
                let data = old(self).tree.data_of(old(self).tree.cursor())@;
                data.depth < game.max_depth && !(game.pruning && data.alpha >= data.beta) && (
                data.pending matches Some(pending) && pending.len() > 0)
            }),
        ensures
            final(self).root() == old(self).root(),
            final(self).pruning == old(self).pruning,
            final(self).shuffling == old(self).shuffling,
            final(self).color == old(self).color,
            final(self).tree.len() == old(self).tree.len() + 1,
            final(self).tree.children_of(0).len() >= 1,
            final(moves)@.len() == old(moves)@.len() + 1,
            walking(
                final(self).tree,
                final(self).root(),
                game,
                final(moves)@,
                path.push(old(self).tree.len()),
                spent + 1,
            ),
            frames(
                final(self).tree,
                final(self).root(),
                final(moves)@,
                path.push(old(self).tree.len()),
            ) == game.step(frames(old(self).tree, old(self).root(), old(moves)@, path)),
    {
        proof {
            lemma_walking_cursor(self.tree, self.root(), game, moves@, path);
        }
        let mv: Move = self.take_move();
        let alpha: i32 = self.tree.data().alpha;
        let beta: i32 = self.tree.data().beta;
        let depth: u8 = self.tree.data().depth + 1;
        self.tree.add_child(Position::new(Some(mv), alpha, beta, depth));
        self.tree.goto_last_child();
        moves.push(mv);
        proof {
            lemma_shaped_descend(
                old(self).tree,
                self.tree,
                self.root(),
                game,
                old(moves)@,
                path,
                mv,
            );
            lemma_valued_descend(
                old(self).tree,
                self.tree,
                self.root(),
                game,
                old(moves)@,
                path,
                mv,
                spent,
            );
            let first = self.tree.children_of(0);
            if old(self).tree.cursor() == 0 {
                assert(first.len() >= 1);
            }
        }
    }

    /// The principal variation of the last run: the move that the run has
    /// found best, the reply that it has found best for the other side, and
    /// so on as far as the search has looked.
    pub fn principal_variation(&mut self) -> (line: Vec<Move>)
        requires
            old(self).wf(),
        ensures
            final(self).wf(),
            line@ == old(self).principal_line(),
            legal_line(old(self).root(), line@),
            forall|i: int| 0 <= i < line@.len() ==> (#[trigger] line@[i]).in_range(),
            final(self)@ == old(self)@,
    {
        let ghost given = *self;
        proof {
            self.tree.lemma_wf();
        }
        while self.tree.has_parent()
            invariant
                self.tree.wf(),
                self.tree.same_nodes(given.tree),
                0 <= self.tree.cursor(),
                self.board == given.board,
                self.color == given.color,
                self.pruning == given.pruning,
                self.shuffling == given.shuffling,
                self.finished == given.finished,
            decreases self.tree.cursor(),
        {
            self.tree.goto_parent();
            proof {
                self.tree.lemma_wf();
            }
        }
        let mut line: Vec<Move> = Vec::new();
        proof {
            lemma_best_line_same(given, *self, 0);
        }
        loop
            invariant
                self.tree.wf(),
                given.wf(),
                self.tree.same_nodes(given.tree),
                0 <= self.tree.cursor() < self.tree.len(),
                self.board == given.board,
                self.color == given.color,
                self.pruning == given.pruning,
                self.shuffling == given.shuffling,
                self.finished == given.finished,
                line@ + self.best_line(self.tree.cursor()) == given.principal_line(),
            ensures
                line@ == given.principal_line(),
            decreases self.tree.len() - self.tree.cursor(),
        {
            let ghost node = self.tree.cursor();
            proof {
                assert(node_ok(given.tree, given.root(), node));
                self.tree.lemma_wf();
            }
            match self.tree.data().next_best {
                Some(best) => {
                    let ghost above = *self;
                    self.tree.goto_child(best);
                    proof {
                        self.tree.lemma_wf();
                        assert(node_ok(given.tree, given.root(), self.tree.cursor()));
                        lemma_best_line_same(above, *self, self.tree.cursor());
                    }
                    match self.tree.data().chess_move {
                        Some(mv) => {
                            let ghost shorter = line@;
                            line.push(mv);
                            proof {
                                assert(line@ + self.best_line(self.tree.cursor()) == shorter + (
                                seq![mv] + self.best_line(self.tree.cursor())));
                            }
                        },
                        None => {},
                    }
                },
                None => {
                    proof {
                        assert(line@ + Seq::<Move>::empty() == line@);
                    }
                    break ;
                },
            }
        }
        while self.tree.has_parent()
            invariant
                self.tree.wf(),
                self.tree.same_nodes(given.tree),
                0 <= self.tree.cursor(),
                self.board == given.board,
                self.color == given.color,
                self.pruning == given.pruning,
                self.shuffling == given.shuffling,
                self.finished == given.finished,
            decreases self.tree.cursor(),
        {
            self.tree.goto_parent();
            proof {
                self.tree.lemma_wf();
            }
        }
        proof {
            lemma_best_line_same(given, *self, 0);
            assert forall|node: int| 0 <= node < self.tree.len() implies #[trigger] node_ok(
                self.tree,
                self.root(),
                node,
            ) by {
                assert(node_ok(given.tree, given.root(), node));
                lemma_line_to_same(given.tree, self.tree, node);
            }
            given.tree.lemma_wf();
            lemma_best_line_legal(given, 0);
            assert(line_to(given.tree, 0) == Seq::<Move>::empty());
            assert(line_to(given.tree, 0) + given.best_line(0) == given.best_line(0));
            assert(all_in_range(line@));
        }
        line
    }

    /// The game that a search to a depth plays: White maximizes, and the
    /// side to move at the root decides who moves at the even depths.
    pub open spec fn game(&self, max_depth: u8) -> Game {
        Game {
            max_depth: max_depth as nat,
            correction: match side_of(self.root()) {
                Color::White => 0,
                Color::Black => 1,
            },
            pruning: self.prunes(),
            shuffling: self.shuffles(),
        }
    }

    /// Whether the last run walked the whole tree before the cap on its steps.
    pub fn finished(&self) -> (finished: bool)
        ensures
            finished == self.has_finished(),
    {
        self.finished
    }

    /// Whether the last run walked the whole tree before the cap on its steps.
    pub open spec fn has_finished(&self) -> bool {
        self@.finished
    }

    /// Turns the shuffling of moves on or off. It changes the order in which
    /// the moves of a position are tried, and with it which of several moves
    /// of equal score is chosen.
    pub fn set_shuffling(&mut self, shuffling: bool)
        requires
            old(self).wf(),
        ensures
            final(self).wf(),
            final(self)@ == (SearchView { shuffling: shuffling, ..old(self)@ }),
    {
        self.shuffling = shuffling;
        proof {
            lemma_best_line_same(*old(self), *self, 0);
            assert forall|node: int| 0 <= node < self.tree.len() implies #[trigger] node_ok(
                self.tree,
                self.root(),
                node,
            ) by {
                assert(node_ok(old(self).tree, old(self).root(), node));
            }
        }
    }

    /// Turns pruning on or off. Without pruning the search visits every node
    /// down to the horizon.
    pub fn set_pruning(&mut self, pruning: bool)
        requires
            old(self).wf(),
        ensures
            final(self).wf(),
            final(self)@ == (SearchView { pruning: pruning, ..old(self)@ }),
    {
        self.pruning = pruning;
        proof {
            lemma_best_line_same(*old(self), *self, 0);
            assert forall|node: int| 0 <= node < self.tree.len() implies #[trigger] node_ok(
                self.tree,
                self.root(),
                node,
            ) by {
                assert(node_ok(old(self).tree, old(self).root(), node));
            }
        }
    }

    /// Searches to the given depth (see [`Search::run`]), or returns nothing
    /// where there is nothing to search: at depth 0, from a position that
    /// is not playable, and from one without a legal move.
    pub fn find_move(&mut self, max_depth: u8) -> (best: Option<Move>)
        requires
            old(self).wf(),
        ensures
            final(self).wf(),
            final(self).root() == old(self).root(),
            final(self).side() == old(self).side(),
            final(self).prunes() == old(self).prunes(),
            final(self).shuffles() == old(self).shuffles(),
            best is Some <==> max_depth >= 1 && playable(old(self).root()) && legal_moves_of(
                old(self).root(),
            ).len() > 0,
            best is None ==> final(self)@ == old(self)@,
            best matches Some(mv) ==> legal_moves_of(old(self).root()).contains(mv),
            best is Some ==> (final(self).has_finished() <==> old(self).game(max_depth).steps(
                old(self).root(),
            ) <= ITERATION_CAP),
            best is Some ==> best->0 == old(self).game(max_depth).capped_move(
                old(self).root(),
                ITERATION_CAP as nat,
            ),
            best is Some && final(self).has_finished()
                ==> best->0 == old(self).game(max_depth).best_move(old(self).root()),
            best is Some && final(self).principal_line().len() > 0
                ==> final(self).principal_line()[0] == best->0,
            best is Some && final(self).has_finished() ==> final(self).principal_line().len() >= 1,
    {
        if max_depth == 0 || !is_playable(&self.board) {
            return None;
        }
        if legal_moves(&self.board).len() == 0 {
            return None;
        }
        Some(self.run(max_depth))
    }

    /// Searches to the given depth and returns the best move for the side to
    /// move. The tree of the run before is dropped first.
    ///
    /// The move is always a legal one: the one that led to the child of the
    /// root that is best when the search stops. The search finishes if the
    /// steps that it needs are within the cap, and the move is then the one
    /// that minimax with the alpha-beta window chooses: it leads to a
    /// position that has the minimax score of the root.
    pub fn run(&mut self, max_depth: u8) -> (best: Move)
        requires
            max_depth >= 1,
            playable(old(self).root()),
            legal_moves_of(old(self).root()).len() > 0,
        ensures
            final(self).wf(),
            final(self).root() == old(self).root(),
            final(self).side() == old(self).side(),
            final(self).prunes() == old(self).prunes(),
            final(self).shuffles() == old(self).shuffles(),
            legal_moves_of(old(self).root()).contains(best),
            best == old(self).game(max_depth).capped_move(old(self).root(), ITERATION_CAP as nat),
            final(self).has_finished() <==> old(self).game(max_depth).steps(old(self).root())
                <= ITERATION_CAP,
            final(self).has_finished() ==> best == old(self).game(max_depth).best_move(
                old(self).root(),
            ),
            final(self).has_finished() ==> old(self).game(max_depth).plain().minimax(
                position_after(old(self).root(), best),
                1,
            ) == old(self).game(max_depth).plain().minimax(old(self).root(), 0),
            final(self).principal_line().len() > 0 ==> final(self).principal_line()[0] == best,
            final(self).has_finished() ==> final(self).principal_line().len() >= 1,
            final(self).explored().cursor == 0,
    {
        let ghost game = self.game(max_depth);
        let ghost root = self.root();
        self.tree = Tree::new(Position::new(None, i32::MIN, i32::MAX, 0));
        let depth_correction: u8 = match side_to_move(&self.board) {
            Color::White => 0,
            Color::Black => 1,
        };
        let mut moves: Vec<Move> = Vec::new();
        let mut finished: bool = false;
        let ghost mut path: Seq<int> = seq![0int];
        let mut i: u32 = 0;
        proof {
            game.lemma_moves(root);
            lemma_walking_start(self.tree, root, game);
        }
        loop
            invariant_except_break
                !finished,
                walking(self.tree, root, game, moves@, path, i as nat),
                frames(self.tree, root, moves@, path) == game.after_steps(root, i as nat),
            invariant
                max_depth >= 1,
                game == old(self).game(max_depth),
                game.max_depth == max_depth,
                root == old(self).root(),
                self.root() == root,
                playable(root),
                self.color == old(self).color,
                self.pruning == game.pruning,
                self.shuffling == game.shuffling,
                depth_correction == game.correction,
                depth_correction <= 1,
                game.moves(root).len() > 0,
                i <= ITERATION_CAP,
                self.tree.len() <= i + 1,
                i == 0 ==> path.len() == 1 && self.tree.data_of(0)@.pending is None
                    && self.tree.data_of(0)@.alpha < self.tree.data_of(0)@.beta
                    && self.tree.children_of(0).len() == 0,
                i > 0 ==> self.tree.children_of(0).len() >= 1,
            ensures
                i > 0,
                finished ==> path.len() == 1 && ended(self.tree, root, game, moves@, path)
                    && walking(self.tree, root, game, moves@, path, (i - 1) as nat),
                !finished ==> i == ITERATION_CAP && walking(
                    self.tree,
                    root,
                    game,
                    moves@,
                    path,
                    i as nat,
                ),
                frames(self.tree, root, moves@, path) == game.after_steps(root, i as nat),
                finished ==> game.over(frames(self.tree, root, moves@, path)),
            decreases ITERATION_CAP - i,
        {
            if i >= ITERATION_CAP {
                break ;
            }
            let ghost spent = i as nat;
            let ghost head = frames(self.tree, root, moves@, path);
            let ghost last = path.len() - 1;
            i = i + 1;
            proof {
                lemma_walking_cursor(self.tree, root, game, moves@, path);
                assert(head.last().pending is None ==> head.last().children == 0);
            }
            let done: bool;
            if self.tree.data().depth < max_depth {
                self.expand(&moves, Ghost(game), Ghost(path), Ghost(spent));
                let ghost found = frames(self.tree, root, moves@, path);
                proof {
                    lemma_walking_cursor(self.tree, root, game, moves@, path);
                    game.lemma_step_visited(head);
                }
                let alpha: i32 = self.tree.data().alpha;
                let beta: i32 = self.tree.data().beta;
                if self.pruning && alpha >= beta {
                    proof {
                        assert(found == head.update(last, game.closed(head.last(), last as nat)));
                    }
                    done = true;
                } else {
                    let waiting_moves: usize = match &self.tree.data().potential_next_moves {
                        Some(pending) => pending.len(),
                        None => 0,
                    };
                    if waiting_moves > 0 {
                        self.descend(&mut moves, Ghost(game), Ghost(path), Ghost(spent));
                        proof {
                            path = path.push(self.tree.len() - 1);
                        }
                        done = false;
                    } else {
                        if self.tree.has_no_child() {
                            self.settle(&moves, Ghost(game), Ghost(path), Ghost(spent));
                            proof {
                                assert(game.closed(found.last(), last as nat) == game.closed(
                                    head.last(),
                                    last as nat,
                                ));
                            }
                        } else {
                            proof {
                                assert(found == head.update(
                                    last,
                                    game.closed(head.last(), last as nat),
                                ));
                            }
                        }
                        done = true;
                    }
                }
            } else {
                self.settle(&moves, Ghost(game), Ghost(path), Ghost(spent));
                done = true;
            }
            if done {
                let ghost left = frames(self.tree, root, moves@, path);
                proof {
                    assert(left == head.update(last, game.closed(head.last(), last as nat)));
                    game.lemma_step_up(head, left);
                }
                let moved: bool = self.ascend(
                    &mut moves,
                    depth_correction,
                    Ghost(game),
                    Ghost(path),
                    Ghost(spent),
                );
                if moved {
                    proof {
                        path = path.drop_last();
                    }
                } else {
                    finished = true;
                    break ;
                }
            }
        }
        self.finished = finished;
        let ghost walked = self.tree;
        proof {
            game.lemma_moves(root);
            game.lemma_best_move_is_best(root);
            if finished {
                game.lemma_over_stays(root, i as nat, ITERATION_CAP as nat);
            }
            assert(frames(walked, root, moves@, path) == game.after_steps(
                root,
                ITERATION_CAP as nat,
            ));
            let spent = if finished {
                (i - 1) as nat
            } else {
                i as nat
            };
            lemma_walking_cursor(walked, root, game, moves@, path);
            lemma_walking_nodes(walked, root, game, moves@, path, spent);
            assert(node_ok(walked, root, 0));
            assert(frames(walked, root, moves@, path)[0].window == window_of(
                walked.data_of(0)@,
            ));
        }
        while self.tree.has_parent()
            invariant
                self.tree.wf(),
                self.tree.same_nodes(walked),
                0 <= self.tree.cursor(),
                self.root() == root,
                self.color == old(self).color,
                self.pruning == old(self).pruning,
                self.shuffling == old(self).shuffling,
                self.finished == finished,
            decreases self.tree.cursor(),
        {
            self.tree.goto_parent();
            proof {
                self.tree.lemma_wf();
            }
        }
        let child: usize = match self.tree.data().next_best {
            Some(best) => best,
            None => 0,
        };
        self.tree.goto_child(child);
        proof {
            self.tree.lemma_wf();
            let moves = game.moves(root);
            assert(walked.children_of(0)[child as int] == self.tree.cursor());
            assert(moves.contains(moves[moves.len() - 1 - child]));
        }
        let best: Move = self.tree.data().chess_move.unwrap();
        self.tree.goto_parent();
        proof {
            assert forall|node: int| 0 <= node < self.tree.len() implies #[trigger] node_ok(
                self.tree,
                self.root(),
                node,
            ) by {
                assert(node_ok(walked, root, node));
                lemma_line_to_same(walked, self.tree, node);
            }
        }
        best
    }
}

/// The moves along the best children depend on the nodes alone, not on
/// where the cursor is.
proof fn lemma_best_line_same(one: Search, other: Search, node: int)
    requires
        one.tree.same_nodes(other.tree),
    ensures
        one.best_line(node) == other.best_line(node),
    decreases one.tree.len() - node,
{
    match one.tree.data_of(node)@.best {
        Some(best) => {
            let child = one.tree.children_of(node)[best as int] as int;
            if 0 <= node < child < one.tree.len() {
                lemma_best_line_same(one, other, child);
            }
        },
        None => {},
    }
}

/// The moves that lead from the root to a node, followed by the moves along
/// the best children from that node down, can be played.
proof fn lemma_best_line_legal(search: Search, node: int)
    requires
        search.wf(),
        0 <= node < search.tree.len(),
    ensures
        legal_line(search.root(), line_to(search.tree, node) + search.best_line(node)),
        all_in_range(line_to(search.tree, node) + search.best_line(node)),
    decreases search.tree.len() - node,
{
    let above = line_to(search.tree, node);
    assert(node_ok(search.tree, search.root(), node));
    search.tree.lemma_wf();
    match search.tree.data_of(node)@.best {
        Some(best) => {
            let child = search.tree.children_of(node)[best as int] as int;
            assert(node < child < search.tree.len());
            assert(node_ok(search.tree, search.root(), child));
            let mv = search.tree.data_of(child)@.chess_move->0;
            lemma_best_line_legal(search, child);
            assert(line_to(search.tree, child) == above.push(mv));
            assert(above + (seq![mv] + search.best_line(child)) == above.push(mv)
                + search.best_line(child));
        },
        None => {
            assert(above + Seq::<Move>::empty() == above);
        },
    }
}

} // verus!
