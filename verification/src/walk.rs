//! What holds while the search walks its tree: the shape of the tree and of
//! the way from the root to the cursor, and what the search is worth from
//! where it stands, with the steps that keep both.

use crate::alphabeta::{Frame, Game, Window};
use crate::eval::{legal_line, play};
use crate::rules::{position_after, Move};
use crate::search::{Position, PositionView};
use crate::tree::Tree;
use vstd::prelude::*;

verus! {

/// Every move names squares of the board.
pub(crate) open spec fn all_in_range(moves: Seq<Move>) -> bool {
    forall|i: int| 0 <= i < moves.len() ==> (#[trigger] moves[i]).in_range()
}

/// The window that a node holds.
pub(crate) open spec fn window_of(data: PositionView) -> Window {
    Window {
        alpha: data.alpha,
        beta: data.beta,
        best: match data.best {
            Some(best) => Some(best as nat),
            None => None,
        },
    }
}

/// The `j`-th node on the way from the root to the cursor, as a frame.
pub(crate) open spec fn frame_at(
    tree: Tree<Position>,
    root: Seq<u64>,
    line: Seq<Move>,
    path: Seq<int>,
    j: int,
) -> Frame {
    let data = tree.data_of(path[j])@;
    Frame {
        position: play(root, line.take(j)),
        pending: data.pending,
        children: tree.children_of(path[j]).len(),
        window: window_of(data),
    }
}

/// The nodes on the way from the root to the cursor, as frames.
pub(crate) open spec fn frames(tree: Tree<Position>, root: Seq<u64>, line: Seq<Move>, path: Seq<int>) -> Seq<
    Frame,
> {
    Seq::new(path.len(), |j: int| frame_at(tree, root, line, path, j))
}

/// The `j`-th node of the path is a node of the tree at depth `j`.
pub(crate) open spec fn on_path(tree: Tree<Position>, path: Seq<int>, j: int, game: Game) -> bool {
    &&& 0 <= path[j] < tree.len()
    &&& tree.data_of(path[j])@.depth == j
    &&& j <= game.max_depth
}

/// The `j`-th node of the path is the youngest child of the one before it and
/// was reached by the `j`-th move of the line.
pub(crate) open spec fn linked(tree: Tree<Position>, line: Seq<Move>, path: Seq<int>, j: int) -> bool {
    &&& tree.parent_of(path[j]) == Some(path[j - 1] as usize)
    &&& tree.children_of(path[j - 1]).len() > 0
    &&& tree.children_of(path[j - 1]).last() == path[j]
    &&& tree.data_of(path[j])@.chess_move == Some(line[j - 1])
}

/// The moves that wait at the `j`-th node of the path are those that its
/// children have left: a node above the cursor has tried at least one, the
/// one that the line goes on with, and the cursor may be on a node that was
/// never visited.
pub(crate) open spec fn waiting(
    tree: Tree<Position>,
    root: Seq<u64>,
    line: Seq<Move>,
    path: Seq<int>,
    j: int,
    game: Game,
) -> bool {
    let data = tree.data_of(path[j])@;
    let moves = game.moves(play(root, line.take(j)));
    let children = tree.children_of(path[j]).len() as int;
    if j < path.len() - 1 {
        &&& j < game.max_depth
        &&& 1 <= children <= moves.len()
        &&& all_in_range(moves)
        &&& data.pending == Some(moves.take(moves.len() - children))
        &&& line[j] == moves[moves.len() - children]
    } else {
        match data.pending {
            None => children == 0,
            Some(pending) => {
                &&& j < game.max_depth
                &&& children <= moves.len()
                &&& all_in_range(moves)
                &&& pending == moves.take(moves.len() - children)
            },
        }
    }
}

/// The moves that lead from the root to a node.
pub(crate) open spec fn line_to(tree: Tree<Position>, node: int) -> Seq<Move>
    decreases node,
{
    match tree.parent_of(node) {
        Some(parent) if 0 < node && parent < node => match tree.data_of(node)@.chess_move {
            Some(mv) => line_to(tree, parent as int).push(mv),
            None => line_to(tree, parent as int),
        },
        _ => Seq::<Move>::empty(),
    }
}

/// The best child of a node is one of its children, every node but the
/// root knows the move that led to it, and the moves that lead from the root
/// to the node can be played.
pub(crate) open spec fn node_ok(tree: Tree<Position>, root: Seq<u64>, node: int) -> bool {
    &&& tree.data_of(node)@.best matches Some(best) ==> best < tree.children_of(node).len()
    &&& node >= 1 ==> tree.data_of(node)@.chess_move is Some
    &&& legal_line(root, line_to(tree, node))
    &&& all_in_range(line_to(tree, node))
}

/// The moves that lead from the root to the `j`-th node of the path are the
/// first `j` moves of the line.
pub(crate) open spec fn follows(tree: Tree<Position>, line: Seq<Move>, path: Seq<int>, j: int) -> bool {
    line_to(tree, path[j]) == line.take(j)
}

/// The moves that lead to a node depend on the parents and the moves of the
/// nodes alone.
pub(crate) proof fn lemma_line_to_same(before: Tree<Position>, after: Tree<Position>, node: int)
    requires
        0 <= node < before.len(),
        forall|other: int|
            0 <= other < before.len() ==> after.parent_of(other) == before.parent_of(other)
                && after.data_of(other)@.chess_move == before.data_of(other)@.chess_move,
    ensures
        line_to(after, node) == line_to(before, node),
    decreases node,
{
    match before.parent_of(node) {
        Some(parent) => {
            if 0 < node && parent < node {
                lemma_line_to_same(before, after, parent as int);
            }
        },
        None => {},
    }
}

/// The children of the root were reached by the moves of the root, in the
/// order in which the search takes them.
pub(crate) open spec fn root_children_ok(tree: Tree<Position>, root: Seq<u64>, game: Game) -> bool {
    let moves = game.moves(root);
    forall|child: int|
        0 <= child < tree.children_of(0).len() ==> child < moves.len() && tree.data_of(
            (#[trigger] tree.children_of(0)[child]) as int,
        )@.chess_move == Some(moves[moves.len() - 1 - child])
}

/// The shape of the walk: `line` holds the moves from the root to the cursor
/// and `path` the nodes that they lead through, each node on the path holds
/// the moves that its children have left, and the children of every node are
/// in keeping with its best child.
#[verifier::opaque]
pub(crate) open spec fn shaped(
    tree: Tree<Position>,
    root: Seq<u64>,
    game: Game,
    line: Seq<Move>,
    path: Seq<int>,
) -> bool {
    &&& tree.wf()
    &&& path.len() == line.len() + 1
    &&& path[0] == 0
    &&& path.last() == tree.cursor()
    &&& legal_line(root, line)
    &&& all_in_range(line)
    &&& forall|i: int, j: int| 0 <= i < j < path.len() ==> path[i] < path[j]
    &&& forall|j: int| 0 <= j < path.len() ==> #[trigger] on_path(tree, path, j, game)
    &&& forall|j: int| 1 <= j < path.len() ==> #[trigger] linked(tree, line, path, j)
    &&& forall|j: int| 0 <= j < path.len() ==> #[trigger] waiting(tree, root, line, path, j, game)
    &&& forall|node: int| 0 <= node < tree.len() ==> #[trigger] node_ok(tree, root, node)
    &&& forall|j: int| 0 <= j < path.len() ==> #[trigger] follows(tree, line, path, j)
    &&& root_children_ok(tree, root, game)
}

/// The worth of the walk: from where the search stands it ends with the
/// window with which the root ends, after as many steps as are left of those
/// that the search takes.
#[verifier::opaque]
pub(crate) open spec fn valued(
    tree: Tree<Position>,
    root: Seq<u64>,
    game: Game,
    line: Seq<Move>,
    path: Seq<int>,
    spent: nat,
) -> bool {
    &&& game.unwind(frames(tree, root, line, path)) == game.root_window(root)
    &&& spent + game.unwind_steps(frames(tree, root, line, path)) == game.steps(root)
}

/// What holds while the search walks the tree, after `spent` steps.
pub(crate) open spec fn walking(
    tree: Tree<Position>,
    root: Seq<u64>,
    game: Game,
    line: Seq<Move>,
    path: Seq<int>,
    spent: nat,
) -> bool {
    &&& shaped(tree, root, game, line, path)
    &&& valued(tree, root, game, line, path, spent)
}

/// The cursor is on a node that has ended: the window it holds is the one
/// with which it ends, and one step is left there, the one that goes up.
pub(crate) open spec fn ended(
    tree: Tree<Position>,
    root: Seq<u64>,
    game: Game,
    line: Seq<Move>,
    path: Seq<int>,
) -> bool {
    let last = path.len() - 1;
    &&& game.finish(frame_at(tree, root, line, path, last), last as nat) == window_of(
        tree.data_of(tree.cursor())@,
    )
    &&& game.finish_steps(frame_at(tree, root, line, path, last), last as nat) == 1
}

/// What the shape of the walk says of the cursor's node and of the one above it.
pub(crate) proof fn lemma_walking_cursor(
    tree: Tree<Position>,
    root: Seq<u64>,
    game: Game,
    line: Seq<Move>,
    path: Seq<int>,
)
    requires
        shaped(tree, root, game, line, path),
    ensures
        tree.wf(),
        path.len() == line.len() + 1,
        path[0] == 0,
        path.last() == tree.cursor(),
        0 <= tree.cursor() < tree.len(),
        path.len() == 1 <==> tree.cursor() == 0,
        legal_line(root, line),
        all_in_range(line),
        line.take(line.len() as int) == line,
        on_path(tree, path, 0, game),
        on_path(tree, path, path.len() - 1, game),
        waiting(tree, root, line, path, path.len() - 1, game),
        node_ok(tree, root, tree.cursor()),
        path.len() >= 2 ==> linked(tree, line, path, path.len() - 1) && on_path(
            tree,
            path,
            path.len() - 2,
            game,
        ) && waiting(tree, root, line, path, path.len() - 2, game) && node_ok(
            tree,
            root,
            path[path.len() - 2],
        ) && tree.children_of(0).len() >= 1 && path[path.len() - 2] < tree.cursor(),
        forall|j: int|
            0 <= j < path.len() - 1 ==> 0 <= #[trigger] path[j] < tree.cursor() && tree.data_of(
                path[j],
            )@.depth == j,
{
    reveal(shaped);
    tree.lemma_wf();
    let last = path.len() - 1;
    assert(on_path(tree, path, 0, game));
    assert(on_path(tree, path, last, game));
    if last >= 1 {
        assert(path[0] < path[last]);
        assert(on_path(tree, path, last - 1, game));
        assert(linked(tree, line, path, 1));
    }
    assert forall|j: int| 0 <= j < path.len() - 1 implies 0 <= #[trigger] path[j] < tree.cursor()
        && tree.data_of(path[j])@.depth == j by {
        assert(on_path(tree, path, j, game));
        assert(path[j] < path[last]);
    }
}

/// What the walk says of every node, of the children of the root and of the
/// steps that are left.
pub(crate) proof fn lemma_walking_nodes(
    tree: Tree<Position>,
    root: Seq<u64>,
    game: Game,
    line: Seq<Move>,
    path: Seq<int>,
    spent: nat,
)
    requires
        walking(tree, root, game, line, path, spent),
    ensures
        forall|node: int| 0 <= node < tree.len() ==> #[trigger] node_ok(tree, root, node),
        root_children_ok(tree, root, game),
        spent < game.steps(root),
        path.len() == 1 && ended(tree, root, game, line, path) ==> window_of(tree.data_of(0)@)
            == game.root_window(root) && spent + 1 == game.steps(root),
{
    reveal(shaped);
    reveal(valued);
    game.lemma_unwind_steps_positive(frames(tree, root, line, path));
    if path.len() == 1 {
        assert(frames(tree, root, line, path) == seq![frame_at(tree, root, line, path, 0)]);
    }
}

/// A tree of one unvisited node, the root, is where the search starts walking.
pub(crate) proof fn lemma_walking_start(tree: Tree<Position>, root: Seq<u64>, game: Game)
    requires
        tree.wf(),
        tree.len() == 1,
        tree.cursor() == 0,
        tree.children_of(0) == Seq::<usize>::empty(),
        tree.data_of(0)@ == (PositionView {
            chess_move: None,
            pending: None,
            best: None,
            alpha: i32::MIN as int,
            beta: i32::MAX as int,
            depth: 0,
        }),
        game.max_depth >= 1,
    ensures
        walking(tree, root, game, Seq::<Move>::empty(), seq![0int], 0),
{
    reveal(shaped);
    reveal(valued);
    let line = Seq::<Move>::empty();
    let path = seq![0int];
    assert(line.take(0) == line);
    assert(on_path(tree, path, 0, game));
    assert(waiting(tree, root, line, path, 0, game));
    assert(node_ok(tree, root, 0));
    assert(follows(tree, line, path, 0));
    assert(frames(tree, root, line, path) == seq![frame_at(tree, root, line, path, 0)]);
}

/// A change of the data of the cursor's node that keeps the move and the
/// depth of the node, a best child among its children and what waits there
/// keeps the shape of the walk.
pub(crate) proof fn lemma_shaped_update(
    before: Tree<Position>,
    after: Tree<Position>,
    root: Seq<u64>,
    game: Game,
    line: Seq<Move>,
    path: Seq<int>,
)
    requires
        shaped(before, root, game, line, path),
        after.wf(),
        after.same_shape(before),
        forall|node: int|
            0 <= node < before.len() && node != before.cursor() ==> after.data_of(node)
                == before.data_of(node),
        after.data_of(after.cursor())@.chess_move == before.data_of(before.cursor())@.chess_move,
        after.data_of(after.cursor())@.depth == before.data_of(before.cursor())@.depth,
        after.data_of(after.cursor())@.best matches Some(best) ==> best < after.children_of(
            after.cursor(),
        ).len(),
        waiting(after, root, line, path, path.len() - 1, game),
    ensures
        shaped(after, root, game, line, path),
{
    reveal(shaped);
    let last = path.len() - 1;
    before.lemma_wf();
    assert forall|j: int| 0 <= j < path.len() implies #[trigger] on_path(after, path, j, game) by {
        assert(on_path(before, path, j, game));
    }
    assert forall|j: int| 1 <= j < path.len() implies #[trigger] linked(after, line, path, j) by {
        assert(linked(before, line, path, j));
        assert(on_path(before, path, j, game));
        assert(on_path(before, path, j - 1, game));
    }
    assert forall|j: int| 0 <= j < path.len() implies #[trigger] waiting(
        after,
        root,
        line,
        path,
        j,
        game,
    ) by {
        assert(waiting(before, root, line, path, j, game));
        assert(on_path(before, path, j, game));
        if j < last {
            assert(path[j] < path[last]);
        }
    }
    assert forall|node: int| 0 <= node < after.len() implies #[trigger] node_ok(after, root, node) by {
        assert(node_ok(before, root, node));
        lemma_line_to_same(before, after, node);
    }
    assert forall|j: int| 0 <= j < path.len() implies #[trigger] follows(after, line, path, j) by {
        assert(follows(before, line, path, j));
        assert(on_path(before, path, j, game));
        lemma_line_to_same(before, after, path[j]);
    }
    assert(root_children_ok(after, root, game)) by {
        let moves = game.moves(root);
        assert forall|child: int| 0 <= child < after.children_of(0).len() implies child
            < moves.len() && after.data_of((#[trigger] after.children_of(0)[child]) as int)@.chess_move
            == Some(moves[moves.len() - 1 - child]) by {
            assert(on_path(before, path, 0, game));
            let node = before.children_of(0)[child] as int;
            assert(0 < node < before.len());
        }
    }
}

/// A change of the data of the cursor's node that does not change how the
/// node ends, nor after how many steps, keeps the worth of the walk.
pub(crate) proof fn lemma_valued_update(
    before: Tree<Position>,
    after: Tree<Position>,
    root: Seq<u64>,
    game: Game,
    line: Seq<Move>,
    path: Seq<int>,
    spent: nat,
)
    requires
        walking(before, root, game, line, path, spent),
        after.same_shape(before),
        forall|node: int|
            0 <= node < before.len() && node != before.cursor() ==> after.data_of(node)
                == before.data_of(node),
        game.finish(frame_at(after, root, line, path, path.len() - 1), (path.len() - 1) as nat)
            == game.finish(
            frame_at(before, root, line, path, path.len() - 1),
            (path.len() - 1) as nat,
        ),
        game.finish_steps(
            frame_at(after, root, line, path, path.len() - 1),
            (path.len() - 1) as nat,
        ) == game.finish_steps(
            frame_at(before, root, line, path, path.len() - 1),
            (path.len() - 1) as nat,
        ),
    ensures
        valued(after, root, game, line, path, spent),
        frames(after, root, line, path) == frames(before, root, line, path).update(
            path.len() - 1,
            frame_at(after, root, line, path, path.len() - 1),
        ),
{
    reveal(valued);
    lemma_walking_cursor(before, root, game, line, path);
    let last = path.len() - 1;
    let old_frames = frames(before, root, line, path);
    let new_frames = frames(after, root, line, path);
    assert(new_frames == old_frames.update(last, new_frames[last]));
    game.lemma_unwind_tail(old_frames, new_frames[last]);
}

/// A change of the data of the cursor's node that keeps the move and the
/// depth of the node, a best child among its children and what waits there,
/// and that does not change how the node ends, keeps the search walking.
pub(crate) proof fn lemma_walking_update(
    before: Tree<Position>,
    after: Tree<Position>,
    root: Seq<u64>,
    game: Game,
    line: Seq<Move>,
    path: Seq<int>,
    spent: nat,
)
    requires
        walking(before, root, game, line, path, spent),
        after.wf(),
        after.same_shape(before),
        forall|node: int|
            0 <= node < before.len() && node != before.cursor() ==> after.data_of(node)
                == before.data_of(node),
        after.data_of(after.cursor())@.chess_move == before.data_of(before.cursor())@.chess_move,
        after.data_of(after.cursor())@.depth == before.data_of(before.cursor())@.depth,
        after.data_of(after.cursor())@.best matches Some(best) ==> best < after.children_of(
            after.cursor(),
        ).len(),
        waiting(after, root, line, path, path.len() - 1, game),
        game.finish(frame_at(after, root, line, path, path.len() - 1), (path.len() - 1) as nat)
            == game.finish(
            frame_at(before, root, line, path, path.len() - 1),
            (path.len() - 1) as nat,
        ),
        game.finish_steps(
            frame_at(after, root, line, path, path.len() - 1),
            (path.len() - 1) as nat,
        ) == game.finish_steps(
            frame_at(before, root, line, path, path.len() - 1),
            (path.len() - 1) as nat,
        ),
    ensures
        walking(after, root, game, line, path, spent),
        frames(after, root, line, path) == frames(before, root, line, path).update(
            path.len() - 1,
            frame_at(after, root, line, path, path.len() - 1),
        ),
{
    lemma_shaped_update(before, after, root, game, line, path);
    lemma_valued_update(before, after, root, game, line, path, spent);
}

/// The tree after the search has gone down from the cursor's node by its last
/// waiting move: the node has lost the move and gained a child, which is
/// unvisited, starts with the window of the node, and has the cursor.
pub(crate) open spec fn descended(before: Tree<Position>, after: Tree<Position>, mv: Move) -> bool {
    &&& before.len() < usize::MAX
    &&& before.data_of(before.cursor())@.pending matches Some(pending) && pending.len() > 0
        && pending.last() == mv
    &&& after.wf()
    &&& after.len() == before.len() + 1
    &&& after.cursor() == before.len()
    &&& after.data_of(before.len())@ == (PositionView {
        chess_move: Some(mv),
        pending: None,
        best: None,
        alpha: before.data_of(before.cursor())@.alpha,
        beta: before.data_of(before.cursor())@.beta,
        depth: before.data_of(before.cursor())@.depth + 1,
    })
    &&& after.children_of(before.len()) == Seq::<usize>::empty()
    &&& after.parent_of(before.len()) == Some(before.cursor() as usize)
    &&& after.children_of(before.cursor()) == before.children_of(before.cursor()).push(
        before.len() as usize,
    )
    &&& after.data_of(before.cursor())@ == (PositionView {
        pending: Some(before.data_of(before.cursor())@.pending->0.drop_last()),
        ..before.data_of(before.cursor())@
    })
    &&& forall|node: int|
        0 <= node < before.len() ==> after.parent_of(node) == before.parent_of(node)
    &&& forall|node: int|
        0 <= node < before.len() && node != before.cursor() ==> after.data_of(node)
            == before.data_of(node) && after.children_of(node) == before.children_of(node)
}

/// Going down keeps the shape of the walk.
pub(crate) proof fn lemma_shaped_descend(
    before: Tree<Position>,
    after: Tree<Position>,
    root: Seq<u64>,
    game: Game,
    line: Seq<Move>,
    path: Seq<int>,
    mv: Move,
)
    requires
        shaped(before, root, game, line, path),
        before.data_of(before.cursor())@.depth < game.max_depth,
        descended(before, after, mv),
    ensures
        shaped(after, root, game, line.push(mv), path.push(before.len())),
{
    reveal(shaped);
    let last = path.len() - 1;
    let longer = line.push(mv);
    let deeper = path.push(before.len());
    before.lemma_wf();
    assert(line.take(last) == line);
    assert(on_path(before, path, last, game));
    assert(waiting(before, root, line, path, last, game));
    let here = play(root, line);
    let moves = game.moves(here);
    let children = before.children_of(path[last]).len() as int;
    let pending = before.data_of(before.cursor())@.pending->0;
    assert(mv == moves[moves.len() - children - 1]);
    assert(pending.drop_last() == moves.take(moves.len() - children - 1));
    game.lemma_moves(here);
    assert(moves.contains(mv));
    assert(longer.drop_last() == line);
    assert(legal_line(root, longer));
    assert(all_in_range(longer));
    assert forall|j: int| 0 <= j <= last implies longer.take(j) == line.take(j) by {}
    assert(longer.take(last + 1) == longer);
    assert forall|j: int| 0 <= j < deeper.len() implies #[trigger] on_path(after, deeper, j, game) by {
        if j <= last {
            assert(on_path(before, path, j, game));
        }
    }
    assert forall|j: int| 1 <= j < deeper.len() implies #[trigger] linked(
        after,
        longer,
        deeper,
        j,
    ) by {
        if j <= last {
            assert(linked(before, line, path, j));
            assert(on_path(before, path, j, game));
            assert(on_path(before, path, j - 1, game));
            assert(path[j - 1] < path[last]);
            assert(longer[j - 1] == line[j - 1]);
        } else {
            assert(deeper[j] == before.len());
            assert(deeper[j - 1] == before.cursor());
            assert(longer[j - 1] == mv);
        }
    }
    assert forall|j: int| 0 <= j < deeper.len() implies #[trigger] waiting(
        after,
        root,
        longer,
        deeper,
        j,
        game,
    ) by {
        if j <= last {
            assert(waiting(before, root, line, path, j, game));
            assert(on_path(before, path, j, game));
            assert(longer.take(j) == line.take(j));
            if j < last {
                assert(path[j] < path[last]);
            }
        }
    }
    assert forall|node: int| 0 <= node < before.len() implies after.parent_of(node)
        == before.parent_of(node) && after.data_of(node)@.chess_move == before.data_of(
        node,
    )@.chess_move by {}
    assert(follows(before, line, path, last));
    lemma_line_to_same(before, after, path[last]);
    assert(line_to(after, before.len()) == longer);
    assert forall|node: int| 0 <= node < after.len() implies #[trigger] node_ok(after, root, node) by {
        if node < before.len() {
            assert(node_ok(before, root, node));
            lemma_line_to_same(before, after, node);
        }
    }
    assert forall|j: int| 0 <= j < deeper.len() implies #[trigger] follows(
        after,
        longer,
        deeper,
        j,
    ) by {
        if j <= last {
            assert(follows(before, line, path, j));
            assert(on_path(before, path, j, game));
            lemma_line_to_same(before, after, path[j]);
            assert(longer.take(j) == line.take(j));
        }
    }
    assert(root_children_ok(after, root, game)) by {
        let first = game.moves(root);
        assert(on_path(before, path, 0, game));
        assert forall|child: int| 0 <= child < after.children_of(0).len() implies child
            < first.len() && after.data_of((#[trigger] after.children_of(0)[child]) as int)@.chess_move
            == Some(first[first.len() - 1 - child]) by {
            if before.cursor() == 0 {
                assert(last == 0) by {
                    if last > 0 {
                        assert(path[0] < path[last]);
                    }
                }
                assert(line.take(0) == line);
                if child < before.children_of(0).len() {
                    let node = before.children_of(0)[child] as int;
                    assert(0 < node < before.len());
                    assert(after.children_of(0)[child] == before.children_of(0)[child]);
                }
            } else {
                let node = before.children_of(0)[child] as int;
                assert(0 < node < before.len());
            }
        }
    }
}

/// Going down keeps the worth of the walk and takes one step.
pub(crate) proof fn lemma_valued_descend(
    before: Tree<Position>,
    after: Tree<Position>,
    root: Seq<u64>,
    game: Game,
    line: Seq<Move>,
    path: Seq<int>,
    mv: Move,
    spent: nat,
)
    requires
        walking(before, root, game, line, path, spent),
        before.data_of(before.cursor())@.depth < game.max_depth,
        !(game.pruning && before.data_of(before.cursor())@.alpha >= before.data_of(
            before.cursor(),
        )@.beta),
        descended(before, after, mv),
    ensures
        valued(after, root, game, line.push(mv), path.push(before.len()), spent + 1),
        frames(after, root, line.push(mv), path.push(before.len())) == game.step(
            frames(before, root, line, path),
        ),
{
    reveal(valued);
    lemma_walking_cursor(before, root, game, line, path);
    let last = path.len() - 1;
    let longer = line.push(mv);
    let deeper = path.push(before.len());
    let pending = before.data_of(before.cursor())@.pending->0;
    assert(longer.drop_last() == line);
    assert forall|j: int| 0 <= j <= last implies longer.take(j) == line.take(j) by {}
    assert(longer.take(last + 1) == longer);
    let old_frames = frames(before, root, line, path);
    let new_frames = frames(after, root, longer, deeper);
    let top = old_frames.last();
    let parent = Frame {
        position: top.position,
        pending: Some(pending.drop_last()),
        children: top.children + 1,
        window: top.window,
    };
    let child = Frame {
        position: position_after(top.position, pending.last()),
        pending: None,
        children: 0,
        window: Window { alpha: top.window.alpha, beta: top.window.beta, best: None },
    };
    assert(new_frames == old_frames.update(last, parent).push(child)) by {
        assert forall|j: int| 0 <= j < deeper.len() implies new_frames[j] == old_frames.update(
            last,
            parent,
        ).push(child)[j] by {
            if j <= last {
                assert(longer.take(j) == line.take(j));
            }
        }
    }
    game.lemma_unwind_descend(old_frames, pending);
    assert(game.visited(top, last as nat) == top);
    assert(new_frames == game.step(old_frames));
}

/// The tree after the search has gone up from a node that has ended: the
/// cursor is on the parent, which has taken in the score of the node.
pub(crate) open spec fn ascended(
    before: Tree<Position>,
    after: Tree<Position>,
    game: Game,
    path: Seq<int>,
) -> bool {
    &&& path.len() >= 2
    &&& after.wf()
    &&& after.len() == before.len()
    &&& after.cursor() == path[path.len() - 2]
    &&& forall|node: int|
        0 <= node < before.len() ==> after.parent_of(node) == before.parent_of(node)
            && after.children_of(node) == before.children_of(node)
    &&& forall|node: int|
        0 <= node < before.len() && node != after.cursor() ==> after.data_of(node)
            == before.data_of(node)
    &&& after.data_of(after.cursor())@.chess_move == before.data_of(after.cursor())@.chess_move
    &&& after.data_of(after.cursor())@.depth == before.data_of(after.cursor())@.depth
    &&& after.data_of(after.cursor())@.pending == before.data_of(after.cursor())@.pending
    &&& window_of(after.data_of(after.cursor())@) == game.absorb(
        (path.len() - 2) as nat,
        window_of(before.data_of(after.cursor())@),
        game.bound((path.len() - 1) as nat, window_of(before.data_of(before.cursor())@)),
        (before.children_of(after.cursor()).len() - 1) as nat,
    )
}

/// Going up keeps the shape of the walk.
pub(crate) proof fn lemma_shaped_ascend(
    before: Tree<Position>,
    after: Tree<Position>,
    root: Seq<u64>,
    game: Game,
    line: Seq<Move>,
    path: Seq<int>,
)
    requires
        shaped(before, root, game, line, path),
        ascended(before, after, game, path),
    ensures
        shaped(after, root, game, line.drop_last(), path.drop_last()),
{
    reveal(shaped);
    let last = path.len() - 1;
    let shorter = line.drop_last();
    let higher = path.drop_last();
    before.lemma_wf();
    assert(on_path(before, path, last - 1, game));
    assert(on_path(before, path, last, game));
    assert(linked(before, line, path, last));
    assert(waiting(before, root, line, path, last - 1, game));
    assert(node_ok(before, root, path[last - 1]));
    assert forall|j: int| 0 <= j <= last - 1 implies shorter.take(j) == line.take(j) by {}
    assert(all_in_range(shorter));
    assert forall|j: int| 0 <= j < higher.len() implies #[trigger] on_path(after, higher, j, game) by {
        assert(on_path(before, path, j, game));
    }
    assert forall|j: int| 1 <= j < higher.len() implies #[trigger] linked(
        after,
        shorter,
        higher,
        j,
    ) by {
        assert(linked(before, line, path, j));
        assert(on_path(before, path, j, game));
    }
    assert forall|j: int| 0 <= j < higher.len() implies #[trigger] waiting(
        after,
        root,
        shorter,
        higher,
        j,
        game,
    ) by {
        assert(waiting(before, root, line, path, j, game));
        assert(on_path(before, path, j, game));
        assert(shorter.take(j) == line.take(j));
        if j < last - 1 {
            assert(path[j] < path[last - 1]);
        }
    }
    assert forall|node: int| 0 <= node < before.len() implies after.parent_of(node)
        == before.parent_of(node) && after.data_of(node)@.chess_move == before.data_of(
        node,
    )@.chess_move by {}
    assert forall|node: int| 0 <= node < after.len() implies #[trigger] node_ok(after, root, node) by {
        assert(node_ok(before, root, node));
        lemma_line_to_same(before, after, node);
    }
    assert forall|j: int| 0 <= j < higher.len() implies #[trigger] follows(
        after,
        shorter,
        higher,
        j,
    ) by {
        assert(follows(before, line, path, j));
        assert(on_path(before, path, j, game));
        lemma_line_to_same(before, after, path[j]);
        assert(shorter.take(j) == line.take(j));
    }
    assert(root_children_ok(after, root, game)) by {
        let first = game.moves(root);
        assert(on_path(before, path, 0, game));
        assert forall|child: int| 0 <= child < after.children_of(0).len() implies child
            < first.len() && after.data_of((#[trigger] after.children_of(0)[child]) as int)@.chess_move
            == Some(first[first.len() - 1 - child]) by {
            let node = before.children_of(0)[child] as int;
            assert(0 < node < before.len());
        }
    }
}

/// Going up keeps the worth of the walk and takes one step.
pub(crate) proof fn lemma_valued_ascend(
    before: Tree<Position>,
    after: Tree<Position>,
    root: Seq<u64>,
    game: Game,
    line: Seq<Move>,
    path: Seq<int>,
    spent: nat,
)
    requires
        walking(before, root, game, line, path, spent),
        ended(before, root, game, line, path),
        ascended(before, after, game, path),
    ensures
        valued(after, root, game, line.drop_last(), path.drop_last(), spent + 1),
        frames(after, root, line.drop_last(), path.drop_last()) == game.risen(
            frames(before, root, line, path),
        ),
{
    reveal(valued);
    lemma_walking_cursor(before, root, game, line, path);
    let last = path.len() - 1;
    let shorter = line.drop_last();
    let higher = path.drop_last();
    assert forall|j: int| 0 <= j <= last - 1 implies shorter.take(j) == line.take(j) by {}
    let old_frames = frames(before, root, line, path);
    let new_frames = frames(after, root, shorter, higher);
    let risen = old_frames.drop_last().update(last - 1, game.parent_after(old_frames));
    assert(new_frames == risen) by {
        assert forall|j: int| 0 <= j < higher.len() implies new_frames[j] == risen[j] by {
            assert(shorter.take(j) == line.take(j));
        }
    }
    assert(risen == game.risen(old_frames));
}

} // verus!
