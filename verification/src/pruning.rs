//! What the chosen move is worth, and why pruning is safe: the search with
//! the alpha-beta window scores a node as plain minimax does wherever the
//! score lies within the window, so the move that it chooses is the one
//! that minimax chooses, whether it prunes or not.

use crate::alphabeta::{Game, Window};
use crate::eval::{evaluate, lemma_evaluate_bound};
use crate::rules::{
    legal_moves_of, piece_at, position_after, status_of, BoardStatus, Move, KNIGHT, PAWN,
};
use vstd::prelude::*;

verus! {

/// No score of a position is beyond this.
pub open spec fn score_limit() -> int {
    288000
}

/// A score answers for the minimax score within a window: it is the minimax
/// score where that lies within the window, and it lies on the same side of
/// the window where the minimax score lies outside.
pub open spec fn sound(score: int, alpha: int, beta: int, exact: int) -> bool {
    &&& exact <= alpha ==> score <= alpha
    &&& exact >= beta ==> score >= beta
    &&& alpha < exact < beta ==> score == exact
}

impl Game {
    /// The same game without pruning.
    pub open spec fn plain(self) -> Game {
        Game {
            max_depth: self.max_depth,
            correction: self.correction,
            pruning: false,
            shuffling: self.shuffling,
        }
    }

    /// The better of two scores for the side that moves at a depth.
    pub open spec fn better(self, depth: nat, left: int, right: int) -> int {
        if self.maximizing(depth) {
            if left >= right {
                left
            } else {
                right
            }
        } else {
            if left <= right {
                left
            } else {
                right
            }
        }
    }

    /// The minimax score of a position at a depth: the score of the position
    /// at the horizon and where it has no legal move, else the best, for the
    /// side to move, of the minimax scores of the positions that its moves
    /// lead to.
    pub open spec fn minimax(self, position: Seq<u64>, depth: nat) -> int
        decreases self.max_depth - depth, 1int, 0int,
    {
        if depth >= self.max_depth || self.moves(position).len() == 0 {
            evaluate(position)
        } else {
            self.best_of(
                position,
                depth,
                self.moves(position),
                if self.maximizing(depth) {
                    i32::MIN as int
                } else {
                    i32::MAX as int
                },
            )
        }
    }

    /// The best, for the side that moves at a depth, of a score and the
    /// minimax scores of the positions that the given moves lead to.
    pub open spec fn best_of(
        self,
        position: Seq<u64>,
        depth: nat,
        pending: Seq<Move>,
        so_far: int,
    ) -> int
        decreases self.max_depth - depth, 0int, pending.len(),
    {
        if depth >= self.max_depth || pending.len() == 0 {
            so_far
        } else {
            self.best_of(
                position,
                depth,
                pending.drop_last(),
                self.better(
                    depth,
                    so_far,
                    self.minimax(position_after(position, pending.last()), depth + 1),
                ),
            )
        }
    }

    /// A minimax score is within the limit.
    pub proof fn lemma_minimax_bound(self, position: Seq<u64>, depth: nat)
        ensures
            -score_limit() <= self.minimax(position, depth) <= score_limit(),
        decreases self.max_depth - depth, 1int, 0int,
    {
        if depth >= self.max_depth || self.moves(position).len() == 0 {
            lemma_evaluate_bound(position);
        } else {
            let start = if self.maximizing(depth) {
                i32::MIN as int
            } else {
                i32::MAX as int
            };
            self.lemma_best_of_bound(position, depth, self.moves(position), start);
        }
    }

    /// The best of a score and some minimax scores is no worse than the
    /// score, and it is within the limit as far as the score is.
    pub proof fn lemma_best_of_bound(
        self,
        position: Seq<u64>,
        depth: nat,
        pending: Seq<Move>,
        so_far: int,
    )
        requires
            depth < self.max_depth,
        ensures
            ({
                let best = self.best_of(position, depth, pending, so_far);
                if self.maximizing(depth) {
                    &&& best >= so_far
                    &&& pending.len() > 0 ==> best >= -score_limit()
                    &&& so_far <= score_limit() ==> best <= score_limit()
                } else {
                    &&& best <= so_far
                    &&& pending.len() > 0 ==> best <= score_limit()
                    &&& so_far >= -score_limit() ==> best >= -score_limit()
                }
            }),
        decreases self.max_depth - depth, 0int, pending.len(),
    {
        if pending.len() > 0 {
            let child = self.minimax(position_after(position, pending.last()), depth + 1);
            self.lemma_minimax_bound(position_after(position, pending.last()), depth + 1);
            self.lemma_best_of_bound(
                position,
                depth,
                pending.drop_last(),
                self.better(depth, so_far, child),
            );
        }
    }

    /// The best of a score and some minimax scores is the better of that
    /// score and the best of the minimax scores alone.
    pub proof fn lemma_best_of_from(
        self,
        position: Seq<u64>,
        depth: nat,
        pending: Seq<Move>,
        so_far: int,
        other: int,
    )
        requires
            depth < self.max_depth,
        ensures
            self.best_of(position, depth, pending, self.better(depth, so_far, other))
                == self.better(depth, so_far, self.best_of(position, depth, pending, other)),
        decreases pending.len(),
    {
        if pending.len() > 0 {
            let child = self.minimax(position_after(position, pending.last()), depth + 1);
            self.lemma_best_of_from(
                position,
                depth,
                pending.drop_last(),
                so_far,
                self.better(depth, other, child),
            );
            assert(self.better(depth, self.better(depth, so_far, other), child) == self.better(
                depth,
                so_far,
                self.better(depth, other, child),
            ));
        }
    }

    /// The bound with which a node ends answers for the best of the bound it
    /// has and the minimax scores of the moves that still wait, within the
    /// window that the node has. The far bound of the node never moves.
    pub proof fn lemma_settle_sound(
        self,
        position: Seq<u64>,
        depth: nat,
        window: Window,
        pending: Seq<Move>,
        children: nat,
    )
        requires
            depth < self.max_depth,
            pending.len() > 0 || children > 0,
        ensures
            ({
                let end = self.settle(position, depth, window, pending, children);
                let exact = self.plain().best_of(
                    position,
                    depth,
                    pending,
                    self.bound(depth, window),
                );
                if self.maximizing(depth) {
                    &&& end.beta == window.beta
                    &&& end.alpha >= window.alpha
                    &&& window.alpha < window.beta ==> (exact >= window.beta ==> end.alpha
                        >= window.beta) && (exact < window.beta ==> end.alpha == exact)
                } else {
                    &&& end.alpha == window.alpha
                    &&& end.beta <= window.beta
                    &&& window.alpha < window.beta ==> (exact <= window.alpha ==> end.beta
                        <= window.alpha) && (exact > window.alpha ==> end.beta == exact)
                }
            }),
        decreases self.max_depth - depth, 0int, pending.len(),
    {
        if self.pruning && window.alpha >= window.beta {
        } else if pending.len() == 0 {
        } else {
            let next = position_after(position, pending.last());
            let score = self.score(next, depth + 1, window.alpha, window.beta);
            let child = self.plain().minimax(next, depth + 1);
            if window.alpha < window.beta {
                self.lemma_score_sound(next, depth + 1, window.alpha, window.beta);
            }
            let after = self.absorb(depth, window, score, children);
            self.lemma_settle_sound(position, depth, after, pending.drop_last(), children + 1);
            self.plain().lemma_best_of_bound(
                position,
                depth,
                pending.drop_last(),
                self.plain().better(depth, self.bound(depth, window), child),
            );
            self.plain().lemma_best_of_bound(
                position,
                depth,
                pending.drop_last(),
                self.bound(depth, after),
            );
        }
    }

    /// The score that a node hands to its parent answers for its minimax
    /// score within the window that it starts with.
    pub proof fn lemma_score_sound(self, position: Seq<u64>, depth: nat, alpha: int, beta: int)
        requires
            alpha < beta,
        ensures
            sound(
                self.score(position, depth, alpha, beta),
                alpha,
                beta,
                self.plain().minimax(position, depth),
            ),
        decreases self.max_depth - depth, 1int, 0int,
    {
        if depth < self.max_depth {
            let moves = self.moves(position);
            let window = Window { alpha: alpha, beta: beta, best: None };
            if moves.len() > 0 {
                self.lemma_settle_sound(position, depth, window, moves, 0);
                let start = if self.maximizing(depth) {
                    i32::MIN as int
                } else {
                    i32::MAX as int
                };
                let exact = self.plain().minimax(position, depth);
                self.plain().lemma_minimax_bound(position, depth);
                if self.maximizing(depth) {
                    if alpha >= start {
                        self.plain().lemma_best_of_from(position, depth, moves, alpha, start);
                    } else {
                        self.plain().lemma_best_of_from(position, depth, moves, start, alpha);
                        self.plain().lemma_best_of_bound(position, depth, moves, alpha);
                        self.plain().lemma_best_of_bound(position, depth, moves, start);
                    }
                } else {
                    if beta <= start {
                        self.plain().lemma_best_of_from(position, depth, moves, beta, start);
                    } else {
                        self.plain().lemma_best_of_from(position, depth, moves, start, beta);
                        self.plain().lemma_best_of_bound(position, depth, moves, beta);
                        self.plain().lemma_best_of_bound(position, depth, moves, start);
                    }
                }
            }
        }
    }

    /// At the root a pruning search ends as one that does not prune: the far
    /// bound of the root is beyond every score, so the root is never cut
    /// short, and each child hands up its minimax score where that betters
    /// the bound of the root, and a score that does not better it otherwise.
    pub proof fn lemma_root_settle(
        self,
        root: Seq<u64>,
        window: Window,
        pending: Seq<Move>,
        children: nat,
    )
        requires
            self.maximizing(0) ==> window.beta == i32::MAX && window.alpha <= score_limit(),
            !self.maximizing(0) ==> window.alpha == i32::MIN && window.beta >= -score_limit(),
        ensures
            self.settle(root, 0, window, pending, children) == self.plain().settle(
                root,
                0,
                window,
                pending,
                children,
            ),
        decreases pending.len(),
    {
        if 0 < self.max_depth && pending.len() > 0 {
            let next = position_after(root, pending.last());
            self.lemma_score_sound(next, 1, window.alpha, window.beta);
            self.plain().lemma_score_sound(next, 1, window.alpha, window.beta);
            self.plain().lemma_minimax_bound(next, 1);
            let score = self.score(next, 1, window.alpha, window.beta);
            let plain_score = self.plain().score(next, 1, window.alpha, window.beta);
            let after = self.absorb(0, window, score, children);
            assert(after == self.plain().absorb(0, window, plain_score, children));
            self.lemma_root_settle(root, after, pending.drop_last(), children + 1);
        }
    }
}

impl Game {
    /// The score that the side to move at the root starts from: worse than
    /// every score of a position.
    pub open spec fn worst(self) -> int {
        if self.maximizing(0) {
            i32::MIN as int
        } else {
            i32::MAX as int
        }
    }

    /// Whether the first score is better than the second for the side that
    /// moves at a depth.
    pub open spec fn beats(self, depth: nat, left: int, right: int) -> bool {
        if self.maximizing(depth) {
            left > right
        } else {
            left < right
        }
    }

    /// The minimax score of the position that the child number `child` of
    /// the root stands for: the children take the moves of the root from
    /// the end.
    pub open spec fn child_score(self, root: Seq<u64>, child: int) -> int {
        self.plain().minimax(
            position_after(root, self.moves(root)[self.moves(root).len() - 1 - child]),
            1,
        )
    }

    /// The window of the root agrees with the children that have handed up
    /// their scores: the bound of the root is the score of its best child,
    /// no child has a better score, and every child before the best one has
    /// a worse score. Before the first child the bound is the worst score.
    pub open spec fn root_agrees(self, root: Seq<u64>, window: Window, children: nat) -> bool {
        &&& forall|child: int|
            0 <= child < children ==> !self.beats(
                0,
                #[trigger] self.child_score(root, child),
                self.bound(0, window),
            )
        &&& match window.best {
            Some(best) => {
                &&& best < children
                &&& self.child_score(root, best as int) == self.bound(0, window)
                &&& forall|child: int|
                    0 <= child < best ==> self.beats(
                        0,
                        self.bound(0, window),
                        #[trigger] self.child_score(root, child),
                    )
            },
            None => children == 0 && self.bound(0, window) == self.worst(),
        }
    }

    /// At the root the window agrees with the children at every stage, and
    /// so it does when the root ends.
    pub proof fn lemma_root_best(
        self,
        root: Seq<u64>,
        window: Window,
        pending: Seq<Move>,
        children: nat,
    )
        requires
            0 < self.max_depth,
            self.moves(root).len() > 0,
            children + pending.len() == self.moves(root).len(),
            pending == self.moves(root).take(pending.len() as int),
            self.maximizing(0) ==> window.beta == i32::MAX && window.alpha <= score_limit(),
            !self.maximizing(0) ==> window.alpha == i32::MIN && window.beta >= -score_limit(),
            self.root_agrees(root, window, children),
        ensures
            self.root_agrees(
                root,
                self.settle(root, 0, window, pending, children),
                self.moves(root).len(),
            ),
        decreases pending.len(),
    {
        if pending.len() > 0 {
            let next = position_after(root, pending.last());
            self.lemma_score_sound(next, 1, window.alpha, window.beta);
            self.plain().lemma_minimax_bound(next, 1);
            let score = self.score(next, 1, window.alpha, window.beta);
            let after = self.absorb(0, window, score, children);
            assert(pending.drop_last() == self.moves(root).take(pending.len() - 1));
            assert(pending.last() == self.moves(root)[self.moves(root).len() - 1 - children]);
            assert(self.child_score(root, children as int) == self.plain().minimax(next, 1));
            assert(self.root_agrees(root, after, children + 1)) by {
                assert forall|child: int| 0 <= child < children + 1 implies !self.beats(
                    0,
                    #[trigger] self.child_score(root, child),
                    self.bound(0, after),
                ) by {
                    if child < children {
                        assert(!self.beats(
                            0,
                            self.child_score(root, child),
                            self.bound(0, window),
                        ));
                    }
                }
                if after.best == Some(children) && after != window {
                    assert forall|child: int| 0 <= child < children implies self.beats(
                        0,
                        self.bound(0, after),
                        #[trigger] self.child_score(root, child),
                    ) by {
                        assert(!self.beats(
                            0,
                            self.child_score(root, child),
                            self.bound(0, window),
                        ));
                    }
                }
            }
            self.lemma_root_best(root, after, pending.drop_last(), children + 1);
        }
    }

    /// The move that the search chooses is a best one, and the one that the
    /// search tries first among the best: the position that it leads to has
    /// the minimax score of the root, no move leads to a better score, and
    /// every move that stands behind it in the order of the moves leads to
    /// a worse one.
    pub proof fn lemma_best_move_is_best(self, root: Seq<u64>)
        requires
            0 < self.max_depth,
            legal_moves_of(root).len() > 0,
        ensures
            self.root_window(root).best is Some,
            legal_moves_of(root).contains(self.best_move(root)),
            self.plain().minimax(position_after(root, self.best_move(root)), 1)
                == self.plain().minimax(root, 0),
            self.bound(0, self.root_window(root)) == self.plain().minimax(root, 0),
            ({
                let moves = self.moves(root);
                exists|place: int|
                    0 <= place < moves.len() && moves[place] == self.best_move(root) && (forall|
                        other: int,
                    |
                        0 <= other < moves.len() ==> !self.beats(
                            0,
                            self.plain().minimax(position_after(root, #[trigger] moves[other]), 1),
                            self.plain().minimax(root, 0),
                        )) && (forall|other: int|
                        place < other < moves.len() ==> self.beats(
                            0,
                            self.plain().minimax(root, 0),
                            self.plain().minimax(position_after(root, #[trigger] moves[other]), 1),
                        ))
            }),
    {
        let moves = self.moves(root);
        let window = Window { alpha: i32::MIN as int, beta: i32::MAX as int, best: None };
        self.lemma_moves(root);
        assert(moves.take(moves.len() as int) == moves);
        self.lemma_root_best(root, window, moves, 0);
        self.lemma_settle_sound(root, 0, window, moves, 0);
        self.plain().lemma_minimax_bound(root, 0);
        let end = self.root_window(root);
        let chosen = self.best_move(root);
        assert(self.root_agrees(root, end, moves.len()));
        assert(end.best is Some);
        let best = end.best->0 as int;
        let place = moves.len() - 1 - best;
        assert(moves[place] == chosen);
        assert(moves.contains(chosen));
        assert forall|other: int| 0 <= other < moves.len() implies !self.beats(
            0,
            self.plain().minimax(position_after(root, #[trigger] moves[other]), 1),
            self.plain().minimax(root, 0),
        ) by {
            let child = moves.len() - 1 - other;
            assert(!self.beats(0, self.child_score(root, child), self.bound(0, end)));
        }
        assert forall|other: int| place < other < moves.len() implies self.beats(
            0,
            self.plain().minimax(root, 0),
            self.plain().minimax(position_after(root, #[trigger] moves[other]), 1),
        ) by {
            let child = moves.len() - 1 - other;
            assert(self.beats(0, self.bound(0, end), self.child_score(root, child)));
        }
    }
}

impl Game {
    /// The minimax score of the position that a move of the root leads to.
    pub open spec fn move_score(self, root: Seq<u64>, place: int) -> int {
        self.plain().minimax(position_after(root, self.moves(root)[place]), 1)
    }

    /// A move stands out among the moves of the root: no move leads to a
    /// better score, and every move that is tried before it, which are
    /// those that stand behind it, leads to a worse one.
    pub open spec fn stands_out(self, root: Seq<u64>, place: int) -> bool {
        &&& 0 <= place < self.moves(root).len()
        &&& forall|other: int|
            0 <= other < self.moves(root).len() ==> !self.beats(
                0,
                #[trigger] self.move_score(root, other),
                self.move_score(root, place),
            )
        &&& forall|other: int|
            place < other < self.moves(root).len() ==> self.beats(
                0,
                self.move_score(root, place),
                #[trigger] self.move_score(root, other),
            )
    }

    /// The search chooses the move that stands out, and there is only one.
    pub proof fn lemma_best_move_stands_out(self, root: Seq<u64>, place: int)
        requires
            0 < self.max_depth,
            self.stands_out(root, place),
        ensures
            self.best_move(root) == self.moves(root)[place],
    {
        let moves = self.moves(root);
        self.lemma_moves(root);
        self.lemma_best_move_is_best(root);
        let whole = self.plain().minimax(root, 0);
        let chosen = choose|chosen: int|
            0 <= chosen < moves.len() && moves[chosen] == self.best_move(root) && (forall|
                other: int,
            |
                0 <= other < moves.len() ==> !self.beats(
                    0,
                    self.plain().minimax(position_after(root, #[trigger] moves[other]), 1),
                    whole,
                )) && (forall|other: int|
                chosen < other < moves.len() ==> self.beats(
                    0,
                    whole,
                    self.plain().minimax(position_after(root, #[trigger] moves[other]), 1),
                ));
        assert(self.move_score(root, chosen) == whole);
        if place > chosen {
            assert(self.beats(
                0,
                whole,
                self.plain().minimax(position_after(root, moves[place]), 1),
            ));
            assert(!self.beats(0, self.move_score(root, chosen), self.move_score(root, place)));
        } else if place < chosen {
            assert(self.beats(0, self.move_score(root, place), self.move_score(root, chosen)));
            assert(!self.beats(
                0,
                self.plain().minimax(position_after(root, moves[place]), 1),
                whole,
            ));
        }
    }

    /// A move that mates is chosen where it stands out: where no move leads
    /// to a better score than the mate, and every move that is tried before
    /// it leads to a worse one. A move of equal score that is tried first,
    /// such as one that forces a later mate, is chosen in its place.
    pub proof fn lemma_mate_is_chosen(self, root: Seq<u64>, place: int)
        requires
            0 < self.max_depth,
            self.stands_out(root, place),
            status_of(position_after(root, self.moves(root)[place])) == BoardStatus::Checkmate,
        ensures
            status_of(position_after(root, self.best_move(root))) == BoardStatus::Checkmate,
            self.move_score(root, place) == evaluate(
                position_after(root, self.moves(root)[place]),
            ),
    {
        self.lemma_best_move_stands_out(root, place);
        self.lemma_moves(position_after(root, self.moves(root)[place]));
    }

    /// Where every legal move of the root moves a pawn or a knight and none
    /// promotes, as at the start of a game, the move that the search chooses
    /// is such a move.
    pub proof fn lemma_best_move_is_of_the_moves(self, root: Seq<u64>)
        requires
            0 < self.max_depth,
            legal_moves_of(root).len() > 0,
            forall|i: int|
                0 <= i < legal_moves_of(root).len() ==> (piece_at(
                    root,
                    (#[trigger] legal_moves_of(root)[i]).source as int,
                ) == Some(PAWN) || piece_at(root, legal_moves_of(root)[i].source as int) == Some(
                    KNIGHT,
                )) && legal_moves_of(root)[i].promotion is None,
        ensures
            piece_at(root, self.best_move(root).source as int) == Some(PAWN) || piece_at(
                root,
                self.best_move(root).source as int,
            ) == Some(KNIGHT),
            self.best_move(root).promotion is None,
            legal_moves_of(root).contains(self.best_move(root)),
    {
        self.lemma_best_move_is_best(root);
        let chosen = self.best_move(root);
        let i = choose|i: int| 0 <= i < legal_moves_of(root).len() && legal_moves_of(root)[i] == chosen;
        assert(legal_moves_of(root)[i] == chosen);
    }
}

/// A deeper search keeps a move that is forced: where at either depth one
/// move of the root leads to a better score than every other, both searches
/// choose that move.
pub proof fn lemma_forced_move_at_every_depth(
    shallow: Game,
    deep: Game,
    root: Seq<u64>,
    place: int,
)
    requires
        0 < shallow.max_depth,
        0 < deep.max_depth,
        shallow.correction == deep.correction,
        shallow.shuffling == deep.shuffling,
        0 <= place < shallow.moves(root).len(),
        forall|other: int|
            0 <= other < shallow.moves(root).len() && other != place ==> shallow.beats(
                0,
                shallow.move_score(root, place),
                #[trigger] shallow.move_score(root, other),
            ),
        forall|other: int|
            0 <= other < deep.moves(root).len() && other != place ==> deep.beats(
                0,
                deep.move_score(root, place),
                #[trigger] deep.move_score(root, other),
            ),
    ensures
        shallow.best_move(root) == shallow.moves(root)[place],
        deep.best_move(root) == shallow.best_move(root),
{
    assert(shallow.stands_out(root, place)) by {
        assert forall|other: int| 0 <= other < shallow.moves(root).len() implies !shallow.beats(
            0,
            #[trigger] shallow.move_score(root, other),
            shallow.move_score(root, place),
        ) by {
            if other != place {
                assert(shallow.beats(
                    0,
                    shallow.move_score(root, place),
                    shallow.move_score(root, other),
                ));
            }
        }
    }
    assert(deep.stands_out(root, place)) by {
        assert forall|other: int| 0 <= other < deep.moves(root).len() implies !deep.beats(
            0,
            #[trigger] deep.move_score(root, other),
            deep.move_score(root, place),
        ) by {
            if other != place {
                assert(deep.beats(0, deep.move_score(root, place), deep.move_score(root, other)));
            }
        }
    }
    shallow.lemma_best_move_stands_out(root, place);
    deep.lemma_best_move_stands_out(root, place);
}

/// Pruning does not change the move that the search chooses: a search that
/// prunes and one that visits every node down to the horizon end with the
/// same window at the root and choose the same move.
pub proof fn lemma_pruning_keeps_best_move(pruned: Game, unpruned: Game, root: Seq<u64>)
    requires
        pruned.pruning,
        !unpruned.pruning,
        pruned.max_depth == unpruned.max_depth,
        pruned.correction == unpruned.correction,
        pruned.shuffling == unpruned.shuffling,
    ensures
        pruned.root_window(root) == unpruned.root_window(root),
        pruned.best_move(root) == unpruned.best_move(root),
{
    assert(unpruned == pruned.plain());
    pruned.lemma_root_settle(
        root,
        Window { alpha: i32::MIN as int, beta: i32::MAX as int, best: None },
        pruned.moves(root),
        0,
    );
}

} // verus!
