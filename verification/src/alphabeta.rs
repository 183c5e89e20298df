//! What the search computes, stated without a tree or a cursor: the order in
//! which the moves of a position are tried, and depth-limited minimax with an
//! alpha-beta window over the positions that those moves lead to.

use crate::eval::evaluate;
use crate::rules::{hash_of, legal_moves_of, position_after, Move};
use vstd::prelude::*;
use vstd::seq_lib::to_multiset_update;

verus! {

/// The sequence with the items at two places exchanged.
pub open spec fn swapped(moves: Seq<Move>, i: int, j: int) -> Seq<Move> {
    moves.update(i, moves[j]).update(j, moves[i])
}

/// The seed after a move has been mixed into it: the product of the numbers of
/// its two squares is added, and the sum wraps around at 64 bits.
pub open spec fn next_seed(seed: u64, mv: Move) -> u64 {
    ((seed + mv.source as int * mv.dest as int) % 0x1_0000_0000_0000_0000) as u64
}

/// The moves and the seed after the shuffle has handled the first `done`
/// places: at each place in turn the move found there is mixed into the seed,
/// and the move changes places with the one that the seed then points at.
pub open spec fn shuffled_upto(moves: Seq<Move>, seed: u64, done: nat) -> (Seq<Move>, u64)
    decreases done,
{
    if done == 0 {
        (moves, seed)
    } else {
        let (before, old_seed) = shuffled_upto(moves, seed, (done - 1) as nat);
        let seed = next_seed(old_seed, before[done - 1]);
        (swapped(before, done - 1, seed as int % before.len() as int), seed)
    }
}

/// The moves in the order that the shuffle leaves them in.
pub open spec fn shuffled(moves: Seq<Move>, seed: u64) -> Seq<Move> {
    shuffled_upto(moves, seed, moves.len()).0
}

/// The legal moves of a position, shuffled by its hash.
pub open spec fn ordered_moves(position: Seq<u64>) -> Seq<Move> {
    shuffled(legal_moves_of(position), hash_of(position))
}

/// Exchanging two items changes neither the length nor what the sequence holds.
pub proof fn lemma_swapped(moves: Seq<Move>, i: int, j: int)
    requires
        0 <= i < moves.len(),
        0 <= j < moves.len(),
    ensures
        swapped(moves, i, j).len() == moves.len(),
        swapped(moves, i, j).to_multiset() == moves.to_multiset(),
{
    let first = moves.update(i, moves[j]);
    to_multiset_update(moves, i, moves[j]);
    to_multiset_update(first, j, moves[i]);
    broadcast use vstd::multiset::group_multiset_axioms;
    vstd::seq_lib::to_multiset_contains(moves, moves[i]);
    vstd::seq_lib::to_multiset_contains(moves, moves[j]);
    assert(moves.contains(moves[i]));
    assert(moves.contains(moves[j]));
    assert(swapped(moves, i, j).to_multiset() =~= moves.to_multiset());
}

/// The shuffle only reorders: at every stage it holds the moves it was given.
pub proof fn lemma_shuffled_upto(moves: Seq<Move>, seed: u64, done: nat)
    requires
        done <= moves.len(),
    ensures
        shuffled_upto(moves, seed, done).0.len() == moves.len(),
        shuffled_upto(moves, seed, done).0.to_multiset() == moves.to_multiset(),
    decreases done,
{
    if done > 0 {
        lemma_shuffled_upto(moves, seed, (done - 1) as nat);
        let (before, old_seed) = shuffled_upto(moves, seed, (done - 1) as nat);
        let seed = next_seed(old_seed, before[done - 1]);
        lemma_swapped(before, done - 1, seed as int % before.len() as int);
    }
}

/// The moves that wait to be tried are the legal moves, each as often as
/// `chess` lists it.
pub proof fn lemma_ordered_moves(position: Seq<u64>)
    ensures
        ordered_moves(position).len() == legal_moves_of(position).len(),
        ordered_moves(position).to_multiset() == legal_moves_of(position).to_multiset(),
        forall|mv: Move|
            ordered_moves(position).contains(mv) <==> legal_moves_of(position).contains(mv),
{
    let legal = legal_moves_of(position);
    lemma_shuffled_upto(legal, hash_of(position), legal.len());
    assert forall|mv: Move| ordered_moves(position).contains(mv) <==> legal.contains(mv) by {
        vstd::seq_lib::to_multiset_contains(ordered_moves(position), mv);
        vstd::seq_lib::to_multiset_contains(legal, mv);
    }
}

/// What a search is run with: how deep it looks, which side moves at the root
/// (0 where it is White, 1 where it is Black), whether it prunes and whether
/// it shuffles the moves of a position.
pub struct Game {
    pub max_depth: nat,
    pub correction: nat,
    pub pruning: bool,
    pub shuffling: bool,
}

/// The bounds that a node has reached, and the child that gave it the bound
/// of the side that moves there.
pub struct Window {
    pub alpha: int,
    pub beta: int,
    pub best: Option<nat>,
}

/// A node on the way from the root to the cursor, as the search holds it: its
/// position, the moves that still wait (nothing before the first visit), the
/// number of its children and its window.
pub struct Frame {
    pub position: Seq<u64>,
    pub pending: Option<Seq<Move>>,
    pub children: nat,
    pub window: Window,
}

impl Game {
    /// The moves of a position in the order in which they wait to be tried:
    /// its legal moves as `chess` lists them, or shuffled. The search takes
    /// them from the end.
    pub open spec fn moves(self, position: Seq<u64>) -> Seq<Move> {
        if self.shuffling {
            ordered_moves(position)
        } else {
            legal_moves_of(position)
        }
    }

    /// The moves that wait to be tried are the legal moves.
    pub proof fn lemma_moves(self, position: Seq<u64>)
        ensures
            self.moves(position).len() == legal_moves_of(position).len(),
            self.moves(position).to_multiset() == legal_moves_of(position).to_multiset(),
            forall|mv: Move|
                self.moves(position).contains(mv) <==> legal_moves_of(position).contains(mv),
    {
        lemma_ordered_moves(position);
    }

    /// Whether it is White, who maximizes the score, that moves at a depth.
    pub open spec fn maximizing(self, depth: nat) -> bool {
        (depth + self.correction) % 2 == 0
    }

    /// The score that a node with this window hands to its parent: the bound
    /// of the side that moves at the node.
    pub open spec fn bound(self, depth: nat, window: Window) -> int {
        if self.maximizing(depth) {
            window.alpha
        } else {
            window.beta
        }
    }

    /// The window of a node after its child number `child` has handed it a
    /// score: where White moves at the node a greater score raises alpha,
    /// where Black moves a lesser one lowers beta, and the child is then the
    /// best so far.
    pub open spec fn absorb(self, depth: nat, window: Window, score: int, child: nat) -> Window {
        if self.maximizing(depth) {
            if score > window.alpha {
                Window { alpha: score, beta: window.beta, best: Some(child) }
            } else {
                window
            }
        } else {
            if score < window.beta {
                Window { alpha: window.alpha, beta: score, best: Some(child) }
            } else {
                window
            }
        }
    }

    /// The window with which a node above the horizon ends, from the window it
    /// has, the moves that still wait and the number of children it has had.
    /// A pruning search stops as soon as alpha has reached beta. A node
    /// that has run out of moves is done; if it never had a child the position
    /// has no legal move, and the score of the position is both its bounds.
    pub open spec fn settle(
        self,
        position: Seq<u64>,
        depth: nat,
        window: Window,
        pending: Seq<Move>,
        children: nat,
    ) -> Window
        decreases self.max_depth - depth, 0int, pending.len(),
    {
        if depth >= self.max_depth {
            window
        } else if self.pruning && window.alpha >= window.beta {
            window
        } else if pending.len() == 0 {
            if children == 0 {
                Window {
                    alpha: evaluate(position),
                    beta: evaluate(position),
                    best: window.best,
                }
            } else {
                window
            }
        } else {
            let score = self.score(
                position_after(position, pending.last()),
                depth + 1,
                window.alpha,
                window.beta,
            );
            self.settle(
                position,
                depth,
                self.absorb(depth, window, score, children),
                pending.drop_last(),
                children + 1,
            )
        }
    }

    /// The score that a node hands to its parent, from the window it starts
    /// with: at the horizon the score of its position, above it the bound
    /// with which it ends.
    pub open spec fn score(self, position: Seq<u64>, depth: nat, alpha: int, beta: int) -> int
        decreases self.max_depth - depth, 1int, 0int,
    {
        if depth >= self.max_depth {
            evaluate(position)
        } else {
            self.bound(
                depth,
                self.settle(
                    position,
                    depth,
                    Window { alpha: alpha, beta: beta, best: None },
                    self.moves(position),
                    0,
                ),
            )
        }
    }

    /// The number of steps that the search still spends on a node above the
    /// horizon and on what lies below it: one step for each child that it
    /// goes down to, the steps of that child, and one step to go up.
    pub open spec fn settle_steps(
        self,
        position: Seq<u64>,
        depth: nat,
        window: Window,
        pending: Seq<Move>,
        children: nat,
    ) -> nat
        decreases self.max_depth - depth, 0int, pending.len(),
    {
        if depth >= self.max_depth {
            1
        } else if self.pruning && window.alpha >= window.beta {
            1
        } else if pending.len() == 0 {
            1
        } else {
            let next = position_after(position, pending.last());
            let score = self.score(next, depth + 1, window.alpha, window.beta);
            1 + self.score_steps(next, depth + 1, window.alpha, window.beta) + self.settle_steps(
                position,
                depth,
                self.absorb(depth, window, score, children),
                pending.drop_last(),
                children + 1,
            )
        }
    }

    /// The number of steps that the search spends on a node and on what lies
    /// below it, from the window that the node starts with.
    pub open spec fn score_steps(self, position: Seq<u64>, depth: nat, alpha: int, beta: int) -> nat
        decreases self.max_depth - depth, 1int, 0int,
    {
        if depth >= self.max_depth {
            1
        } else {
            self.settle_steps(
                position,
                depth,
                Window { alpha: alpha, beta: beta, best: None },
                self.moves(position),
                0,
            )
        }
    }

    /// The number of steps that a search from a position takes if nothing
    /// stops it.
    pub open spec fn steps(self, root: Seq<u64>) -> nat {
        self.score_steps(root, 0, i32::MIN as int, i32::MAX as int)
    }

    /// The number of steps that the search still spends on a node, from the
    /// state in which it holds the node.
    pub open spec fn finish_steps(self, frame: Frame, depth: nat) -> nat {
        if depth >= self.max_depth {
            1
        } else {
            match frame.pending {
                None => self.settle_steps(
                    frame.position,
                    depth,
                    frame.window,
                    self.moves(frame.position),
                    0,
                ),
                Some(pending) => self.settle_steps(
                    frame.position,
                    depth,
                    frame.window,
                    pending,
                    frame.children,
                ),
            }
        }
    }

    /// The number of steps that the search still takes, from the frames
    /// between the root and the cursor.
    pub open spec fn unwind_steps(self, frames: Seq<Frame>) -> nat
        decreases frames.len(),
    {
        if frames.len() <= 1 {
            self.finish_steps(frames[0], 0)
        } else {
            self.finish_steps(frames.last(), (frames.len() - 1) as nat) + self.unwind_steps(
                frames.drop_last().update(frames.len() - 2, self.parent_after(frames)),
            )
        }
    }

    /// The window with which a node ends, from the state in which the search
    /// holds it. At the horizon the score of its position is both its bounds.
    pub open spec fn finish(self, frame: Frame, depth: nat) -> Window {
        if depth >= self.max_depth {
            Window {
                alpha: evaluate(frame.position),
                beta: evaluate(frame.position),
                best: frame.window.best,
            }
        } else {
            match frame.pending {
                None => self.settle(
                    frame.position,
                    depth,
                    frame.window,
                    self.moves(frame.position),
                    0,
                ),
                Some(pending) => self.settle(
                    frame.position,
                    depth,
                    frame.window,
                    pending,
                    frame.children,
                ),
            }
        }
    }

    /// The parent of the last frame after that frame has ended and handed
    /// its score up.
    pub open spec fn parent_after(self, frames: Seq<Frame>) -> Frame {
        let depth = (frames.len() - 1) as nat;
        let score = self.bound(depth, self.finish(frames.last(), depth));
        let parent = frames[depth - 1];
        Frame {
            position: parent.position,
            pending: parent.pending,
            children: parent.children,
            window: self.absorb(
                (depth - 1) as nat,
                parent.window,
                score,
                (parent.children - 1) as nat,
            ),
        }
    }

    /// The window with which the root ends, from the frames between the root
    /// and the cursor: the last frame ends and hands its score to the one
    /// before it, and so on up to the root.
    pub open spec fn unwind(self, frames: Seq<Frame>) -> Window
        decreases frames.len(),
    {
        if frames.len() <= 1 {
            self.finish(frames[0], 0)
        } else {
            self.unwind(frames.drop_last().update(frames.len() - 2, self.parent_after(frames)))
        }
    }

    /// The steps of the last frame count once: a frame that ends alike takes
    /// its place, and the steps change by the difference.
    pub proof fn lemma_unwind_tail(self, frames: Seq<Frame>, last: Frame)
        requires
            frames.len() >= 1,
            self.finish(last, (frames.len() - 1) as nat) == self.finish(
                frames.last(),
                (frames.len() - 1) as nat,
            ),
        ensures
            self.unwind(frames.update(frames.len() - 1, last)) == self.unwind(frames),
            self.unwind_steps(frames.update(frames.len() - 1, last)) + self.finish_steps(
                frames.last(),
                (frames.len() - 1) as nat,
            ) == self.unwind_steps(frames) + self.finish_steps(last, (frames.len() - 1) as nat),
    {
        let other = frames.update(frames.len() - 1, last);
        if frames.len() > 1 {
            assert(other.drop_last() == frames.drop_last());
        }
    }

    /// The search always has a step left to take.
    pub proof fn lemma_unwind_steps_positive(self, frames: Seq<Frame>)
        ensures
            self.unwind_steps(frames) >= 1,
            self.finish_steps(frames.last(), (frames.len() - 1) as nat) >= 1,
        decreases frames.len(),
    {
    }

    /// Going down: the last frame gives up its last waiting move and gets a
    /// child for it, which starts with the window of its parent.
    pub proof fn lemma_unwind_descend(self, frames: Seq<Frame>, pending: Seq<Move>)
        requires
            frames.len() >= 1,
            frames.len() - 1 < self.max_depth,
            frames.last().pending == Some(pending),
            pending.len() > 0,
            !(self.pruning && frames.last().window.alpha >= frames.last().window.beta),
        ensures
            ({
                let last = frames.last();
                let parent = Frame {
                    position: last.position,
                    pending: Some(pending.drop_last()),
                    children: last.children + 1,
                    window: last.window,
                };
                let child = Frame {
                    position: position_after(last.position, pending.last()),
                    pending: None,
                    children: 0,
                    window: Window { alpha: last.window.alpha, beta: last.window.beta, best: None },
                };
                &&& self.unwind(frames.update(frames.len() - 1, parent).push(child))
                    == self.unwind(frames)
                &&& self.unwind_steps(frames.update(frames.len() - 1, parent).push(child)) + 1
                    == self.unwind_steps(frames)
            }),
    {
        let depth = (frames.len() - 1) as nat;
        let last = frames.last();
        let parent = Frame {
            position: last.position,
            pending: Some(pending.drop_last()),
            children: last.children + 1,
            window: last.window,
        };
        let child = Frame {
            position: position_after(last.position, pending.last()),
            pending: None,
            children: 0,
            window: Window { alpha: last.window.alpha, beta: last.window.beta, best: None },
        };
        let deeper = frames.update(frames.len() - 1, parent).push(child);
        let after = self.parent_after(deeper);
        assert(deeper.drop_last().update(deeper.len() - 2, after) == frames.update(
            frames.len() - 1,
            after,
        ));
        assert(self.bound(depth + 1, self.finish(child, depth + 1)) == self.score(
            child.position,
            depth + 1,
            last.window.alpha,
            last.window.beta,
        ));
        assert(self.finish(after, depth) == self.finish(last, depth));
        assert(self.finish_steps(child, depth + 1) == self.score_steps(
            child.position,
            depth + 1,
            last.window.alpha,
            last.window.beta,
        ));
        assert(self.finish_steps(last, depth) == 1 + self.finish_steps(child, depth + 1)
            + self.finish_steps(after, depth));
        self.lemma_unwind_tail(frames, after);
    }

    /// The frame of a node as a visit finds it: the first visit of a node
    /// above the horizon finds the moves of its position.
    pub open spec fn visited(self, frame: Frame, depth: nat) -> Frame {
        if depth < self.max_depth && frame.pending is None {
            Frame {
                position: frame.position,
                pending: Some(self.moves(frame.position)),
                children: frame.children,
                window: frame.window,
            }
        } else {
            frame
        }
    }

    /// Whether a visit ends a node: at the horizon, where a pruning search
    /// finds alpha at beta, and where no move waits.
    pub open spec fn ends(self, frame: Frame, depth: nat) -> bool {
        ||| depth >= self.max_depth
        ||| self.pruning && frame.window.alpha >= frame.window.beta
        ||| frame.pending matches Some(pending) && pending.len() == 0
    }

    /// The window with which a node ends at the visit that ends it.
    pub open spec fn closing(self, frame: Frame, depth: nat) -> Window {
        if depth >= self.max_depth || (!(self.pruning && frame.window.alpha >= frame.window.beta)
            && frame.children == 0) {
            Window {
                alpha: evaluate(frame.position),
                beta: evaluate(frame.position),
                best: frame.window.best,
            }
        } else {
            frame.window
        }
    }

    /// The frames after one step of the search: the visit of the last frame
    /// either ends it, and its parent takes its score in, or takes its last
    /// waiting move and goes down to a child. Once the root has ended
    /// nothing changes any more.
    pub open spec fn step(self, frames: Seq<Frame>) -> Seq<Frame> {
        let depth = (frames.len() - 1) as nat;
        let top = self.visited(frames.last(), depth);
        if self.ends(top, depth) {
            let closed = Frame {
                position: top.position,
                pending: top.pending,
                children: top.children,
                window: self.closing(top, depth),
            };
            if frames.len() <= 1 {
                frames.update(depth as int, closed)
            } else {
                let parent = frames[depth - 1];
                frames.drop_last().update(
                    depth - 1,
                    Frame {
                        position: parent.position,
                        pending: parent.pending,
                        children: parent.children,
                        window: self.absorb(
                            (depth - 1) as nat,
                            parent.window,
                            self.bound(depth, closed.window),
                            (parent.children - 1) as nat,
                        ),
                    },
                )
            }
        } else {
            let pending = top.pending->0;
            frames.update(
                depth as int,
                Frame {
                    position: top.position,
                    pending: Some(pending.drop_last()),
                    children: top.children + 1,
                    window: top.window,
                },
            ).push(
                Frame {
                    position: position_after(top.position, pending.last()),
                    pending: None,
                    children: 0,
                    window: Window { alpha: top.window.alpha, beta: top.window.beta, best: None },
                },
            )
        }
    }

    /// The frames after the last one, which has ended, has handed the bound
    /// of its window to its parent.
    pub open spec fn risen(self, frames: Seq<Frame>) -> Seq<Frame> {
        let depth = (frames.len() - 1) as nat;
        let parent = frames[depth - 1];
        frames.drop_last().update(
            depth - 1,
            Frame {
                position: parent.position,
                pending: parent.pending,
                children: parent.children,
                window: self.absorb(
                    (depth - 1) as nat,
                    parent.window,
                    self.bound(depth, frames.last().window),
                    (parent.children - 1) as nat,
                ),
            },
        )
    }

    /// The last frame as the visit that ends it leaves it.
    pub open spec fn closed(self, frame: Frame, depth: nat) -> Frame {
        let found = self.visited(frame, depth);
        Frame {
            position: found.position,
            pending: found.pending,
            children: found.children,
            window: self.closing(found, depth),
        }
    }

    /// A step that ends the last frame: the frame is left as the visit
    /// closes it, and unless it is the root its parent takes its score in.
    pub proof fn lemma_step_up(self, frames: Seq<Frame>, left: Seq<Frame>)
        requires
            frames.len() >= 1,
            self.ends(self.visited(frames.last(), (frames.len() - 1) as nat), (frames.len() - 1) as nat),
            frames.last().pending is None ==> frames.last().children == 0,
            left == frames.update(
                frames.len() - 1,
                self.closed(frames.last(), (frames.len() - 1) as nat),
            ),
        ensures
            frames.len() == 1 ==> self.step(frames) == left && self.over(left),
            frames.len() > 1 ==> self.step(frames) == self.risen(left),
    {
        if frames.len() > 1 {
            assert(left.drop_last() == frames.drop_last());
        }
    }

    /// A step goes by what the visit finds: it is the same step whether or
    /// not the last frame holds the moves of its position already.
    pub proof fn lemma_step_visited(self, frames: Seq<Frame>)
        requires
            frames.len() >= 1,
        ensures
            self.step(
                frames.update(
                    frames.len() - 1,
                    self.visited(frames.last(), (frames.len() - 1) as nat),
                ),
            ) == self.step(frames),
    {
        let found = frames.update(
            frames.len() - 1,
            self.visited(frames.last(), (frames.len() - 1) as nat),
        );
        assert(found.drop_last() == frames.drop_last());
        assert(found.update(frames.len() - 1, found.last()) == found);
        if frames.len() > 1 {
            assert(found[frames.len() - 2] == frames[frames.len() - 2]);
        }
        let depth = (frames.len() - 1) as nat;
        let top = self.visited(frames.last(), depth);
        assert(self.visited(found.last(), depth) == top);
        if self.ends(top, depth) {
            if frames.len() <= 1 {
                assert(self.step(found) == self.step(frames));
            }
        } else {
            let pending = top.pending->0;
            let parent = Frame {
                position: top.position,
                pending: Some(pending.drop_last()),
                children: top.children + 1,
                window: top.window,
            };
            assert(found.update(depth as int, parent) == frames.update(depth as int, parent));
        }
    }

    /// The frames with which the search starts: the root alone, unvisited,
    /// with the widest window.
    pub open spec fn start(self, root: Seq<u64>) -> Seq<Frame> {
        seq![
            Frame {
                position: root,
                pending: None,
                children: 0,
                window: Window { alpha: i32::MIN as int, beta: i32::MAX as int, best: None },
            },
        ]
    }

    /// The frames after a number of steps.
    pub open spec fn after_steps(self, root: Seq<u64>, steps: nat) -> Seq<Frame>
        decreases steps,
    {
        if steps == 0 {
            self.start(root)
        } else {
            self.step(self.after_steps(root, (steps - 1) as nat))
        }
    }

    /// The search is over: the root alone is left, and it has ended.
    pub open spec fn over(self, frames: Seq<Frame>) -> bool {
        &&& frames.len() == 1
        &&& self.visited(frames[0], 0) == frames[0]
        &&& self.ends(frames[0], 0)
        &&& self.closing(frames[0], 0) == frames[0].window
    }

    /// Once the search is over, further steps change nothing.
    pub proof fn lemma_over_stays(self, root: Seq<u64>, steps: nat, later: nat)
        requires
            steps <= later,
            self.over(self.after_steps(root, steps)),
        ensures
            self.after_steps(root, later) == self.after_steps(root, steps),
        decreases later,
    {
        if steps < later {
            self.lemma_over_stays(root, steps, (later - 1) as nat);
            let frames = self.after_steps(root, steps);
            assert(self.step(frames) == frames);
        }
    }

    /// The frames are those of a search on its way: every frame but the last
    /// has been visited and has a child, a frame that has not been visited
    /// has no child, the frames end with the window with which the root
    /// ends, and the steps that are left are those that the search has not
    /// taken yet.
    pub open spec fn on_the_way(self, root: Seq<u64>, frames: Seq<Frame>, taken: nat) -> bool {
        &&& 1 <= frames.len() <= self.max_depth + 1
        &&& forall|depth: int|
            0 <= depth < frames.len() - 1 ==> (#[trigger] frames[depth]).pending is Some
                && frames[depth].children >= 1
        &&& frames.last().pending is None ==> frames.last().children == 0
        &&& self.unwind(frames) == self.root_window(root)
        &&& taken + self.unwind_steps(frames) == self.steps(root)
    }

    /// A step keeps the search on its way, until the last step leaves the
    /// root alone, ended with the window with which the root ends.
    pub proof fn lemma_step_on_the_way(self, root: Seq<u64>, frames: Seq<Frame>, taken: nat)
        requires
            self.on_the_way(root, frames, taken),
        ensures
            taken + 1 < self.steps(root) ==> self.on_the_way(root, self.step(frames), taken + 1),
            taken + 1 == self.steps(root) ==> self.over(self.step(frames)) && self.step(
                frames,
            )[0].window == self.root_window(root),
            taken < self.steps(root),
    {
        let last = frames.len() - 1;
        let depth = last as nat;
        let top = self.visited(frames.last(), depth);
        let found = frames.update(last, top);
        self.lemma_unwind_tail(frames, top);
        self.lemma_step_visited(frames);
        self.lemma_unwind_steps_positive(frames);
        assert(found.update(last, top) == found);
        if self.ends(top, depth) {
            let closed = self.closed(frames.last(), depth);
            let left = frames.update(last, closed);
            assert(left == found.update(last, closed));
            self.lemma_unwind_tail(found, closed);
            self.lemma_step_up(frames, left);
            if frames.len() > 1 {
                let risen = self.risen(left);
                assert(risen == left.drop_last().update(last - 1, self.parent_after(left)));
                assert(risen.last().pending is Some);
                self.lemma_unwind_steps_positive(risen);
            }
        } else {
            let pending = top.pending->0;
            self.lemma_unwind_descend(found, pending);
            self.lemma_unwind_steps_positive(self.step(frames));
        }
    }

    /// The search is on its way as long as it has steps left, and with its
    /// last step it leaves the root alone, ended with the window with which
    /// the root ends.
    pub proof fn lemma_after_steps(self, root: Seq<u64>, taken: nat)
        requires
            0 < self.max_depth,
            taken <= self.steps(root),
        ensures
            taken < self.steps(root) ==> self.on_the_way(
                root,
                self.after_steps(root, taken),
                taken,
            ),
            taken == self.steps(root) ==> self.over(self.after_steps(root, taken))
                && self.after_steps(root, taken)[0].window == self.root_window(root),
            self.steps(root) >= 1,
        decreases taken,
    {
        if taken == 0 {
            self.lemma_unwind_steps_positive(self.start(root));
        } else {
            self.lemma_after_steps(root, (taken - 1) as nat);
            self.lemma_step_on_the_way(
                root,
                self.after_steps(root, (taken - 1) as nat),
                (taken - 1) as nat,
            );
        }
    }

    /// Within the cap the search chooses the move that it would choose
    /// without one.
    pub proof fn lemma_capped_move(self, root: Seq<u64>, cap: nat)
        requires
            0 < self.max_depth,
            self.steps(root) <= cap,
        ensures
            self.capped_move(root, cap) == self.best_move(root),
    {
        self.lemma_after_steps(root, self.steps(root));
        self.lemma_over_stays(root, self.steps(root), cap);
    }

    /// The move that the search chooses when it may take no more than a
    /// number of steps: the one that led to the child of the root that is
    /// best by then, or to the first child where none is best yet.
    pub open spec fn capped_move(self, root: Seq<u64>, cap: nat) -> Move {
        let moves = self.moves(root);
        match self.after_steps(root, cap)[0].window.best {
            Some(child) => moves[moves.len() - 1 - child],
            None => moves[moves.len() - 1],
        }
    }

    /// The window with which the root ends.
    pub open spec fn root_window(self, root: Seq<u64>) -> Window {
        self.settle(
            root,
            0,
            Window { alpha: i32::MIN as int, beta: i32::MAX as int, best: None },
            self.moves(root),
            0,
        )
    }

    /// The move that the search chooses: the one that led to the best child of
    /// the root, or to its first child where none is best.
    pub open spec fn best_move(self, root: Seq<u64>) -> Move {
        let moves = self.moves(root);
        match self.root_window(root).best {
            Some(child) => moves[moves.len() - 1 - child],
            None => moves[moves.len() - 1],
        }
    }
}

} // verus!
