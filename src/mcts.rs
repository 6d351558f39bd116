pub mod node;

use crate::chance::choose_from;
use crate::game::{
    all_legal, empty_count, is_legal, lemma_legal_moves, lemma_play_all_push, lemma_play_valid, legal_moves,
    play, play_all, win_for, Game, GameError, GameView, Outcome, Side, Square,
};
use node::Node;
use rand::rngs::ThreadRng;
use vstd::prelude::*;

verus! {

/// Why the tree search could not pick a move.
#[derive(Clone, Copy, Debug, PartialEq, Eq, Structural)]
pub enum MctsError {
    Game(GameError),
    ChildNodesIndexesSliceEmpty,
    NoSquaresAvailable,
    UnableToChooseMove,
}

/// Select, expand, simulate and backpropagate rounds run per move.
pub const ROUNDS: u32 = 8190;

/// Arena index of the root.
pub const ROOT_NODE: usize = 0;

/// Root visits past which no further playout is recorded.
pub const VISIT_LIMIT: u32 = 0x7fff_0000;

/// Half points that a playout ending in `outcome` earns a node whose side to move is `side`:
/// a win of the side that moved into the node counts two, a draw one.
pub open spec fn credit(outcome: Outcome, side: Side) -> nat {
    if outcome == Outcome::Draw {
        1
    } else if outcome == win_for(side.opponent()) {
        2
    } else {
        0
    }
}

/// Node `j` lies on the path from node `from` up to the root.
pub open spec fn on_path(nodes: Seq<Node>, from: int, j: int) -> bool
    decreases from,
{
    if from == j {
        true
    } else if 0 < from < nodes.len() && 0 <= nodes[from].parent_index() < from {
        on_path(nodes, nodes[from].parent_index() as int, j)
    } else {
        false
    }
}

proof fn lemma_on_path_below(nodes: Seq<Node>, from: int, j: int)
    requires
        on_path(nodes, from, j),
    ensures
        j <= from,
    decreases from,
{
    if from != j {
        lemma_on_path_below(nodes, nodes[from].parent_index() as int, j);
    }
}

/// Statistics handed to the ranking of children: score in half points, and visits.
pub open spec fn node_stats(n: Node) -> (u32, u32) {
    (n.score() as u32, n.visits() as u32)
}

/// `uct_greater` gives one answer for each arguments: it is a function.
pub open spec fn is_ranking<F: Fn((u32, u32), (u32, u32), u32) -> bool>(uct_greater: F) -> bool {
    forall|a: (u32, u32), b: (u32, u32), n: u32, r1: bool, r2: bool|
        #[trigger] uct_greater.ensures((a, b, n), r1) && #[trigger] uct_greater.ensures((a, b, n), r2)
            ==> r1 == r2
}

/// Position, among the first `k` children of `parent`, at which a scan ends that starts at the
/// first child and moves to a later child only when `uct_greater` ranks it above the one held.
pub open spec fn scan_best<F: Fn((u32, u32), (u32, u32), u32) -> bool>(
    nodes: Seq<Node>,
    parent: int,
    uct_greater: F,
    k: nat,
) -> int
    decreases k,
{
    let c = nodes[parent].children();
    if k <= 1 {
        0
    } else {
        let b = scan_best(nodes, parent, uct_greater, (k - 1) as nat);
        if uct_greater.ensures(
            (
                node_stats(nodes[c[k - 1] as int]),
                node_stats(nodes[c[b] as int]),
                nodes[parent].visits() as u32,
            ),
            true,
        ) {
            k - 1
        } else {
            b
        }
    }
}

/// `child` is a child of `parent` chosen by the selection rule: the first unvisited child if
/// `parent` has any; otherwise the first child of highest rank under `uct_greater`.
pub open spec fn is_selected_child<F: Fn((u32, u32), (u32, u32), u32) -> bool>(
    nodes: Seq<Node>,
    parent: int,
    child: int,
    uct_greater: F,
) -> bool {
    let c = nodes[parent].children();
    exists|l: int|
        0 <= l < c.len() && c[l] == child && if exists|m: int|
            0 <= m < c.len() && #[trigger] nodes[c[m] as int].visits() == 0 {
            nodes[child].visits() == 0 && forall|m: int|
                0 <= m < l ==> #[trigger] nodes[c[m] as int].visits() > 0
        } else {
            l == scan_best(nodes, parent, uct_greater, c.len())
        }
}

/// Every step of the path from the root down to node `i` picks a selected child.
pub open spec fn selected_path<F: Fn((u32, u32), (u32, u32), u32) -> bool>(
    nodes: Seq<Node>,
    i: int,
    uct_greater: F,
) -> bool
    decreases i,
{
    if i == 0 {
        true
    } else if 0 < i < nodes.len() && 0 <= nodes[i].parent_index() < i {
        is_selected_child(nodes, nodes[i].parent_index() as int, i, uct_greater) && selected_path(
            nodes,
            nodes[i].parent_index() as int,
            uct_greater,
        )
    } else {
        false
    }
}

/// `child` is `parent` after one legal move.
#[verifier::opaque]
pub open spec fn follows_move(parent: GameView, child: GameView) -> bool {
    exists|sq: Square| is_legal(parent, sq) && child == play(parent, sq)
}

proof fn lemma_follows_move(parent: GameView, sq: Square)
    requires
        is_legal(parent, sq),
    ensures
        follows_move(parent, play(parent, sq)),
{
    reveal(follows_move);
}

/// A Monte Carlo tree search agent. Its arena of nodes is rebuilt for every move.
pub struct Mcts {
    nodes: Vec<Node>,
    square_map: Vec<Square>,
    random: ThreadRng,
    outcome: Outcome,
    node_index: usize,
}

impl Mcts {
    pub closed spec fn arena(&self) -> Seq<Node> {
        self.nodes@
    }

    /// The node that the current round works on.
    pub closed spec fn current(&self) -> int {
        self.node_index as int
    }

    /// Outcome of the last playout.
    pub closed spec fn last_outcome(&self) -> Outcome {
        self.outcome
    }

    /// The move that leads to each child of the root, in the order of the root's children.
    pub closed spec fn root_moves(&self) -> Seq<Square> {
        self.square_map@
    }

    /// Visits of the `k`-th child of the root.
    pub open spec fn root_child_visits(&self, k: int) -> nat {
        self.arena()[self.arena()[0].children()[k] as int].visits()
    }

    /// The `c`-th child of the root has one visit and every other child of the root none.
    pub open spec fn only_visited_root_child(&self, c: int) -> bool {
        &&& 0 <= c < self.root_moves().len()
        &&& forall|k: int|
            0 <= k < self.root_moves().len() ==> #[trigger] self.root_child_visits(k) == if k == c {
                1nat
            } else {
                0nat
            }
    }

    /// The arena is a tree rooted at index 0 whose root has children: children stand after
    /// their parent and point back to it, every position is well formed and is its parent's
    /// position after one legal move, no node has more
    /// visits than the root nor more score than two half points a visit, and `root_moves`
    /// gives the move from the root to each of its children.
    pub open spec fn tree_wf(&self) -> bool {
        let n = self.arena();
        &&& n.len() >= 1
        &&& 0 <= self.current() < n.len()
        &&& n[0].children().len() > 0
        &&& forall|i: int| 0 <= i < n.len() ==> (#[trigger] n[i]).position().wf()
        &&& forall|i: int| 0 < i < n.len() ==> (#[trigger] n[i]).parent_index() < i
        &&& forall|i: int, k: int|
            0 <= i < n.len() && 0 <= k < n[i].children().len() ==> i < #[trigger] n[i].children()[k]
                < n.len() && n[n[i].children()[k] as int].parent_index() == i
        &&& forall|i: int| 0 <= i < n.len() ==> (#[trigger] n[i]).visits() <= n[0].visits()
        &&& forall|i: int| 0 <= i < n.len() ==> (#[trigger] n[i]).score() <= 2 * n[i].visits()
        &&& forall|i: int|
            0 < i < n.len() ==> follows_move(
                n[(#[trigger] n[i]).parent_index() as int].position()@,
                n[i].position()@,
            )
        &&& self.root_moves().len() == n[0].children().len()
        &&& forall|k: int|
            0 <= k < self.root_moves().len() ==> (#[trigger] n[n[0].children()[k] as int]).position()@
                == play(n[0].position()@, self.root_moves()[k])
    }

    /// An agent with an empty arena and no root moves.
    pub fn new() -> (r: Self)
        ensures
            r.arena().len() == 0,
            r.root_moves().len() == 0,
    {
        Mcts {
            nodes: Vec::new(),
            square_map: Vec::new(),
            random: rand::thread_rng(),
            outcome: Outcome::Draw,
            node_index: ROOT_NODE,
        }
    }

    /// Records the last playout on every node from the current one up to the root: one
    /// visit each, and the credit that the outcome earns from that node's side to move.
    pub fn backpropagate(&mut self)
        requires
            old(self).tree_wf(),
            old(self).arena()[0].visits() < VISIT_LIMIT,
        ensures
            final(self).tree_wf(),
            final(self).current() == 0,
            final(self).root_moves() == old(self).root_moves(),
            final(self).last_outcome() == old(self).last_outcome(),
            final(self).arena().len() == old(self).arena().len(),
            final(self).arena()[0].visits() == old(self).arena()[0].visits() + 1,
            forall|j: int|
                0 <= j < old(self).arena().len() ==> {
                    let a = #[trigger] final(self).arena()[j];
                    let b = old(self).arena()[j];
                    &&& a.children() == b.children()
                    &&& a.position() == b.position()
                    &&& a.parent_index() == b.parent_index()
                    &&& a.visits() == b.visits() + if on_path(
                        old(self).arena(),
                        old(self).current(),
                        j,
                    ) {
                        1nat
                    } else {
                        0nat
                    }
                    &&& a.score() == b.score() + if on_path(
                        old(self).arena(),
                        old(self).current(),
                        j,
                    ) {
                        credit(old(self).last_outcome(), b.position()@.side)
                    } else {
                        0nat
                    }
                },
    {
        let ghost old_nodes = self.nodes@;
        let ghost start = self.node_index as int;
        let ghost root_visits = old_nodes[0].visits();
        loop
            invariant
                self.nodes@.len() == old_nodes.len(),
                0 <= self.node_index < old_nodes.len(),
                on_path(old_nodes, start, self.node_index as int),
                self.square_map == old(self).square_map,
                self.outcome == old(self).outcome,
                old(self).tree_wf(),
                old_nodes == old(self).arena(),
                start == old(self).current(),
                root_visits == old_nodes[0].visits(),
                root_visits < VISIT_LIMIT,
                forall|j: int|
                    0 <= j < old_nodes.len() ==> {
                        let a = #[trigger] self.nodes@[j];
                        let b = old_nodes[j];
                        let done = on_path(old_nodes, start, j) && !on_path(
                            old_nodes,
                            self.node_index as int,
                            j,
                        );
                        &&& a.children() == b.children()
                        &&& a.position() == b.position()
                        &&& a.parent_index() == b.parent_index()
                        &&& a.visits() == b.visits() + if done {
                            1nat
                        } else {
                            0nat
                        }
                        &&& a.score() == b.score() + if done {
                            credit(self.outcome, b.position()@.side)
                        } else {
                            0nat
                        }
                    },
            decreases self.node_index,
        {
            let ghost cur = self.node_index as int;
            let side = *self.nodes[self.node_index].get_game().get_side_to_move();
            proof {
                assert(on_path(old_nodes, cur, cur));
                assert(self.nodes@[cur].visits() == old_nodes[cur].visits());
                assert(old_nodes[cur].visits() <= root_visits);
            }
            self.nodes[self.node_index].add_playout();
            if self.outcome == Outcome::Draw {
                self.nodes[self.node_index].add_draw();
            } else if (self.outcome == Outcome::XWin && side == Side::O) || (self.outcome
                == Outcome::OWin && side == Side::X) {
                self.nodes[self.node_index].add_win();
            }
            if self.node_index == ROOT_NODE {
                proof {
                    assert forall|j: int| 0 <= j < old_nodes.len() implies on_path(old_nodes, 0, j)
                        == (j == 0) by {}
                    lemma_reaches_root(old_nodes, start);
                    assert(self.nodes@[0].visits() == old_nodes[0].visits() + 1);
                }
                return;
            }
            let parent = self.nodes[self.node_index].get_parent();
            proof {
                assert forall|j: int| 0 <= j < old_nodes.len() implies on_path(old_nodes, cur, j)
                    == (j == cur || on_path(old_nodes, parent as int, j)) by {}
                assert(!on_path(old_nodes, parent as int, cur)) by {
                    if on_path(old_nodes, parent as int, cur) {
                        lemma_on_path_below(old_nodes, parent as int, cur);
                    }
                }
                assert(on_path(old_nodes, start, parent as int)) by {
                    lemma_on_path_trans(old_nodes, start, cur, parent as int);
                }
            }
            self.node_index = parent;
        }
    }

    /// Descends from the root to a leaf. At each node the next one is its first unvisited
    /// child if it has one, else the child that `uct_greater` ranks highest, ties keeping the
    /// child found first. `uct_greater(a, b, n)` tells whether a child with statistics `a`
    /// (score in half points, visits) outranks one with `b` under a parent with `n` visits.
    pub fn select<F>(&mut self, uct_greater: &F)
        where
            F: Fn((u32, u32), (u32, u32), u32) -> bool,
        requires
            old(self).tree_wf(),
            forall|a: (u32, u32), b: (u32, u32), n: u32| #[trigger] uct_greater.requires((a, b, n)),
            is_ranking(*uct_greater),
        ensures
            final(self).tree_wf(),
            final(self).arena() == old(self).arena(),
            final(self).root_moves() == old(self).root_moves(),
            final(self).last_outcome() == old(self).last_outcome(),
            final(self).arena()[final(self).current()].children().len() == 0,
            on_path(final(self).arena(), final(self).current(), 0),
            selected_path(final(self).arena(), final(self).current(), *uct_greater),
    {
        self.node_index = ROOT_NODE;
        loop
            invariant
                self.tree_wf(),
                self.nodes == old(self).nodes,
                self.square_map == old(self).square_map,
                self.outcome == old(self).outcome,
                on_path(self.nodes@, self.node_index as int, 0),
                selected_path(self.nodes@, self.node_index as int, *uct_greater),
                forall|a: (u32, u32), b: (u32, u32), n: u32| #[trigger] uct_greater.requires((a, b, n)),
                is_ranking(*uct_greater),
            decreases self.nodes@.len() - self.node_index,
        {
            let ghost here = self.node_index as int;
            let children = self.nodes[self.node_index].get_childrens();
            if children.len() == 0 {
                return;
            }
            let parent_playouts = self.nodes[self.node_index].get_playouts();
            let mut best: usize = children[0];
            let ghost mut bl: int = 0;
            let mut unvisited = false;
            let mut k: usize = 0;
            while k < children.len() && !unvisited
                invariant
                    self.tree_wf(),
                    here == self.node_index,
                    children@ == self.nodes@[here].children(),
                    children@.len() > 0,
                    k <= children@.len(),
                    0 <= bl < children@.len(),
                    best == children@[bl],
                    unvisited ==> bl == k && self.nodes@[best as int].visits() == 0,
                    forall|m: int| 0 <= m < k ==> #[trigger] self.nodes@[children@[m] as int].visits() > 0,
                    parent_playouts == self.nodes@[here].visits(),
                    !unvisited && k > 0 ==> bl == scan_best(self.nodes@, here, *uct_greater, k as nat),
                    forall|a: (u32, u32), b: (u32, u32), n: u32| #[trigger] uct_greater.requires((a, b, n)),
                    is_ranking(*uct_greater),
                decreases children@.len() - k, if unvisited { 0int } else { 1int },
            {
                let child = children[k];
                let child_playouts = self.nodes[child].get_playouts();
                if child_playouts == 0 {
                    best = child;
                    proof {
                        bl = k as int;
                    }
                    unvisited = true;
                } else {
                    let ghost before_bl = bl;
                    let ranked = if k == 0 {
                        true
                    } else {
                        uct_greater(
                            (self.nodes[child].get_wins(), child_playouts),
                            (self.nodes[best].get_wins(), self.nodes[best].get_playouts()),
                            parent_playouts,
                        )
                    };
                    proof {
                        if k > 0 {
                            let args = (
                                node_stats(self.nodes@[children@[k as int] as int]),
                                node_stats(self.nodes@[children@[before_bl] as int]),
                                self.nodes@[here].visits() as u32,
                            );
                            assert(uct_greater.ensures(args, ranked));
                            if !ranked {
                                assert(!uct_greater.ensures(args, true));
                            }
                        }
                    }
                    if ranked {
                        best = child;
                        proof {
                            bl = k as int;
                        }
                    }
                    k += 1;
                }
            }
            proof {
                assert(self.nodes@[best as int].parent_index() == here);
                assert(best > here);
                if !unvisited {
                    assert forall|m: int| 0 <= m < children@.len() implies #[trigger] self.nodes@[children@[m] as int].visits() > 0 by {}
                }
                assert(is_selected_child(self.nodes@, here, best as int, *uct_greater));
            }
            self.node_index = best;
        }
    }

    /// Grows the current leaf: unless its position is decided, one child per legal move is
    /// attached, in search order, and the round goes on at one of them drawn at random.
    pub fn expand(&mut self) -> (r: Result<(), MctsError>)
        requires
            old(self).tree_wf(),
            old(self).arena()[old(self).current()].children().len() == 0,
        ensures
            r is Ok,
            final(self).tree_wf(),
            final(self).root_moves() == old(self).root_moves(),
            final(self).last_outcome() == old(self).last_outcome(),
            ({
                let idx = old(self).current();
                let g = old(self).arena()[idx].position()@;
                let m = legal_moves(g.board);
                let len = old(self).arena().len();
                &&& g.outcome is Some ==> final(self).arena() == old(self).arena()
                    && final(self).current() == idx
                &&& g.outcome is None ==> {
                    &&& final(self).arena().len() == len + m.len()
                    &&& forall|j: int|
                        0 <= j < len && j != idx ==> #[trigger] final(self).arena()[j]
                            == old(self).arena()[j]
                    &&& final(self).arena()[idx].children() == Seq::new(
                        m.len(),
                        |k: int| (len + k) as usize,
                    )
                    &&& final(self).arena()[idx].position() == old(self).arena()[idx].position()
                    &&& final(self).arena()[idx].visits() == old(self).arena()[idx].visits()
                    &&& final(self).arena()[idx].score() == old(self).arena()[idx].score()
                    &&& final(self).arena()[idx].parent_index() == old(self).arena()[idx].parent_index()
                    &&& forall|k: int|
                        0 <= k < m.len() ==> {
                            let c = #[trigger] final(self).arena()[len + k];
                            &&& c.position()@ == play(g, m[k])
                            &&& c.parent_index() == idx
                            &&& c.visits() == 0
                            &&& c.score() == 0
                            &&& c.children().len() == 0
                        }
                    &&& len <= final(self).current() < final(self).arena().len()
                }
            }),
    {
        let ghost old_nodes = self.nodes@;
        let ghost idx = self.node_index as int;
        let ghost len = self.nodes@.len();
        if self.nodes[self.node_index].get_game().get_outcome().is_some() {
            return Ok(());
        }
        let ghost g = old_nodes[idx].position()@;
        proof {
            old_nodes[idx].position().lemma_valid();
            lemma_legal_moves(g.board);
            assert(idx != 0);
        }
        let squares = self.nodes[self.node_index].get_game().get_empty_squares();
        let mut i: usize = 0;
        while i < squares.len()
            invariant
                old(self).tree_wf(),
                old_nodes == old(self).arena(),
                idx == old(self).current(),
                idx != 0,
                len == old_nodes.len(),
                g == old_nodes[idx].position()@,
                g.outcome is None,
                g.board.len() == 9,
                squares@ == legal_moves(g.board),
                forall|j: int| 0 <= j < squares@.len() ==> g.board[(#[trigger] squares@[j]).index()] is None,
                i <= squares.len(),
                self.node_index == idx,
                self.square_map == old(self).square_map,
                self.outcome == old(self).outcome,
                self.nodes@.len() == len + i,
                i > 0 ==> len + i <= usize::MAX + 1,
                forall|j: int| 0 <= j < len && j != idx ==> #[trigger] self.nodes@[j] == old_nodes[j],
                self.nodes@[idx].children() == Seq::new(i as nat, |k: int| (len + k) as usize),
                self.nodes@[idx].position() == old_nodes[idx].position(),
                self.nodes@[idx].visits() == old_nodes[idx].visits(),
                self.nodes@[idx].score() == old_nodes[idx].score(),
                self.nodes@[idx].parent_index() == old_nodes[idx].parent_index(),
                forall|k: int|
                    0 <= k < i ==> {
                        let c = #[trigger] self.nodes@[len + k];
                        &&& c.position().wf()
                        &&& c.position()@ == play(g, squares@[k])
                        &&& c.parent_index() == idx
                        &&& c.visits() == 0
                        &&& c.score() == 0
                        &&& c.children().len() == 0
                    },
            decreases squares.len() - i,
        {
            let square = squares[i];
            let children = self.nodes.len();
            let mut game = *self.nodes[self.node_index].get_game();
            match game.place_mark(&square) {
                Ok(()) => {},
                Err(e) => {
                    return Err(MctsError::Game(e));
                },
            }
            self.nodes.push(Node::new(game, self.node_index));
            self.nodes[self.node_index].add_children(children);
            proof {
                assert(self.nodes@[idx].children() =~= Seq::new(
                    (i + 1) as nat,
                    |k: int| (len + k) as usize,
                ));
                assert(self.nodes@[len + i as int].position() == game);
            }
                i += 1;
        }
        proof {
            let n = self.nodes@;
            assert forall|a: int, k: int|
                0 <= a < n.len() && 0 <= k < n[a].children().len() implies a
                < #[trigger] n[a].children()[k] < n.len() && n[n[a].children()[k] as int].parent_index()
                == a by {
                if a < len && a != idx {
                    assert(n[a] == old_nodes[a]);
                    let c = old_nodes[a].children()[k] as int;
                    if c != idx {
                        assert(n[c] == old_nodes[c]);
                    }
                } else if a == idx {
                    assert(n[a].children()[k] == (len + k) as usize);
                    assert(n[len + k].parent_index() == idx);
                } else {
                    assert(n[len + (a - len)].children().len() == 0);
                }
            }
            assert(n[0] == old_nodes[0]);
            assert forall|a: int| 0 <= a < n.len() implies (#[trigger] n[a]).position().wf() && (a
                > 0 ==> n[a].parent_index() < a) && n[a].score() <= 2 * n[a].visits() by {
                if a < len && a != idx {
                    assert(n[a] == old_nodes[a]);
                } else if a >= len {
                    assert(n[len + (a - len)].visits() == 0);
                }
            }
            assert forall|a: int| 0 <= a < n.len() implies (#[trigger] n[a]).visits() <= n[0].visits() by {
                if a < len && a != idx {
                    assert(n[a] == old_nodes[a]);
                } else if a >= len {
                    assert(n[len + (a - len)].visits() == 0);
                }
            }
            assert forall|a: int| 0 < a < n.len() implies follows_move(
                n[(#[trigger] n[a]).parent_index() as int].position()@,
                n[a].position()@,
            ) by {
                if a < len {
                    let p = old_nodes[a].parent_index() as int;
                    assert(old_nodes[a] == old_nodes[a]);
                    if a != idx {
                        assert(n[a] == old_nodes[a]);
                    }
                    if p != idx {
                        assert(n[p] == old_nodes[p]);
                    }
                } else {
                    let k = a - len;
                    assert(n[len + k].parent_index() == idx);
                    lemma_follows_move(g, squares@[k]);
                }
            }
            assert forall|k: int| 0 <= k < self.square_map@.len() implies (#[trigger] n[n[0].children()[k] as int]).position()@
                == play(n[0].position()@, self.square_map@[k]) by {
                let c = old_nodes[0].children()[k] as int;
                assert(0 < c < len);
                if c == idx {
                    assert(n[c].position() == old_nodes[c].position());
                } else {
                    assert(n[c] == old_nodes[c]);
                }
            }
        }
        let chosen = choose_from(self.nodes[self.node_index].get_childrens().as_slice(), &mut self.random);
        match chosen {
            Some(index) => {
                self.node_index = index;
                Ok(())
            },
            None => Err(MctsError::ChildNodesIndexesSliceEmpty),
        }
    }

    /// Plays uniformly random legal moves from the current node's position until the game
    /// is decided, and records how it ended.
    pub fn simulate(&mut self) -> (r: Result<(), MctsError>)
        requires
            old(self).tree_wf(),
        ensures
            r is Ok,
            final(self).tree_wf(),
            final(self).arena() == old(self).arena(),
            final(self).current() == old(self).current(),
            final(self).root_moves() == old(self).root_moves(),
            exists|moves: Seq<Square>|
                all_legal(old(self).arena()[old(self).current()].position()@, moves) && play_all(
                    old(self).arena()[old(self).current()].position()@,
                    moves,
                ).outcome == Some(final(self).last_outcome()),
    {
        let mut game = *self.nodes[self.node_index].get_game();
        let ghost start = game@;
        let ghost mut moves: Seq<Square> = Seq::empty();
        assert(play_all(start, moves) == start);
        loop
            invariant
                game.wf(),
                all_legal(start, moves),
                play_all(start, moves) == game@,
                start == old(self).arena()[old(self).current()].position()@,
                self.nodes == old(self).nodes,
                self.node_index == old(self).node_index,
                self.square_map == old(self).square_map,
                old(self).tree_wf(),
            decreases empty_count(game@.board),
        {
            if let Some(outcome) = game.get_outcome() {
                self.outcome = *outcome;
                return Ok(());
            }
            let squares = game.get_empty_squares();
            proof {
                game.lemma_valid();
                lemma_legal_moves(game@.board);
            }
            let square = match choose_from(squares.as_slice(), &mut self.random) {
                Some(square) => square,
                None => {
                    return Err(MctsError::NoSquaresAvailable);
                },
            };
            proof {
                let j = choose|j: int| 0 <= j < squares@.len() && squares@[j] == square;
                assert(game@.board[squares@[j].index()] is None);
                lemma_play_valid(game@, square);
                lemma_play_all_push(start, moves, square);
                moves = moves.push(square);
            }
            match game.place_mark(&square) {
                Ok(()) => {},
                Err(e) => {
                    return Err(MctsError::Game(e));
                },
            }
        }
    }

    /// The move to the most visited child of the root; ties keep the child found first.
    pub fn choose_move(&self) -> (r: Result<Square, MctsError>)
        requires
            self.tree_wf(),
        ensures
            (r is Err) == (forall|k: int|
                0 <= k < self.root_moves().len() ==> #[trigger] self.root_child_visits(k) == 0),
            r is Err ==> r == Err::<Square, MctsError>(MctsError::UnableToChooseMove),
            r matches Ok(sq) ==> exists|k: int|
                0 <= k < self.root_moves().len() && self.root_moves()[k] == sq && (forall|l: int|
                    0 <= l < self.root_moves().len() ==> #[trigger] self.root_child_visits(l)
                        <= self.root_child_visits(k)) && (forall|l: int|
                    0 <= l < k ==> #[trigger] self.root_child_visits(l) < self.root_child_visits(
                        k,
                    )),
    {
        let mut playouts: u32 = 0;
        let mut best_square: Option<Square> = None;
        let ghost mut bk: int = 0;
        let children = self.nodes[ROOT_NODE].get_childrens();
        let mut k: usize = 0;
        while k < self.square_map.len()
            invariant
                self.tree_wf(),
                children@ == self.arena()[0].children(),
                k <= self.square_map.len(),
                best_square is None ==> playouts == 0 && forall|l: int|
                    0 <= l < k ==> #[trigger] self.root_child_visits(l) == 0,
                best_square is Some ==> 0 <= bk < k && best_square == Some(self.root_moves()[bk])
                    && playouts == self.root_child_visits(bk) && playouts > 0,
                forall|l: int| 0 <= l < k ==> #[trigger] self.root_child_visits(l) <= playouts,
                forall|l: int| 0 <= l < bk ==> #[trigger] self.root_child_visits(l) < playouts,
            decreases self.square_map.len() - k,
        {
            let index = children[k];
            let node_playouts = self.nodes[index].get_playouts();
            if playouts < node_playouts {
                playouts = node_playouts;
                best_square = Some(self.square_map[k]);
                proof {
                    bk = k as int;
                }
            }
            k += 1;
        }
        match best_square {
            Some(square) => Ok(square),
            None => Err(MctsError::UnableToChooseMove),
        }
    }

    /// Starts a fresh tree at `game`: the root and one child per legal move, in search order,
    /// then one playout from a child drawn at random.
    pub fn initialize(&mut self, game: &Game) -> (r: Result<(), MctsError>)
        requires
            game.wf(),
        ensures
            legal_moves(game@.board).len() == 0 ==> r == Err::<(), MctsError>(
                MctsError::ChildNodesIndexesSliceEmpty,
            ),
            legal_moves(game@.board).len() > 0 && game@.outcome is Some ==> r == Err::<
                (),
                MctsError,
            >(MctsError::Game(GameError::GameIsOver(game@.outcome->0))),
            legal_moves(game@.board).len() > 0 && game@.outcome is None ==> {
                &&& r is Ok
                &&& final(self).tree_wf()
                &&& final(self).arena()[0].position() == *game
                &&& final(self).root_moves() == legal_moves(game@.board)
                &&& final(self).arena()[0].visits() == 1
                &&& final(self).arena().len() == 1 + legal_moves(game@.board).len()
                &&& final(self).arena()[0].children() == Seq::new(
                    legal_moves(game@.board).len(),
                    |k: int| (1 + k) as usize,
                )
                &&& exists|c: int| #[trigger] final(self).only_visited_root_child(c)
            },
    {
        proof {
            game.lemma_valid();
            lemma_legal_moves(game@.board);
        }
        self.nodes.clear();
        self.nodes.push(Node::new(*game, usize::MAX));
        self.square_map.clear();
        let squares = game.get_empty_squares();
        let mut i: usize = 0;
        while i < squares.len()
            invariant
                game.wf(),
                i > 0 ==> game@.outcome is None,
                squares@ == legal_moves(game@.board),
                forall|j: int| 0 <= j < squares@.len() ==> game@.board[(#[trigger] squares@[j]).index()] is None,
                i <= squares.len(),
                self.nodes@.len() == 1 + i,
                self.square_map@ == squares@.take(i as int),
                self.nodes@[0].position() == *game,
                self.nodes@[0].visits() == 0,
                self.nodes@[0].score() == 0,
                self.nodes@[0].children() == Seq::new(i as nat, |k: int| (1 + k) as usize),
                forall|k: int|
                    0 <= k < i ==> {
                        let c = #[trigger] self.nodes@[1 + k];
                        &&& c.position().wf()
                        &&& c.position()@ == play(game@, squares@[k])
                        &&& c.parent_index() == 0
                        &&& c.visits() == 0
                        &&& c.score() == 0
                        &&& c.children().len() == 0
                    },
            decreases squares.len() - i,
        {
            let square = squares[i];
            let children = self.nodes.len();
            let mut game_clone = *game;
            match game_clone.place_mark(&square) {
                Ok(()) => {},
                Err(e) => {
                    return Err(MctsError::Game(e));
                },
            }
            self.nodes.push(Node::new(game_clone, ROOT_NODE));
            self.nodes[ROOT_NODE].add_children(children);
            self.square_map.push(square);
            proof {
                assert(self.nodes@[0].children() =~= Seq::new(
                    (i + 1) as nat,
                    |k: int| (1 + k) as usize,
                ));
                assert(self.square_map@ =~= squares@.take(i + 1));
                assert(self.nodes@[1 + i as int].position() == game_clone);
            }
            i += 1;
        }
        proof {
            assert(squares@.take(i as int) =~= squares@);
        }
        let chosen = choose_from(self.nodes[ROOT_NODE].get_childrens().as_slice(), &mut self.random);
        match chosen {
            Some(index) => {
                self.node_index = index;
            },
            None => {
                return Err(MctsError::ChildNodesIndexesSliceEmpty);
            },
        }
        proof {
            let n = self.nodes@;
            assert forall|a: int, k: int|
                0 <= a < n.len() && 0 <= k < n[a].children().len() implies a
                < #[trigger] n[a].children()[k] < n.len() && n[n[a].children()[k] as int].parent_index()
                == a by {
                if a == 0 {
                    assert(n[a].children()[k] == (1 + k) as usize);
                    assert(n[1 + k].parent_index() == 0);
                } else {
                    assert(n[1 + (a - 1)].children().len() == 0);
                }
            }
            assert forall|a: int| 0 <= a < n.len() implies (#[trigger] n[a]).position().wf() && (a
                > 0 ==> n[a].parent_index() < a) && n[a].score() <= 2 * n[a].visits()
                && n[a].visits() <= n[0].visits() by {
                if a > 0 {
                    assert(n[1 + (a - 1)].visits() == 0);
                }
            }
            assert forall|a: int| 0 < a < n.len() implies follows_move(
                n[(#[trigger] n[a]).parent_index() as int].position()@,
                n[a].position()@,
            ) by {
                let k = a - 1;
                assert(n[1 + k].parent_index() == 0);
                lemma_follows_move(game@, squares@[k]);
            }
            assert forall|k: int| 0 <= k < self.square_map@.len() implies (#[trigger] n[n[0].children()[k] as int]).position()@
                == play(n[0].position()@, self.square_map@[k]) by {
                assert(n[0].children()[k] == (1 + k) as usize);
                assert(n[1 + k].position()@ == play(game@, squares@[k]));
            }
        }
        let ghost start = self.node_index as int;
        assert(self.nodes@[start].visits() == 0);
        match self.simulate() {
            Ok(()) => {},
            Err(e) => {
                return Err(e);
            },
        }
        let ghost before = self.nodes@;
        self.backpropagate();
        proof {
            let c = start - 1;
            assert(0 <= c < self.root_moves().len());
            assert(before[start].parent_index() == 0);
            assert forall|k: int| 0 <= k < self.root_moves().len() implies #[trigger] self.root_child_visits(k)
                == if k == c {
                1nat
            } else {
                0nat
            } by {
                assert(self.arena()[0].children()[k] == (1 + k) as usize);
                assert(before[1 + k].visits() == 0);
                if k != c {
                    assert(!on_path(before, 0, 1 + k));
                    assert(!on_path(before, start, 1 + k));
                } else {
                    assert(on_path(before, start, start));
                }
            }
            assert(self.only_visited_root_child(c));
        }
        Ok(())
    }

    /// Runs the fixed number of rounds of select, expand, simulate and backpropagate.
    pub fn search<F>(&mut self, uct_greater: &F) -> (r: Result<(), MctsError>)
        where
            F: Fn((u32, u32), (u32, u32), u32) -> bool,
        requires
            old(self).tree_wf(),
            old(self).arena()[0].visits() + ROUNDS < VISIT_LIMIT,
            forall|a: (u32, u32), b: (u32, u32), n: u32| #[trigger] uct_greater.requires((a, b, n)),
            is_ranking(*uct_greater),
        ensures
            r is Ok,
            final(self).arena()[0].visits() == old(self).arena()[0].visits() + ROUNDS,
            final(self).tree_wf(),
            final(self).root_moves() == old(self).root_moves(),
            final(self).arena()[0].position() == old(self).arena()[0].position(),
            final(self).arena()[0].children() == old(self).arena()[0].children(),
            forall|k: int|
                0 <= k < old(self).root_moves().len() ==> #[trigger] final(self).root_child_visits(k)
                    >= old(self).root_child_visits(k),
    {
        let mut round: u32 = 0;
        while round < ROUNDS
            invariant
                self.tree_wf(),
                old(self).tree_wf(),
                round <= ROUNDS,
                self.arena()[0].visits() == old(self).arena()[0].visits() + round,
                old(self).arena()[0].visits() + ROUNDS < VISIT_LIMIT,
                self.root_moves() == old(self).root_moves(),
                self.arena()[0].position() == old(self).arena()[0].position(),
                self.arena()[0].children() == old(self).arena()[0].children(),
                forall|k: int|
                    0 <= k < old(self).root_moves().len() ==> #[trigger] self.root_child_visits(k)
                        >= old(self).root_child_visits(k),
                forall|a: (u32, u32), b: (u32, u32), n: u32| #[trigger] uct_greater.requires((a, b, n)),
                is_ranking(*uct_greater),
            decreases ROUNDS - round,
        {
            let ghost before = self.arena();
            let ghost pre = *self;
            self.select(uct_greater);
            let ghost selected = self.arena();
            let ghost sel_idx = self.current();
            match self.expand() {
                Ok(()) => {},
                Err(e) => {
                    return Err(e);
                },
            }
            proof {
                assert forall|k: int| 0 <= k < old(self).root_moves().len() implies #[trigger] self.root_child_visits(k)
                    >= old(self).root_child_visits(k) by {
                    let c = before[0].children()[k] as int;
                    assert(0 < c < before.len());
                    assert(sel_idx != 0);
                    assert(self.arena()[0] == selected[0]);
                    if c != sel_idx {
                        assert(self.arena()[c] == selected[c]);
                    }
                    assert(pre.root_child_visits(k) >= old(self).root_child_visits(k));
                    assert(self.root_child_visits(k) == pre.root_child_visits(k));
                }
            }
            let ghost expanded = self.arena();
            let ghost mid = *self;
            match self.simulate() {
                Ok(()) => {},
                Err(e) => {
                    return Err(e);
                },
            }
            self.backpropagate();
            proof {
                assert forall|k: int| 0 <= k < old(self).root_moves().len() implies #[trigger] self.root_child_visits(k)
                    >= old(self).root_child_visits(k) by {
                    let c = expanded[0].children()[k] as int;
                    assert(self.arena()[c].visits() >= expanded[c].visits());
                    assert(mid.root_child_visits(k) >= old(self).root_child_visits(k));
                }
            }
            round += 1;
        }
        Ok(())
    }

    pub fn mcts<F>(&mut self, game: &Game, uct_greater: &F) -> (r: Result<Square, MctsError>)
        where
            F: Fn((u32, u32), (u32, u32), u32) -> bool,
        requires
            game.wf(),
            forall|a: (u32, u32), b: (u32, u32), n: u32| #[trigger] uct_greater.requires((a, b, n)),
            is_ranking(*uct_greater),
        ensures
            legal_moves(game@.board).len() == 0 ==> r == Err::<Square, MctsError>(
                MctsError::ChildNodesIndexesSliceEmpty,
            ),
            legal_moves(game@.board).len() > 0 && game@.outcome is Some ==> r == Err::<
                Square,
                MctsError,
            >(MctsError::Game(GameError::GameIsOver(game@.outcome->0))),
            legal_moves(game@.board).len() > 0 && game@.outcome is None ==> (r matches Ok(sq)
                && final(self).tree_wf() && final(self).arena()[0].position() == *game
                && final(self).root_moves() == legal_moves(game@.board)
                && final(self).arena()[0].visits() == 1 + ROUNDS && exists|k: int|
                0 <= k < final(self).root_moves().len() && final(self).root_moves()[k] == sq && (
                forall|l: int|
                    0 <= l < final(self).root_moves().len() ==> #[trigger] final(self).root_child_visits(l) <= final(self).root_child_visits(k)) && (forall|l: int|
                    0 <= l < k ==> #[trigger] final(self).root_child_visits(l) < final(self).root_child_visits(k))),
    {
        match self.initialize(game) {
            Ok(()) => {},
            Err(e) => {
                return Err(e);
            },
        }
        let ghost init = *self;
        match self.search(uct_greater) {
            Ok(()) => {},
            Err(e) => {
                return Err(e);
            },
        }
        proof {
            let k = choose|k: int| #[trigger] init.only_visited_root_child(k);
            assert(init.root_child_visits(k) > 0);
            assert(self.root_child_visits(k) > 0);
        }
        self.choose_move()
    }

    /// The most visited first move after a fresh search from `game`. `uct_greater` ranks two
    /// children during selection, as `select` describes.
    pub fn get_move<F>(&mut self, game: &Game, uct_greater: &F) -> (r: Result<Square, MctsError>)
        where
            F: Fn((u32, u32), (u32, u32), u32) -> bool,
        requires
            game.wf(),
            forall|a: (u32, u32), b: (u32, u32), n: u32| #[trigger] uct_greater.requires((a, b, n)),
            is_ranking(*uct_greater),
        ensures
            legal_moves(game@.board).len() == 0 ==> r == Err::<Square, MctsError>(
                MctsError::ChildNodesIndexesSliceEmpty,
            ),
            legal_moves(game@.board).len() > 0 && game@.outcome is Some ==> r == Err::<
                Square,
                MctsError,
            >(MctsError::Game(GameError::GameIsOver(game@.outcome->0))),
            legal_moves(game@.board).len() > 0 && game@.outcome is None ==> (r matches Ok(sq)
                && legal_moves(game@.board).contains(sq) && final(self).arena()[0].visits() == 1
                + ROUNDS && final(self).root_moves() == legal_moves(game@.board) && exists|k: int|
                0 <= k < final(self).root_moves().len() && final(self).root_moves()[k] == sq && (
                forall|l: int|
                    0 <= l < final(self).root_moves().len() ==> #[trigger] final(self).root_child_visits(l) <= final(self).root_child_visits(k)) && (forall|l: int|
                    0 <= l < k ==> #[trigger] final(self).root_child_visits(l) < final(self).root_child_visits(k))),
    {
        self.mcts(game, uct_greater)
    }
}

/// In an arena whose parents stand before their children, every node reaches the root.
proof fn lemma_reaches_root(nodes: Seq<Node>, i: int)
    requires
        0 <= i < nodes.len(),
        forall|j: int| 0 < j < nodes.len() ==> (#[trigger] nodes[j]).parent_index() < j,
    ensures
        on_path(nodes, i, 0),
    decreases i,
{
    if i > 0 {
        lemma_reaches_root(nodes, nodes[i].parent_index() as int);
    }
}

proof fn lemma_on_path_trans(nodes: Seq<Node>, a: int, b: int, c: int)
    requires
        on_path(nodes, a, b),
        on_path(nodes, b, c),
    ensures
        on_path(nodes, a, c),
    decreases a,
{
    if a != b {
        lemma_on_path_trans(nodes, nodes[a].parent_index() as int, b, c);
    }
}

} // verus!
