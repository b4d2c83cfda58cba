//! Monte-Carlo tree search: the tree of positions tried so far grows by one
//! node with each search, which plays a random game from the new node and
//! counts its result on the way back to the root.
use vstd::prelude::*;
use crate::ai::AI;
use crate::general::board::Board;
use crate::general::piece::PlayerOrder;
use rand::Rng;
use std::marker::PhantomData;
use std::time::Instant;

verus! {

/// `rand::rngs::ThreadRng`, the random number generator of the thread: a
/// value that is carried along and handed to `random_range`. Nothing is
/// known of what is in it.
#[verifier::external_type_specification]
#[verifier::external_body]
pub struct ExThreadRng(rand::rngs::ThreadRng);

/// `std::time::Instant`, a reading of the clock: a value that is carried
/// along and handed to `elapsed`. Nothing is known of what is in it.
#[verifier::external_type_specification]
#[verifier::external_body]
pub struct ExInstant(std::time::Instant);

/// `rand::rng`: the generator of the thread. Nothing is said of it.
#[verifier::external_body]
fn thread_rng() -> rand::rngs::ThreadRng {
    rand::rng()
}

/// `Rng::random_range` on `0..n`: some number below `n`. The range must not
/// be empty.
#[verifier::external_body]
fn random_below(rng: &mut rand::rngs::ThreadRng, n: usize) -> (r: usize)
    requires
        n > 0,
    ensures
        r < n,
{
    rng.random_range(0..n)
}

/// `Instant::now`: the time of the call. Nothing is said of it.
#[verifier::external_body]
fn now() -> Instant {
    Instant::now()
}

/// `Instant::elapsed`: the time since `start`. Nothing is said of it.
#[verifier::external_body]
fn elapsed(start: &Instant) -> core::time::Duration {
    start.elapsed()
}

/// `Duration::as_millis`: the whole milliseconds of `d`. Nothing is said of
/// them.
#[verifier::external_body]
fn whole_millis(d: &core::time::Duration) -> u128 {
    d.as_millis()
}

/// What a selection policy is told of a child: how often it was visited,
/// and twice the wins of the first player counted there (a draw is half a
/// win).
pub type ChildStats = (u32, u64);

/// A node of the search tree.
pub struct MCTSNode<B: Board> {
    visit_count: u32,
    win_count: u64,
    all_move: Vec<B::S>,
    sons: Vec<Option<usize>>,
    son_num: usize,
    unselected_son_num: usize,
}

impl<B: Board> MCTSNode<B> {
    /// A node for `board`, not yet visited, with none of its steps tried.
    fn new(board: &B) -> (n: Self)
        requires
            B::valid(board@),
        ensures
            n.visit_count == 0,
            n.win_count == 0,
            n.all_move@ == B::moves(board@),
            forall|i: int| 0 <= i < n.all_move.len() ==> B::legal(board@, #[trigger] n.all_move[i]),
            n.sons.len() == n.all_move.len(),
            n.son_num == n.all_move.len(),
            n.unselected_son_num == n.all_move.len(),
            forall|i: int| 0 <= i < n.sons.len() ==> (#[trigger] n.sons[i]) is None,
    {
        let all_move = board.all_move();
        let len = all_move.len();
        let mut sons: Vec<Option<usize>> = Vec::new();
        let mut i: usize = 0;
        while i < len
            invariant
                i <= len,
                sons.len() == i,
                forall|k: int| 0 <= k < i ==> (#[trigger] sons[k]) is None,
            decreases len - i,
        {
            sons.push(None);
            i += 1;
        }
        MCTSNode { visit_count: 0, win_count: 0, all_move, sons, son_num: len, unselected_son_num: len }
    }
}

/// One search tree, for one position.
pub struct MCTS<B: Board> {
    board: B,
    nodes: Vec<MCTSNode<B>>,
    root: usize,
    rng: rand::rngs::ThreadRng,
    positions: Ghost<Seq<B::V>>,
    up: Ghost<Seq<int>>,
}

/// Twice what a finished game counts for the first player.
pub open spec fn outcome(winner: Option<PlayerOrder>) -> nat {
    match winner {
        Some(PlayerOrder::First) => 2,
        Some(PlayerOrder::Second) => 0,
        None => 1,
    }
}

/// The child that the final choice takes among the first `k`: the one
/// visited most often, and of those the first. No child that was never
/// visited is taken; where there is none, the choice is child 0.
pub open spec fn best_child(visits: Seq<nat>, k: nat) -> (int, nat)
    decreases k,
{
    if k == 0 {
        (0, 0)
    } else {
        let (index, best) = best_child(visits, (k - 1) as nat);
        if k <= visits.len() && visits[k - 1] > best {
            (k - 1, visits[k - 1])
        } else {
            (index, best)
        }
    }
}

pub proof fn lemma_best_child(visits: Seq<nat>, k: nat)
    requires
        k <= visits.len(),
    ensures
        0 <= best_child(visits, k).0,
        k > 0 ==> best_child(visits, k).0 < k,
        forall|i: int| 0 <= i < k ==> visits[i] <= best_child(visits, k).1,
        best_child(visits, k).1 > 0 ==> visits[best_child(visits, k).0] == best_child(visits, k).1,
    decreases k,
{
    if k > 0 {
        lemma_best_child(visits, (k - 1) as nat);
    }
}

impl<B: Board> MCTS<B> {
    pub closed spec fn node_count(&self) -> nat {
        self.nodes.len() as nat
    }

    /// How often node `n` was visited.
    pub closed spec fn visits(&self, n: int) -> nat {
        self.nodes[n].visit_count as nat
    }

    /// Twice the wins of the first player counted at node `n`.
    pub closed spec fn wins(&self, n: int) -> nat {
        self.nodes[n].win_count as nat
    }

    /// The steps at node `n`.
    pub closed spec fn steps(&self, n: int) -> Seq<B::S> {
        self.nodes[n].all_move@
    }

    /// The node that the `i`-th step of node `n` leads to, once it was tried.
    pub closed spec fn child(&self, n: int, i: int) -> Option<int> {
        match self.nodes[n].sons[i] {
            Some(c) => Some(c as int),
            None => None,
        }
    }

    /// The number of steps of node `n` that were not tried yet.
    pub closed spec fn pending(&self, n: int) -> nat {
        self.nodes[n].unselected_son_num as nat
    }

    /// The position of node `n`.
    pub closed spec fn position(&self, n: int) -> B::V {
        self.positions@[n]
    }

    /// The visits of the children of the root, in the order of its steps;
    /// 0 for a step not tried.
    pub open spec fn root_visits(&self) -> Seq<nat> {
        Seq::new(
            self.steps(0).len(),
            |i: int|
                match self.child(0, i) {
                    Some(c) => self.visits(c),
                    None => 0nat,
                },
        )
    }

    /// Node `c` is reached from node `n` by one of its steps.
    pub open spec fn is_child(&self, n: int, c: int) -> bool {
        exists|i: int| 0 <= i < self.steps(n).len() && #[trigger] self.child(n, i) == Some(c)
    }

    /// A way down the tree: from the root, each node a child of the one
    /// before it.
    pub open spec fn way(&self, path: Seq<int>) -> bool {
        &&& path.len() >= 1
        &&& path[0] == 0
        &&& forall|k: int| 0 <= k < path.len() ==> 0 <= #[trigger] path[k] < self.node_count()
        &&& forall|k: int| 1 <= k < path.len() ==> self.is_child(path[k - 1], #[trigger] path[k])
    }

    /// What holds of every node but, while a search is under way, of the
    /// counts of the node `fresh` that it has just made.
    closed spec fn node_ok(&self, n: int, fresh: int) -> bool {
        let node = self.nodes[n];
        &&& B::valid(self.positions@[n])
        &&& node.all_move@ == B::moves(self.positions@[n])
        &&& forall|i: int| 0 <= i < node.all_move.len() ==> B::legal(self.positions@[n], #[trigger] node.all_move[i])
        &&& node.sons.len() == node.all_move.len()
        &&& node.son_num == node.all_move.len()
        &&& node.unselected_son_num <= node.son_num
        &&& forall|i: int|
            0 <= i < node.sons.len() ==> ((#[trigger] node.sons[i]) is Some <==> i < node.son_num
                - node.unselected_son_num)
        &&& node.visit_count <= self.nodes[0].visit_count
        &&& node.win_count <= 2 * node.visit_count
        &&& (n > 0 && n != fresh ==> node.visit_count >= 1)
        &&& (n > 0 ==> 0 <= self.up@[n] < n && exists|i: int|
            0 <= i < self.nodes[self.up@[n]].sons.len() && #[trigger] self.nodes[self.up@[n]].sons[i] == Some(
                n as usize,
            ))
        &&& forall|i: int|
            0 <= i < node.sons.len() && (#[trigger] node.sons[i]) is Some ==> self.edge_ok(n, i)
    }

    /// The `i`-th step of node `n` leads to a later node, whose position it
    /// gives and which was not visited more often than `n`.
    closed spec fn edge_ok(&self, n: int, i: int) -> bool {
        let c = self.nodes[n].sons[i].unwrap() as int;
        &&& n < c < self.nodes.len()
        &&& self.up@[c] == n
        &&& self.positions@[c] == B::next(self.positions@[n], self.nodes[n].all_move[i])
        &&& self.nodes[c].visit_count <= self.nodes[n].visit_count
    }

    closed spec fn shape(&self, fresh: int) -> bool {
        &&& self.nodes.len() >= 1
        &&& self.root == 0
        &&& self.positions@.len() == self.nodes.len()
        &&& self.up@.len() == self.nodes.len()
        &&& self.positions@[0] == self.board@
        &&& self.up@[0] == -1
        &&& forall|n: int| 0 <= n < self.nodes.len() ==> #[trigger] self.node_ok(n, fresh)
    }

    /// The invariant of the search tree.
    pub closed spec fn inv(&self) -> bool {
        self.shape(-1)
    }

    /// What the invariant says to the outside: node 0 is the root, for the
    /// position searched; the steps of a node are those of its position,
    /// tried from the first on; a child comes after its parent, holds the
    /// position that the step gives, was visited at least once and not
    /// more often than its parent.
    #[verifier::spinoff_prover]
    pub proof fn lemma_inv(&self)
        requires
            self.inv(),
        ensures
            self.node_count() >= 1,
            forall|n: int|
                0 <= n < self.node_count() ==> #[trigger] self.steps(n) == B::moves(self.position(n)) && B::valid(
                    self.position(n),
                ) && self.pending(n) <= self.steps(n).len() && self.wins(n) <= 2 * self.visits(n),
            forall|n: int, i: int|
                0 <= n < self.node_count() && 0 <= i < self.steps(n).len() ==> ((#[trigger] self.child(n, i)) is Some
                    <==> i < self.steps(n).len() - self.pending(n)),
            forall|n: int, i: int|
                0 <= n < self.node_count() && 0 <= i < self.steps(n).len() && (#[trigger] self.child(n, i)) is Some
                    ==> {
                    let c = self.child(n, i).unwrap();
                    &&& n < c < self.node_count()
                    &&& self.position(c) == B::next(self.position(n), self.steps(n)[i])
                    &&& 1 <= self.visits(c) <= self.visits(n)
                },
    {
        assert forall|n: int| 0 <= n < self.node_count() implies #[trigger] self.steps(n) == B::moves(self.position(n))
            && B::valid(self.position(n)) && self.pending(n) <= self.steps(n).len() && self.wins(n) <= 2
            * self.visits(n) by {
            assert(self.node_ok(n, -1));
        }
        assert forall|n: int, i: int| 0 <= n < self.node_count() && 0 <= i < self.steps(n).len() implies ((
        #[trigger] self.child(n, i)) is Some <==> i < self.steps(n).len() - self.pending(n)) by {
            assert(self.node_ok(n, -1));
            assert(self.nodes[n].sons[i] is Some <==> i < self.nodes[n].son_num - self.nodes[n].unselected_son_num);
        }
        assert forall|n: int, i: int|
            0 <= n < self.node_count() && 0 <= i < self.steps(n).len() && (#[trigger] self.child(n, i)) is Some implies {
            let c = self.child(n, i).unwrap();
            &&& n < c < self.node_count()
            &&& self.position(c) == B::next(self.position(n), self.steps(n)[i])
            &&& 1 <= self.visits(c) <= self.visits(n)
        } by {
            assert(self.node_ok(n, -1));
            assert(self.nodes[n].sons[i] is Some);
            assert(self.edge_ok(n, i));
            let c = self.child(n, i).unwrap();
            assert(self.node_ok(c, -1));
        }
    }

    /// A search tree for `board`, with the root alone.
    pub fn new(board: B) -> (m: Self)
        requires
            B::valid(board@),
        ensures
            m.inv(),
            m.node_count() == 1,
            m.position(0) == board@,
            m.visits(0) == 0,
            m.steps(0) == B::moves(board@),
            m.pending(0) == B::moves(board@).len(),
    {
        let mut nodes: Vec<MCTSNode<B>> = Vec::new();
        nodes.push(MCTSNode::new(&board));
        let ghost positions = Seq::empty().push(board@);
        let ghost up = Seq::empty().push(-1int);
        let m = MCTS { board, nodes, root: 0, rng: thread_rng(), positions: Ghost(positions), up: Ghost(up) };
        proof {
            assert(m.node_ok(0, -1));
        }
        m
    }
}


/// The policy can be called with what a selection hands it: the visits of
/// the parent, which are at least 1, the counts of its children, of which
/// there is at least one and each was visited at least once, and the player
/// to move at the parent.
pub open spec fn policy_ready<F: Fn(u32, Vec<ChildStats>, PlayerOrder) -> usize>(select: &F) -> bool {
    forall|n: u32, stats: Vec<ChildStats>, player: PlayerOrder|
        n >= 1 && stats.len() > 0 && (forall|i: int| 0 <= i < stats.len() ==> (#[trigger] stats[i]).0 >= 1)
            ==> call_requires(*select, (n, stats, player))
}

/// The position after `steps` are played from `v`, each of them legal
/// where it is played.
pub open spec fn played<B: Board>(v: B::V, steps: Seq<B::S>) -> Option<B::V>
    decreases steps.len(),
{
    if steps.len() == 0 {
        Some(v)
    } else {
        match played::<B>(v, steps.drop_last()) {
            Some(u) => if B::legal(u, steps.last()) {
                Some(B::next(u, steps.last()))
            } else {
                None
            },
            None => None,
        }
    }
}

/// `w` is reached from `v` by legal steps.
pub open spec fn reached<B: Board>(v: B::V, w: B::V) -> bool {
    exists|steps: Seq<B::S>| #[trigger] played::<B>(v, steps) == Some(w)
}

/// A game that has been played out: no step is left, because the game has
/// ended or for want of a legal step.
pub open spec fn over<B: Board>(v: B::V) -> bool {
    B::ended(v) || B::moves(v).len() == 0
}

/// Plays random steps from `board`, each one of those that `all_move`
/// lists, until the game has ended or no step is left.
pub fn rollout<B: Board>(board: B, rng: &mut rand::rngs::ThreadRng) -> (end: B)
    requires
        B::valid(board@),
    ensures
        B::valid(end@),
        over::<B>(end@),
        reached::<B>(board@, end@),
{
    let ghost start = board@;
    let ghost mut steps: Seq<B::S> = Seq::empty();
    let mut board = board;
    while !board.end_game()
        invariant
            B::valid(board@),
            played::<B>(start, steps) == Some(board@),
        ensures
            B::valid(board@),
            over::<B>(board@),
            played::<B>(start, steps) == Some(board@),
        decreases B::horizon(board@),
    {
        let all_move = board.all_move();
        if all_move.len() == 0 {
            break ;
        }
        let num = random_below(rng, all_move.len());
        proof {
            let before = steps;
            steps = steps.push(all_move[num as int]);
            assert(steps.drop_last() =~= before);
        }
        board = board.try_move(all_move[num]).unwrap();
    }
    board
}

impl<B: Board> MCTS<B> {
    /// The way of a search: from the root, each node the child of the one
    /// before it.
    closed spec fn path_ok(&self, path: Seq<usize>) -> bool {
        &&& path.len() >= 1
        &&& path[0] == 0
        &&& forall|k: int| 0 <= k < path.len() ==> (#[trigger] path[k]) < self.nodes.len()
        &&& forall|k: int| 1 <= k < path.len() ==> self.up@[(#[trigger] path[k]) as int] == path[k - 1]
    }

    /// What the policy is told of the children of node `n`, in the order of
    /// the steps: the visits of each child and twice the wins counted there.
    closed spec fn child_stats(&self, n: int) -> Seq<ChildStats> {
        Seq::new(
            self.nodes[n].sons.len() as nat,
            |i: int|
                (
                    self.nodes[self.nodes[n].sons[i].unwrap() as int].visit_count,
                    self.nodes[self.nodes[n].sons[i].unwrap() as int].win_count,
                ),
        )
    }

    /// The policy, told the visits of node `n`, the counts `stats` of its
    /// children and the player to move there, can give `answer`.
    closed spec fn answered<F: Fn(u32, Vec<ChildStats>, PlayerOrder) -> usize>(
        &self,
        n: int,
        active_player: PlayerOrder,
        policy: &F,
        stats: Vec<ChildStats>,
        answer: usize,
    ) -> bool {
        &&& stats@ == self.child_stats(n)
        &&& call_ensures(*policy, (self.nodes[n].visit_count, stats, active_player), answer)
    }

    /// The child that an answer of the policy stands for: the child it
    /// names, or the first child where it names none.
    pub open spec fn choice(answer: usize, son_num: usize) -> usize {
        if answer < son_num {
            answer
        } else {
            0
        }
    }

    /// Asks the policy for a child of `current`, all of whose steps were
    /// tried: the policy is told the visits of `current`, the counts of its
    /// children and the player to move. An answer that names no child
    /// counts as the first child.
    fn select<F: Fn(u32, Vec<ChildStats>, PlayerOrder) -> usize>(
        &self,
        current: usize,
        active_player: PlayerOrder,
        policy: &F,
    ) -> (index: usize)
        requires
            self.inv(),
            policy_ready(policy),
            current < self.nodes.len(),
            self.nodes[current as int].unselected_son_num == 0,
            self.nodes[current as int].son_num > 0,
        ensures
            index < self.nodes[current as int].son_num,
            exists|stats: Vec<ChildStats>, answer: usize|
                #[trigger] self.answered(current as int, active_player, policy, stats, answer) && index
                    == Self::choice(answer, self.nodes[current as int].son_num),
    {
        proof {
            assert(self.node_ok(current as int, -1));
        }
        let son_num = self.nodes[current].son_num;
        let mut stats: Vec<ChildStats> = Vec::new();
        let mut i: usize = 0;
        while i < son_num
            invariant
                i <= son_num,
                self.inv(),
                current < self.nodes.len(),
                self.nodes[current as int].unselected_son_num == 0,
                son_num == self.nodes[current as int].son_num,
                stats.len() == i,
                son_num == self.nodes[current as int].sons.len(),
                stats@ == self.child_stats(current as int).take(i as int),
                forall|k: int| 0 <= k < i ==> 1 <= (#[trigger] stats[k]).0 <= self.nodes[current as int].visit_count,
            decreases son_num - i,
        {
            proof {
                assert(self.node_ok(current as int, -1));
                assert(self.nodes[current as int].sons[i as int] is Some);
                assert(self.edge_ok(current as int, i as int));
                assert(self.node_ok(self.nodes[current as int].sons[i as int].unwrap() as int, -1));
            }
            let nd = self.nodes[current].sons[i].unwrap();
            stats.push((self.nodes[nd].visit_count, self.nodes[nd].win_count));
            proof {
                assert(stats@ =~= self.child_stats(current as int).take(i + 1));
            }
            i += 1;
        }
        assert(stats[0].0 >= 1);
        let ghost told = stats;
        proof {
            assert(self.child_stats(current as int).take(son_num as int) =~= self.child_stats(current as int));
        }
        let answer = policy(self.nodes[current].visit_count, stats, active_player);
        proof {
            assert(self.answered(current as int, active_player, policy, told, answer));
        }
        if answer < son_num {
            answer
        } else {
            0
        }
    }

    /// Goes down from the root while every step of the node was tried,
    /// each time to the child that the policy names.
    fn descend<F: Fn(u32, Vec<ChildStats>, PlayerOrder) -> usize>(&self, policy: &F) -> (r: (Vec<usize>, B))
        requires
            self.inv(),
            policy_ready(policy),
        ensures
            self.path_ok(r.0@),
            r.1@ == self.positions@[r.0@.last() as int],
            self.nodes[r.0@.last() as int].unselected_son_num > 0 || self.nodes[r.0@.last() as int].son_num == 0,
            r.0@.len() > 1 ==> self.nodes[0].unselected_son_num == 0,
    {
        let mut board = self.board.duplicate();
        let mut current = self.root;
        let mut node_path: Vec<usize> = Vec::new();
        node_path.push(current);
        while self.nodes[current].unselected_son_num == 0
            invariant
                self.inv(),
                policy_ready(policy),
                self.path_ok(node_path@),
                current == node_path@.last(),
                current < self.nodes.len(),
                board@ == self.positions@[current as int],
                node_path@.len() > 1 ==> self.nodes[0].unselected_son_num == 0,
            ensures
                self.path_ok(node_path@),
                current == node_path@.last(),
                board@ == self.positions@[current as int],
                self.nodes[current as int].unselected_son_num > 0 || self.nodes[current as int].son_num == 0,
                node_path@.len() > 1 ==> self.nodes[0].unselected_son_num == 0,
            decreases self.nodes.len() - current,
        {
            proof {
                assert(self.node_ok(current as int, -1));
            }
            if self.nodes[current].son_num == 0 {
                break ;
            }
            let index = self.select(current, board.get_active_player(), policy);
            proof {
                assert(self.nodes[current as int].sons[index as int] is Some);
                assert(self.edge_ok(current as int, index as int));
            }
            board = board.try_move(self.nodes[current].all_move[index]).unwrap();
            let ghost before = node_path@;
            current = self.nodes[current].sons[index].unwrap();
            node_path.push(current);
            proof {
                assert forall|k: int| 1 <= k < node_path@.len() implies self.up@[(#[trigger] node_path@[k]) as int]
                    == node_path@[k - 1] by {
                    if k < before.len() {
                        assert(node_path@[k] == before[k]);
                    }
                }
            }
        }
        (node_path, board)
    }

    /// Tries the first step of `current` that was not tried: a new node is
    /// made for the position it gives.
    fn expand(&mut self, current: usize, board: B) -> (r: (usize, B))
        requires
            old(self).inv(),
            current < old(self).nodes.len(),
            old(self).nodes[current as int].unselected_son_num > 0,
            board@ == old(self).positions@[current as int],
        ensures
            final(self).shape(r.0 as int),
            r.0 == old(self).nodes.len(),
            final(self).nodes.len() == old(self).nodes.len() + 1,
            final(self).up@[r.0 as int] == current,
            final(self).up@.take(old(self).nodes.len() as int) == old(self).up@,
            B::valid(r.1@),
            final(self).positions@[r.0 as int] == r.1@,
            final(self).nodes[0].visit_count == old(self).nodes[0].visit_count,
            final(self).nodes[current as int].unselected_son_num == old(self).nodes[current as int].unselected_son_num
                - 1,
            current != 0 ==> final(self).nodes[0].unselected_son_num == old(self).nodes[0].unselected_son_num,
            final(self).positions@[0] == old(self).positions@[0],
            final(self).nodes[0].all_move@ == old(self).nodes[0].all_move@,
            final(self).positions@.take(old(self).nodes.len() as int) == old(self).positions@,
            final(self).nodes[r.0 as int].visit_count == 0,
            final(self).nodes[r.0 as int].win_count == 0,
            forall|n: int|
                0 <= n < old(self).nodes.len() ==> {
                    let a = #[trigger] final(self).nodes[n];
                    let b = old(self).nodes[n];
                    &&& a.visit_count == b.visit_count
                    &&& a.win_count == b.win_count
                    &&& a.all_move == b.all_move
                    &&& a.sons.len() == b.sons.len()
                    &&& forall|i: int| 0 <= i < b.sons.len() && (#[trigger] b.sons[i]) is Some ==> a.sons[i] == b.sons[i]
                },
    {
        proof {
            assert(self.node_ok(current as int, -1));
        }
        let son_num = self.nodes[current].son_num;
        let mut i: usize = 0;
        while i < son_num && self.nodes[current].sons[i].is_some()
            invariant
                i <= son_num,
                *self == *old(self),
                self.inv(),
                current < self.nodes.len(),
                son_num == self.nodes[current as int].son_num,
                son_num == self.nodes[current as int].sons.len(),
                self.nodes[current as int].unselected_son_num > 0,
                forall|k: int| 0 <= k < i ==> (#[trigger] self.nodes[current as int].sons[k]) is Some,
            decreases son_num - i,
        {
            proof {
                assert(self.node_ok(current as int, -1));
            }
            i += 1;
        }
        proof {
            assert(self.node_ok(current as int, -1));
            if i == son_num {
                assert(self.nodes[current as int].sons[son_num - 1] is Some);
            }
            assert(self.nodes[current as int].sons[i as int] is None);
            if i > 0 {
                assert(self.nodes[current as int].sons[i - 1] is Some);
            }
            assert(i == son_num - self.nodes[current as int].unselected_son_num);
        }
        let board = board.try_move(self.nodes[current].all_move[i]).unwrap();
        let node = MCTSNode::new(&board);
        let new_node = self.nodes.len();
        let ghost old_self = *self;
        let ghost step = self.nodes[current as int].all_move[i as int];
        self.nodes.push(node);
        self.nodes[current].unselected_son_num -= 1;
        self.nodes[current].sons[i] = Some(new_node);
        proof {
            self.positions@ = self.positions@.push(board@);
            self.up@ = self.up@.push(current as int);
            assert(self.up@.take(old_self.nodes.len() as int) =~= old_self.up@);
            assert(self.positions@.take(old_self.nodes.len() as int) =~= old_self.positions@);
            assert forall|n: int| 0 <= n < self.nodes.len() implies #[trigger] self.node_ok(n, new_node as int) by {
                if n == new_node {
                    assert(self.nodes[current as int].sons[i as int] == Some(n as usize));
                    assert(self.node_ok(n, new_node as int));
                } else {
                    assert(old_self.node_ok(n, -1));
                    if n != current {
                        assert(self.nodes[n] == old_self.nodes[n]);
                    }
                    if n > 0 {
                        let p = old_self.up@[n];
                        let e = choose|e: int|
                            0 <= e < old_self.nodes[p].sons.len() && #[trigger] old_self.nodes[p].sons[e] == Some(
                                n as usize,
                            );
                        assert(self.nodes[p].sons[e] == Some(n as usize));
                    }
                    assert forall|e: int|
                        0 <= e < self.nodes[n].sons.len() && (#[trigger] self.nodes[n].sons[e]) is Some implies self.edge_ok(
                        n,
                        e,
                    ) by {
                        if n == current && e == i {
                            assert(self.edge_ok(n, e));
                        } else {
                            assert(old_self.nodes[n].sons[e] is Some);
                            assert(old_self.edge_ok(n, e));
                            let c = old_self.nodes[n].sons[e].unwrap() as int;
                            assert(self.nodes[c].visit_count == old_self.nodes[c].visit_count);
                        }
                    }
                    let node = self.nodes[n];
                    assert forall|k: int| 0 <= k < node.sons.len() implies ((#[trigger] node.sons[k]) is Some <==> k
                        < node.son_num - node.unselected_son_num) by {
                        if n == current && k == i {
                        } else {
                            assert(node.sons[k] == old_self.nodes[n].sons[k]);
                        }
                    }
                }
            }
        }
        (new_node, board)
    }

    /// Counts a visit and the result at every node of the way.
    fn backpropagate(&mut self, node_path: &Vec<usize>, win_count: u64, Ghost(fresh): Ghost<int>)
        requires
            old(self).shape(fresh),
            old(self).path_ok(node_path@),
            fresh == -1 || node_path@.last() == fresh,
            old(self).nodes[0].visit_count < u32::MAX,
            win_count <= 2,
        ensures
            final(self).inv(),
            final(self).nodes.len() == old(self).nodes.len(),
            final(self).nodes[0].visit_count == old(self).nodes[0].visit_count + 1,
            final(self).nodes[0].unselected_son_num == old(self).nodes[0].unselected_son_num,
            final(self).positions@[0] == old(self).positions@[0],
            final(self).nodes[0].all_move@ == old(self).nodes[0].all_move@,
            final(self).positions == old(self).positions,
            final(self).path_ok(node_path@),
            forall|n: int|
                0 <= n < final(self).nodes.len() ==> {
                    let a = #[trigger] final(self).nodes[n];
                    let b = old(self).nodes[n];
                    &&& a.all_move == b.all_move
                    &&& a.sons == b.sons
                    &&& a.visit_count == b.visit_count + (if node_path@.contains(n as usize) {
                        1int
                    } else {
                        0int
                    })
                    &&& (a.visit_count == b.visit_count && a.win_count == b.win_count || a.visit_count
                        == b.visit_count + 1 && a.win_count == b.win_count + win_count)
                    &&& (n == fresh ==> a.visit_count == b.visit_count + 1)
                    &&& (n == node_path@.last() ==> a.visit_count == b.visit_count + 1)
                },
    {
        let ghost before = *self;
        let ghost path = node_path@;
        let mut k: usize = 0;
        while k < node_path.len()
            invariant
                k <= node_path.len(),
                path == node_path@,
                before.shape(fresh),
                before.path_ok(path),
                fresh == -1 || path.last() == fresh,
                before.nodes[0].visit_count < u32::MAX,
                win_count <= 2,
                self.nodes.len() == before.nodes.len(),
                self.board == before.board,
                self.root == before.root,
                self.positions == before.positions,
                self.up == before.up,
                forall|n: int|
                    0 <= n < self.nodes.len() ==> {
                        let a = #[trigger] self.nodes[n];
                        let b = before.nodes[n];
                        &&& a.all_move == b.all_move
                        &&& a.sons == b.sons
                        &&& a.son_num == b.son_num
                        &&& a.unselected_son_num == b.unselected_son_num
                        &&& a.visit_count == b.visit_count + (if path.take(k as int).contains(n as usize) {
                            1int
                        } else {
                            0int
                        })
                        &&& a.win_count == b.win_count + (if path.take(k as int).contains(n as usize) {
                            win_count as int
                        } else {
                            0int
                        })
                    },
            decreases node_path.len() - k,
        {
            let node = node_path[k];
            proof {
                assert(path[k as int] == node);
                assert(before.node_ok(node as int, fresh));
                before.lemma_path_rising(path, k as int);
                assert(!path.take(k as int).contains(node)) by {
                    if path.take(k as int).contains(node) {
                        let j = choose|j: int| 0 <= j < path.take(k as int).len() && path.take(k as int)[j] == node;
                        assert(path[j] == node);
                    }
                }
            }
            self.nodes[node].visit_count += 1;
            self.nodes[node].win_count += win_count;
            proof {
                assert forall|n: int| 0 <= n < self.nodes.len() implies {
                    let a = #[trigger] self.nodes[n];
                    let b = before.nodes[n];
                    &&& a.visit_count == b.visit_count + (if path.take(k + 1).contains(n as usize) {
                        1int
                    } else {
                        0int
                    })
                    &&& a.win_count == b.win_count + (if path.take(k + 1).contains(n as usize) {
                        win_count as int
                    } else {
                        0int
                    })
                } by {
                    assert(path.take(k + 1) =~= path.take(k as int).push(node));
                    if n == node {
                        assert(path.take(k + 1)[k as int] == node);
                    } else {
                        let short = path.take(k as int);
                        let long = path.take(k + 1);
                        if short.contains(n as usize) {
                            let j = choose|j: int| 0 <= j < short.len() && short[j] == n as usize;
                            assert(long[j] == n as usize);
                        }
                        if long.contains(n as usize) {
                            let j = choose|j: int| 0 <= j < long.len() && long[j] == n as usize;
                            assert(short[j] == n as usize);
                        }
                    }
                }
            }
            k += 1;
        }
        proof {
            assert(path.take(k as int) =~= path);
            assert(path[0] == 0);
            assert(path.contains(0usize));
            assert forall|n: int| 0 <= n < self.nodes.len() implies #[trigger] self.node_ok(n, -1) by {
                assert(before.node_ok(n, fresh));
                if n == fresh {
                    assert(path[path.len() - 1] == n as usize);
                    assert(path.contains(n as usize));
                }
                if n > 0 {
                    let p = before.up@[n];
                    let e = choose|e: int|
                        0 <= e < before.nodes[p].sons.len() && #[trigger] before.nodes[p].sons[e] == Some(n as usize);
                    assert(self.nodes[p].sons[e] == Some(n as usize));
                }
                assert forall|e: int|
                    0 <= e < self.nodes[n].sons.len() && (#[trigger] self.nodes[n].sons[e]) is Some implies self.edge_ok(
                    n,
                    e,
                ) by {
                    assert(before.nodes[n].sons[e] is Some);
                    assert(before.edge_ok(n, e));
                    let c = before.nodes[n].sons[e].unwrap();
                    if path.contains(c) {
                        let j = choose|j: int| 0 <= j < path.len() && path[j] == c;
                        assert(j >= 1);
                        assert(before.up@[path[j] as int] == path[j - 1]);
                        assert(path[j - 1] == n as usize);
                        assert(path.contains(n as usize));
                    }
                }
            }
        }
    }

    /// The invariant does not speak of the random numbers.
    proof fn lemma_frame(&self, other: &Self, fresh: int)
        requires
            self.shape(fresh),
            self.nodes == other.nodes,
            self.board == other.board,
            self.root == other.root,
            self.positions == other.positions,
            self.up == other.up,
        ensures
            other.shape(fresh),
    {
        assert forall|n: int| 0 <= n < other.nodes.len() implies #[trigger] other.node_ok(n, fresh) by {
            assert(self.node_ok(n, fresh));
            assert forall|e: int|
                0 <= e < other.nodes[n].sons.len() && (#[trigger] other.nodes[n].sons[e]) is Some implies other.edge_ok(
                n,
                e,
            ) by {
                assert(self.edge_ok(n, e));
            }
        }
    }

    /// Along a way every node comes after the nodes before it.
    proof fn lemma_path_rising(&self, path: Seq<usize>, k: int)
        requires
            self.path_ok(path),
            exists|f: int| self.shape(f),
            0 <= k < path.len(),
        ensures
            forall|j: int| 0 <= j < k ==> path[j] < path[k],
        decreases k,
    {
        if k > 0 {
            self.lemma_path_rising(path, k - 1);
            let f = choose|f: int| self.shape(f);
            assert(path[k] < self.nodes.len());
            assert(self.node_ok(path[k] as int, f));
            assert(self.up@[path[k] as int] == path[k - 1]);
        }
    }

    /// The nodes of a way, as numbers.
    closed spec fn numbers(steps: Seq<usize>) -> Seq<int> {
        Seq::new(steps.len(), |k: int| steps[k] as int)
    }

    proof fn lemma_numbers(steps: Seq<usize>, n: int)
        requires
            0 <= n <= usize::MAX,
        ensures
            Self::numbers(steps).len() == steps.len(),
            steps.len() > 0 ==> Self::numbers(steps).last() == steps.last(),
            Self::numbers(steps).contains(n) <==> steps.contains(n as usize),
    {
        let path = Self::numbers(steps);
        if steps.contains(n as usize) {
            let j = choose|j: int| 0 <= j < steps.len() && steps[j] == n as usize;
            assert(path[j] == n);
        }
        if path.contains(n) {
            let j = choose|j: int| 0 <= j < path.len() && path[j] == n;
            assert(steps[j] == n as usize);
        }
    }

    /// What a search has gone along is a way down the tree.
    proof fn lemma_way(&self, steps: Seq<usize>)
        requires
            self.inv(),
            self.path_ok(steps),
        ensures
            self.way(Self::numbers(steps)),
    {
        let path = Self::numbers(steps);
        assert forall|k: int| 1 <= k < path.len() implies self.is_child(path[k - 1], #[trigger] path[k]) by {
            let c = path[k];
            assert(steps[k] < self.nodes.len());
            assert(self.up@[steps[k] as int] == steps[k - 1]);
            assert(self.node_ok(c, -1));
            let p = self.up@[c];
            let e = choose|e: int|
                0 <= e < self.nodes[p].sons.len() && #[trigger] self.nodes[p].sons[e] == Some(c as usize);
            assert(self.node_ok(p, -1));
            assert(self.child(p, e) == Some(c));
        }
        assert forall|k: int| 0 <= k < path.len() implies 0 <= #[trigger] path[k] < self.node_count() by {
            assert(steps[k] < self.nodes.len());
        }
    }

    /// One search: goes down to a node with a step not yet tried, tries
    /// its first such step in a new node, plays a random game from there,
    /// and counts the result on the way back. At a node where the game is
    /// over, only the result of that game is counted.
    #[verifier::spinoff_prover]
    #[verifier::rlimit(40)]
    pub fn search<F: Fn(u32, Vec<ChildStats>, PlayerOrder) -> usize>(&mut self, policy: &F)
        requires
            old(self).inv(),
            policy_ready(policy),
            old(self).visits(0) < u32::MAX,
        ensures
            final(self).inv(),
            old(self).node_count() <= final(self).node_count() <= old(self).node_count() + 1,
            final(self).visits(0) == old(self).visits(0) + 1,
            final(self).pending(0) == (if old(self).pending(0) > 0 {
                old(self).pending(0) - 1
            } else {
                0
            }),
            final(self).position(0) == old(self).position(0),
            final(self).steps(0) == old(self).steps(0),
            forall|n: int|
                0 <= n < old(self).node_count() ==> #[trigger] final(self).position(n) == old(self).position(n)
                    && final(self).steps(n) == old(self).steps(n) && old(self).visits(n) <= final(self).visits(n)
                    <= old(self).visits(n) + 1,
            forall|n: int, i: int|
                0 <= n < old(self).node_count() && 0 <= i < old(self).steps(n).len() && (#[trigger] old(self).child(
                    n,
                    i,
                )) is Some ==> final(self).child(n, i) == old(self).child(n, i),
            final(self).node_count() > old(self).node_count() ==> final(self).visits(
                old(self).node_count() as int,
            ) == 1,
            exists|path: Seq<int>, end: B::V| #[trigger] Self::game_counted(*old(self), *final(self), path, end),
    {
        let ghost at_start = *self;
        let (mut node_path, mut board) = self.descend(policy);
        let ghost mut played_from: B::V = board@;
        proof {
            assert(played::<B>(board@, Seq::empty()) == Some(board@));
        }
        let current = node_path[node_path.len() - 1];
        let ghost mut fresh: int = -1;
        proof {
            assert(self.node_ok(0, -1));
            assert(self.node_ok(current as int, -1));
        }
        if self.nodes[current].son_num > 0 {
            let ghost before = node_path@;
            let ghost old_up = self.up@;
            let (new_node, new_board) = self.expand(current, board);
            node_path.push(new_node);
            proof {
                fresh = new_node as int;
                assert forall|k: int| 0 <= k < node_path@.len() implies (#[trigger] node_path@[k]) < self.nodes.len() by {
                    if k < before.len() {
                        assert(node_path@[k] == before[k]);
                    }
                }
                assert forall|k: int| 1 <= k < node_path@.len() implies self.up@[(#[trigger] node_path@[k]) as int]
                    == node_path@[k - 1] by {
                    if k < before.len() {
                        assert(node_path@[k] == before[k]);
                        assert(node_path@[k - 1] == before[k - 1]);
                        assert(self.up@.take(old_up.len() as int)[before[k] as int] == old_up[before[k] as int]);
                    } else {
                        assert(node_path@[k - 1] == before[k - 1]);
                    }
                }
            }
            let ghost before_roll = *self;
            proof {
                played_from = new_board@;
            }
            board = rollout(new_board, &mut self.rng);
            proof {
                before_roll.lemma_frame(self, fresh);
            }
        }
        let win_count: u64 = match board.get_winner() {
            Some(winner) => match winner {
                PlayerOrder::First => 2,
                PlayerOrder::Second => 0,
            },
            None => 1,
        };
        let ghost end_position = board@;
        let ghost grown = *self;
        proof {
            assert(grown.node_ok(node_path@.last() as int, fresh));
            assert(reached::<B>(played_from, end_position));
            assert(over::<B>(end_position));
            assert(grown.positions@[node_path@.last() as int] == played_from);
        }
        self.backpropagate(&node_path, win_count, Ghost(fresh));
        proof {
            assert(at_start.node_ok(0, -1));
            assert forall|n: int| 0 <= n < at_start.node_count() implies #[trigger] self.position(n) == at_start.position(n)
                && self.steps(n) == at_start.steps(n) && at_start.visits(n) <= self.visits(n) <= at_start.visits(n) + 1 by {
                assert(grown.positions@.take(at_start.nodes.len() as int)[n] == at_start.positions@[n]);
                assert(self.nodes[n].all_move == grown.nodes[n].all_move);
                assert(grown.nodes[n].all_move == at_start.nodes[n].all_move);
            }
            assert forall|n: int, i: int|
                0 <= n < at_start.node_count() && 0 <= i < at_start.steps(n).len() && (#[trigger] at_start.child(n, i)) is Some implies self.child(
                n,
                i,
            ) == at_start.child(n, i) by {
                assert(at_start.node_ok(n, -1));
                assert(self.nodes[n].sons == grown.nodes[n].sons);
                assert(at_start.nodes[n].sons[i] is Some);
                assert(grown.nodes[n].sons[i] == at_start.nodes[n].sons[i]);
            }
            let w = win_count as nat;
            let last = node_path@.last() as int;
            assert forall|n: int| 0 <= n < self.node_count() implies #[trigger] self.wins(n) == Self::counted(
                if n < at_start.node_count() {
                    at_start.wins(n)
                } else {
                    0
                },
                if n < at_start.node_count() {
                    at_start.visits(n)
                } else {
                    0
                },
                self.visits(n),
                w,
            ) by {
                if n < at_start.node_count() {
                    assert(grown.nodes[n].visit_count == at_start.nodes[n].visit_count);
                }
            }
            assert(Self::result_counted(at_start, *self, w));
            assert(self.position(last) == played_from);
            assert(reached::<B>(self.position(last), end_position));
            assert(w == outcome(B::winner(end_position)));
            assert(0 <= last < self.node_count());
            let steps = node_path@;
            let path = Self::numbers(steps);
            self.lemma_way(steps);
            assert forall|n: int| 0 <= n < self.node_count() implies (#[trigger] self.visits(n) > (if n
                < at_start.node_count() {
                at_start.visits(n)
            } else {
                0
            }) <==> path.contains(n)) by {
                if n < at_start.node_count() {
                    assert(grown.nodes[n].visit_count == at_start.nodes[n].visit_count);
                } else {
                    assert(grown.nodes[n].visit_count == 0);
                }
                Self::lemma_numbers(steps, n);
            }
            assert(path.last() == last);
            assert(Self::game_counted(at_start, *self, path, end_position));
        }
    }

    /// The search from `before` to `after` has gone the way `path` down the
    /// tree and has visited the nodes on it and no others; from the
    /// position of the last of them a game was played out to `end`, and
    /// the result of that game was counted at every node visited.
    pub open spec fn game_counted(before: Self, after: Self, path: Seq<int>, end: B::V) -> bool {
        &&& after.way(path)
        &&& forall|n: int|
            0 <= n < after.node_count() ==> (#[trigger] after.visits(n) > (if n < before.node_count() {
                before.visits(n)
            } else {
                0
            }) <==> path.contains(n))
        &&& reached::<B>(after.position(path.last()), end)
        &&& over::<B>(end)
        &&& Self::result_counted(before, after, outcome(B::winner(end)))
    }

    /// The search from `before` to `after` has counted the result `w`, twice
    /// what the game played counts for the first player, at every node it
    /// has visited.
    pub open spec fn result_counted(before: Self, after: Self, w: nat) -> bool {
        w <= 2 && forall|n: int|
            0 <= n < after.node_count() ==> #[trigger] after.wins(n) == Self::counted(
                if n < before.node_count() {
                    before.wins(n)
                } else {
                    0
                },
                if n < before.node_count() {
                    before.visits(n)
                } else {
                    0
                },
                after.visits(n),
                w,
            )
    }

    /// The wins counted at a node after a search: those counted before,
    /// and the result `w` of the search where the node was visited.
    pub open spec fn counted(wins: nat, visits: nat, visits_after: nat, w: nat) -> nat {
        if visits_after > visits {
            wins + w
        } else {
            wins
        }
    }

    /// As many searches as `iterations` says.
    pub fn search_n<F: Fn(u32, Vec<ChildStats>, PlayerOrder) -> usize>(&mut self, iterations: u32, policy: &F)
        requires
            old(self).inv(),
            policy_ready(policy),
            old(self).visits(0) + iterations <= u32::MAX,
        ensures
            final(self).inv(),
            final(self).visits(0) == old(self).visits(0) + iterations,
            final(self).pending(0) == (if old(self).pending(0) > iterations {
                old(self).pending(0) - iterations
            } else {
                0
            }),
            final(self).position(0) == old(self).position(0),
            final(self).steps(0) == old(self).steps(0),
            iterations >= old(self).pending(0) ==> forall|i: int|
                0 <= i < final(self).steps(0).len() ==> (#[trigger] final(self).child(0, i)) is Some
                    && final(self).visits(final(self).child(0, i).unwrap()) >= 1,
    {
        let mut done: u32 = 0;
        while done < iterations
            invariant
                done <= iterations,
                self.inv(),
                policy_ready(policy),
                old(self).visits(0) + iterations <= u32::MAX,
                self.visits(0) == old(self).visits(0) + done,
                self.pending(0) == (if old(self).pending(0) > done {
                    old(self).pending(0) - done
                } else {
                    0
                }),
                self.position(0) == old(self).position(0),
                self.steps(0) == old(self).steps(0),
            decreases iterations - done,
        {
            self.search(policy);
            done += 1;
        }
        proof {
            if iterations >= old(self).pending(0) {
                self.lemma_root_children_visited();
            }
        }
    }

    /// No node was visited more often than its parent.
    pub proof fn lemma_parent_visited_no_less(&self, n: int, i: int)
        requires
            self.inv(),
            0 <= n < self.node_count(),
            0 <= i < self.steps(n).len(),
            self.child(n, i) is Some,
        ensures
            self.visits(self.child(n, i).unwrap()) <= self.visits(n),
    {
        self.lemma_inv();
    }

    /// Once no step of the root is left to try, every child of the root
    /// was visited.
    pub proof fn lemma_root_children_visited(&self)
        requires
            self.inv(),
            self.pending(0) == 0,
        ensures
            forall|i: int|
                0 <= i < self.steps(0).len() ==> (#[trigger] self.child(0, i)) is Some && self.visits(
                    self.child(0, i).unwrap(),
                ) >= 1,
    {
        self.lemma_inv();
    }

    /// The step of the root whose child was visited most often; of several
    /// such steps the first.
    pub fn get_best_move(&self) -> (s: B::S)
        requires
            self.inv(),
            self.steps(0).len() > 0,
        ensures
            s == self.steps(0)[best_child(self.root_visits(), self.steps(0).len()).0],
            B::legal(self.position(0), s),
            B::moves(self.position(0)).contains(s),
    {
        let mut best_visit_count: u32 = 0;
        let mut best_index: usize = 0;
        let ghost visits = self.root_visits();
        proof {
            assert(self.node_ok(0, -1));
        }
        let son_num = self.nodes[self.root].son_num;
        let mut i: usize = 0;
        while i < son_num
            invariant
                i <= son_num,
                self.inv(),
                visits == self.root_visits(),
                son_num == self.nodes[0].son_num,
                son_num == self.nodes[0].sons.len(),
                self.root == 0,
                best_child(visits, i as nat) == (best_index as int, best_visit_count as nat),
            decreases son_num - i,
        {
            proof {
                assert(self.node_ok(0, -1));
                if self.nodes[0].sons[i as int] is Some {
                    assert(self.edge_ok(0, i as int));
                }
            }
            if let Some(node_index) = self.nodes[self.root].sons[i] {
                let visit_count = self.nodes[node_index].visit_count;
                if visit_count > best_visit_count {
                    best_visit_count = visit_count;
                    best_index = i;
                }
            }
            i += 1;
        }
        proof {
            lemma_best_child(visits, son_num as nat);
            assert(self.node_ok(0, -1));
            assert(self.nodes[0].all_move@[best_index as int] == self.nodes[0].all_move[best_index as int]);
        }
        self.nodes[self.root].all_move[best_index]
    }

    /// How often the root was visited: the number of searches made.
    pub fn root_visit_count(&self) -> (n: u32)
        requires
            self.inv(),
        ensures
            n == self.visits(0),
    {
        self.nodes[self.root].visit_count
    }
}


impl<B: Board> MCTS<B> {
    /// The number of nodes.
    pub fn len(&self) -> (n: usize)
        requires
            self.inv(),
        ensures
            n == self.node_count(),
            n >= 1,
    {
        proof {
            assert(self.node_ok(0, -1));
        }
        self.nodes.len()
    }

    /// How often node `n` was visited.
    pub fn visit_count(&self, n: usize) -> (v: u32)
        requires
            self.inv(),
            n < self.node_count(),
        ensures
            v == self.visits(n as int),
    {
        self.nodes[n].visit_count
    }

    /// Twice the wins of the first player counted at node `n`.
    pub fn win_count(&self, n: usize) -> (w: u64)
        requires
            self.inv(),
            n < self.node_count(),
        ensures
            w == self.wins(n as int),
    {
        self.nodes[n].win_count
    }

    /// The number of steps at node `n`.
    pub fn son_num(&self, n: usize) -> (k: usize)
        requires
            self.inv(),
            n < self.node_count(),
        ensures
            k == self.steps(n as int).len(),
    {
        proof {
            assert(self.node_ok(n as int, -1));
        }
        self.nodes[n].son_num
    }

    /// The number of steps at node `n` that were not tried yet.
    pub fn unselected_son_num(&self, n: usize) -> (k: usize)
        requires
            self.inv(),
            n < self.node_count(),
        ensures
            k == self.pending(n as int),
    {
        self.nodes[n].unselected_son_num
    }

    /// The node that the `i`-th step of node `n` leads to, once it was tried.
    pub fn son(&self, n: usize, i: usize) -> (c: Option<usize>)
        requires
            self.inv(),
            n < self.node_count(),
            i < self.steps(n as int).len(),
        ensures
            opt(c) == self.child(n as int, i as int),
            c matches Some(k) ==> k < self.node_count(),
    {
        proof {
            assert(self.node_ok(n as int, -1));
            if self.nodes[n as int].sons[i as int] is Some {
                assert(self.edge_ok(n as int, i as int));
            }
        }
        self.nodes[n].sons[i]
    }
}

pub open spec fn opt(o: Option<usize>) -> Option<int> {
    match o {
        Some(n) => Some(n as int),
        None => None,
    }
}

/// A player that searches with a selection policy of its own choice until
/// the time is up.
pub struct MCTSAI<B: Board, F: Fn(u32, Vec<ChildStats>, PlayerOrder) -> usize> {
    select: F,
    _marker: PhantomData<B>,
}

impl<B: Board, F: Fn(u32, Vec<ChildStats>, PlayerOrder) -> usize> MCTSAI<B, F> {
    /// The selection policy.
    pub closed spec fn policy(&self) -> F {
        self.select
    }

    /// A player with the selection policy `select`.
    pub fn new(select: F) -> (ai: Self)
        ensures
            ai.policy() == select,
    {
        MCTSAI { select, _marker: PhantomData }
    }
}

impl<B: Board, F: Fn(u32, Vec<ChildStats>, PlayerOrder) -> usize> AI for MCTSAI<B, F> {
    type B = B;

    open spec fn ready(&self) -> bool {
        policy_ready(&self.policy())
    }

    /// Searches as long as the clock shows less than `time_limit_ms`, and
    /// at most as often as the visits of the root can count, then takes
    /// the step of the root that was visited most often.
    fn play(&self, board: B, time_limit_ms: u32) -> (s: B::S) {
        let start_time = now();
        let ghost v = board@;
        let mut mcts = MCTS::new(board);
        while whole_millis(&elapsed(&start_time)) < time_limit_ms as u128 && mcts.root_visit_count() < u32::MAX
            invariant
                mcts.inv(),
                policy_ready(&self.policy()),
                mcts.position(0) == v,
                mcts.steps(0) == B::moves(v),
            decreases u32::MAX - mcts.visits(0),
        {
            mcts.search(&self.select);
        }
        mcts.get_best_move()
    }
}

} // verus!
