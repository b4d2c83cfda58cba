use vstd::prelude::*;
use crate::general::step::Step;
use crate::general::board::{Board, UpdateBoard};
use crate::general::piece::PlayerOrder;
use crate::general::grid::grid_view;
use crate::general::text::{chars_of, decimal, first_comma, join, lemma_first_comma_bounds, lemma_join_take, lines, number, parse_number, push_decimal, push_str, same_text, split, split_at, split_lines, string_of, trim, trim_text};
use crate::tree::game_tree_event::{DeleteVariationEvent, MoveToNodeEvent};
use crate::tree::pgn::{parse_pgn, pgn_tokens, texts};
use crate::tree::record::lemma_text_round_trip;
use crate::tree::variation::{kept_edges, kept_node, lemma_delete_wf, lemma_position, lemma_walk, position, renumber, tree_delete, walk, walk_edges, walk_sound};

verus! {

/// What is shown of a move: its number, its notation and who made it.
pub struct MoveData {
    pub ply: usize,
    pub san: String,
    pub player: PlayerOrder,
}

/// A move out of a node, and the node it leads to.
pub struct Son<S> {
    pub step: S,
    pub node: usize,
    pub data: MoveData,
}

pub struct GameTreeNode<B: Board> {
    pub board: B,
    pub sons: Vec<Son<B::S>>,
    pub parent: Option<usize>,
}

/// A tree of positions: the root is where the game began, each edge is a
/// move, and the first edge of each node continues the main line.
pub struct GameTree<B: Board> {
    nodes: Vec<GameTreeNode<B>>,
    root: usize,
    focus: usize,
}

/// An edge of the tree as a mathematical value.
pub struct EdgeModel<S> {
    pub step: S,
    pub child: int,
    pub ply: nat,
    pub san: Seq<char>,
    pub player: PlayerOrder,
}

pub struct NodeModel<V, S> {
    pub board: V,
    pub parent: Option<int>,
    pub edges: Seq<EdgeModel<S>>,
}

/// A tree as a mathematical value. The root is node 0.
pub struct TreeModel<V, S> {
    pub nodes: Seq<NodeModel<V, S>>,
    pub focus: int,
}

impl<S> View for Son<S> {
    type V = EdgeModel<S>;

    open spec fn view(&self) -> EdgeModel<S> {
        EdgeModel {
            step: self.step,
            child: self.node as int,
            ply: self.data.ply as nat,
            san: self.data.san@,
            player: self.data.player,
        }
    }
}

impl<B: Board> View for GameTreeNode<B> {
    type V = NodeModel<B::V, B::S>;

    open spec fn view(&self) -> NodeModel<B::V, B::S> {
        NodeModel {
            board: self.board@,
            parent: match self.parent {
                Some(p) => Some(p as int),
                None => None,
            },
            edges: Seq::new(self.sons.len() as nat, |i: int| self.sons[i]@),
        }
    }
}

impl<B: Board> View for GameTree<B> {
    type V = TreeModel<B::V, B::S>;

    closed spec fn view(&self) -> TreeModel<B::V, B::S> {
        TreeModel {
            nodes: Seq::new(self.nodes.len() as nat, |i: int| self.nodes[i]@),
            focus: self.focus as int,
        }
    }
}

impl<B: Board> GameTreeNode<B> {
    pub fn new(board: B) -> (n: Self)
        ensures
            n.board == board,
            n.sons@.len() == 0,
            n.parent is None,
    {
        GameTreeNode { board, sons: Vec::new(), parent: None }
    }
}


/// The edge says what the rules say of its step: the step is legal where
/// the edge begins and leads to the position where it ends, and the label
/// is taken from the position where it begins.
pub open spec fn edge_sound<B: Board>(from: B::V, e: EdgeModel<B::S>, to: B::V) -> bool {
    &&& B::legal(from, e.step)
    &&& to == B::next(from, e.step)
    &&& e.ply == B::fullmove(from)
    &&& B::notation(from, e.step) == Some(e.san)
    &&& e.player == B::active(from)
}

/// The node `c` hangs on an earlier node, which has an edge to it.
pub open spec fn has_parent<V, S>(t: TreeModel<V, S>, c: int) -> bool {
    t.nodes[c].parent matches Some(p) && 0 <= p < c && exists|i: int|
        0 <= i < t.nodes[p].edges.len() && #[trigger] t.nodes[p].edges[i].child == c
}

/// The `i`-th edge of `p` leads to a later node, whose parent is `p`, and is
/// sound.
pub open spec fn edge_ok<B: Board>(t: TreeModel<B::V, B::S>, p: int, i: int) -> bool {
    let e = t.nodes[p].edges[i];
    &&& p < e.child < t.nodes.len()
    &&& t.nodes[e.child].parent == Some(p)
    &&& edge_sound::<B>(t.nodes[p].board, e, t.nodes[e.child].board)
}

/// The invariant of a game tree: node 0 is the one root; every other node
/// has one parent, which comes before it and has one edge to it; every
/// edge is sound; every position is valid; and the focus is a node.
pub open spec fn tree_wf<B: Board>(t: TreeModel<B::V, B::S>) -> bool {
    &&& t.nodes.len() >= 1
    &&& 0 <= t.focus < t.nodes.len()
    &&& t.nodes[0].parent is None
    &&& forall|n: int| 0 <= n < t.nodes.len() ==> B::valid(#[trigger] t.nodes[n].board)
    &&& forall|c: int| 0 < c < t.nodes.len() ==> #[trigger] has_parent(t, c)
    &&& forall|p: int, i: int|
        0 <= p < t.nodes.len() && 0 <= i < t.nodes[p].edges.len() ==> #[trigger] edge_ok::<B>(t, p, i)
    &&& forall|p: int, i: int, j: int|
        0 <= p < t.nodes.len() && 0 <= i < j < t.nodes[p].edges.len() ==> (
        #[trigger] t.nodes[p].edges[i]).child != (#[trigger] t.nodes[p].edges[j]).child
}

/// The tree of a game that begins at `board`.
pub open spec fn tree_new<V, S>(board: V) -> TreeModel<V, S> {
    TreeModel { nodes: seq![NodeModel { board, parent: None, edges: Seq::empty() }], focus: 0 }
}

/// The first edge from the `from`-th on that is labelled with `step`.
pub open spec fn first_edge<S>(edges: Seq<EdgeModel<S>>, step: S, from: int) -> Option<int>
    decreases edges.len() - from,
{
    if from < 0 || from >= edges.len() {
        None
    } else if edges[from].step == step {
        Some(from)
    } else {
        first_edge(edges, step, from + 1)
    }
}

/// Whether `step` can be played at the focus: an edge has it already, or it
/// is legal there.
pub open spec fn tree_can_move<B: Board>(t: TreeModel<B::V, B::S>, step: B::S) -> bool {
    first_edge(t.nodes[t.focus].edges, step, 0) is Some || B::legal(t.nodes[t.focus].board, step)
}

/// The tree after `step` is played at the focus: the focus follows the
/// first edge that has the step; where there is none and the step is
/// legal, a new node is hung on the focus by a new last edge and takes the
/// focus; else nothing changes.
pub open spec fn tree_try_move<B: Board>(t: TreeModel<B::V, B::S>, step: B::S) -> TreeModel<B::V, B::S> {
    let n = t.nodes[t.focus];
    match first_edge(n.edges, step, 0) {
        Some(i) => TreeModel { focus: n.edges[i].child, ..t },
        None => if B::legal(n.board, step) {
            let c = t.nodes.len() as int;
            let edge = EdgeModel {
                step,
                child: c,
                ply: B::fullmove(n.board),
                san: B::notation(n.board, step).unwrap(),
                player: B::active(n.board),
            };
            TreeModel {
                nodes: t.nodes.update(t.focus, NodeModel { edges: n.edges.push(edge), ..n }).push(
                    NodeModel { board: B::next(n.board, step), parent: Some(t.focus), edges: Seq::empty() },
                ),
                focus: c,
            }
        } else {
            t
        },
    }
}

/// The node where the main line from `n` ends.
pub open spec fn mainline_end<V, S>(t: TreeModel<V, S>, n: int) -> int
    decreases t.nodes.len() - n,
{
    if 0 <= n < t.nodes.len() && t.nodes[n].edges.len() > 0 && n < t.nodes[n].edges[0].child
        < t.nodes.len() {
        mainline_end(t, t.nodes[n].edges[0].child)
    } else {
        n
    }
}

/// The last edge of `p` that leads to `c`, or 0 where none does.
pub open spec fn edge_index<S>(edges: Seq<EdgeModel<S>>, c: int, k: nat) -> int
    decreases k,
{
    if k == 0 {
        0
    } else if k <= edges.len() && edges[k - 1].child == c {
        k - 1
    } else {
        edge_index(edges, c, (k - 1) as nat)
    }
}

/// The edges with the first and the `pos`-th exchanged.
pub open spec fn swapped<S>(edges: Seq<EdgeModel<S>>, pos: int) -> Seq<EdgeModel<S>> {
    if 0 < pos < edges.len() {
        edges.update(0, edges[pos]).update(pos, edges[0])
    } else {
        edges
    }
}

/// The tree with the edge to `node` first among its parent's edges, and the
/// edge that was first in its place. Nothing changes for the root or for
/// what is no node.
pub open spec fn tree_promote<V, S>(t: TreeModel<V, S>, node: int) -> TreeModel<V, S> {
    if 0 < node < t.nodes.len() && t.nodes[node].parent is Some && 0 <= t.nodes[node].parent.unwrap()
        < t.nodes.len() {
        let p = t.nodes[node].parent.unwrap();
        let n = t.nodes[p];
        TreeModel {
            nodes: t.nodes.update(
                p,
                NodeModel { edges: swapped(n.edges, edge_index(n.edges, node, n.edges.len())), ..n },
            ),
            ..t
        }
    } else {
        t
    }
}

/// The tree with the way from the root to `node` as the main line: `node`
/// and each of its ancestors is promoted in turn.
pub open spec fn tree_mainline<V, S>(t: TreeModel<V, S>, node: int) -> TreeModel<V, S>
    decreases node,
{
    if 0 < node < t.nodes.len() && t.nodes[node].parent is Some && 0 <= t.nodes[node].parent.unwrap()
        < node {
        tree_mainline(tree_promote(t, node), t.nodes[node].parent.unwrap())
    } else {
        t
    }
}

impl<B: Board> GameTree<B> {
    /// The invariant of the tree: that of its view, with the root as node 0.
    pub closed spec fn inv(&self) -> bool {
        &&& self.root == 0
        &&& tree_wf::<B>(self@)
    }

    /// What the invariant says to the outside: the tree is well formed and
    /// its nodes can be counted.
    pub proof fn lemma_inv(&self)
        requires
            self.inv(),
        ensures
            tree_wf::<B>(self@),
            self@.nodes.len() <= usize::MAX,
    {
        self.lemma_view();
    }

    /// A tree that is written and read again is the tree that was written,
    /// with the focus at the root.
    pub proof fn lemma_written_is_read(&self)
        requires
            self.inv(),
        ensures
            tree_parse::<B>(tree_text::<B>(self@)) == Some(TreeModel { focus: 0, ..self@ }),
    {
        self.lemma_inv();
        lemma_text_round_trip::<B>(self@);
    }

    proof fn lemma_view(&self)
        ensures
            self@.nodes.len() == self.nodes.len(),
            self@.focus == self.focus,
            forall|i: int| 0 <= i < self.nodes.len() ==> #[trigger] self@.nodes[i] == self.nodes[i]@,
            forall|i: int, j: int|
                0 <= i < self.nodes.len() && 0 <= j < self.nodes[i].sons.len() ==> #[trigger] self@.nodes[i].edges[j]
                    == self.nodes[i].sons[j]@,
            forall|i: int|
                0 <= i < self.nodes.len() ==> (#[trigger] self@.nodes[i]).edges.len()
                    == self.nodes[i].sons.len(),
            self.inv() ==> forall|i: int|
                0 <= i < self.nodes.len() ==> B::valid(#[trigger] self.nodes[i].board@),
    {
        if self.inv() {
            assert forall|i: int| 0 <= i < self.nodes.len() implies B::valid(
                #[trigger] self.nodes[i].board@,
            ) by {
                assert(B::valid(self@.nodes[i].board));
            }
        }
    }

    /// The tree of a game that begins at `board`.
    pub fn new(board: B) -> (t: Self)
        requires
            B::valid(board@),
        ensures
            t@ == tree_new::<B::V, B::S>(board@),
            t.inv(),
    {
        let ghost v = board@;
        let mut nodes: Vec<GameTreeNode<B>> = Vec::new();
        nodes.push(GameTreeNode::new(board));
        let t = GameTree { nodes, root: 0, focus: 0 };
        proof {
            assert(t.nodes[0]@.edges =~= Seq::empty());
            assert(t@.nodes =~= tree_new::<B::V, B::S>(v).nodes);
        }
        t
    }

    /// The position at the focus.
    pub fn board(&self) -> (b: B)
        requires
            self.inv(),
        ensures
            b@ == self@.nodes[self@.focus].board,
            B::valid(b@),
    {
        proof {
            self.lemma_view();
        }
        self.nodes[self.focus].board.duplicate()
    }

    pub fn is_first_board(&self) -> (r: bool)
        requires
            self.inv(),
        ensures
            r == (self@.focus == 0),
    {
        self.focus == self.root
    }

    pub fn is_last_board(&self) -> (r: bool)
        requires
            self.inv(),
        ensures
            r == (self@.nodes[self@.focus].edges.len() == 0),
    {
        proof {
            self.lemma_view();
        }
        self.nodes[self.focus].sons.len() == 0
    }

    /// Asks for the focus to go to the root.
    pub fn move_to_start(&self) -> (e: MoveToNodeEvent)
        requires
            self.inv(),
        ensures
            e.node_id == 0,
    {
        let mut target = self.focus;
        proof {
            self.lemma_view();
        }
        loop
            invariant
                self.inv(),
                target < self.nodes.len(),
            ensures
                target == 0,
            decreases target,
        {
            proof {
                self.lemma_view();
                if target > 0 {
                    assert(has_parent(self@, target as int));
                }
            }
            match self.nodes[target].parent {
                Some(parent) => {
                    target = parent;
                },
                None => {
                    break ;
                },
            }
        }
        MoveToNodeEvent { node_id: target }
    }

    /// Asks for the focus to go one step back, or to stay at the root.
    pub fn move_backward(&self) -> (e: MoveToNodeEvent)
        requires
            self.inv(),
        ensures
            e.node_id == (match self@.nodes[self@.focus].parent {
                Some(p) => p,
                None => self@.focus,
            }),
            e.node_id < self@.nodes.len(),
    {
        proof {
            self.lemma_view();
            if self.focus > 0 {
                assert(has_parent(self@, self.focus as int));
            }
        }
        let mut target = self.focus;
        if let Some(parent) = self.nodes[target].parent {
            target = parent;
        }
        MoveToNodeEvent { node_id: target }
    }

    /// Asks for the focus to go one step along the main line, or to stay
    /// at its end.
    pub fn move_forward(&self) -> (e: MoveToNodeEvent)
        requires
            self.inv(),
        ensures
            e.node_id == (if self@.nodes[self@.focus].edges.len() > 0 {
                self@.nodes[self@.focus].edges[0].child
            } else {
                self@.focus
            }),
            e.node_id < self@.nodes.len(),
    {
        proof {
            self.lemma_view();
        }
        let mut target = self.focus;
        if self.nodes[target].sons.len() > 0 {
            proof {
                assert(edge_ok::<B>(self@, target as int, 0));
            }
            target = self.nodes[target].sons[0].node;
        }
        MoveToNodeEvent { node_id: target }
    }

    /// Asks for the focus to go to the end of the main line.
    pub fn move_to_end(&self) -> (e: MoveToNodeEvent)
        requires
            self.inv(),
        ensures
            e.node_id == mainline_end(self@, self@.focus),
            e.node_id < self@.nodes.len(),
    {
        proof {
            self.lemma_view();
        }
        let mut target = self.focus;
        while self.nodes[target].sons.len() > 0
            invariant
                self.inv(),
                target < self.nodes.len(),
                mainline_end(self@, self@.focus) == mainline_end(self@, target as int),
            decreases self.nodes.len() - target,
        {
            proof {
                self.lemma_view();
                assert(edge_ok::<B>(self@, target as int, 0));
            }
            target = self.nodes[target].sons[0].node;
        }
        proof {
            self.lemma_view();
        }
        MoveToNodeEvent { node_id: target }
    }

    /// Plays `step` at the focus.
    pub fn try_move(&mut self, step: B::S) -> (r: bool)
        requires
            old(self).inv(),
        ensures
            final(self).inv(),
            final(self)@ == tree_try_move::<B>(old(self)@, step),
            r == tree_can_move::<B>(old(self)@, step),
    {
        let focus = self.focus;
        let ghost t = self@;
        proof {
            self.lemma_view();
        }
        let n = self.nodes[focus].sons.len();
        let mut i: usize = 0;
        while i < n
            invariant
                i <= n,
                *self == *old(self),
                self.inv(),
                t == self@,
                focus == self.focus,
                focus < self.nodes.len(),
                n == self.nodes[focus as int].sons.len(),
                first_edge(t.nodes[t.focus].edges, step, 0) == first_edge(t.nodes[t.focus].edges, step, i as int),
            decreases n - i,
        {
            proof {
                self.lemma_view();
            }
            if step.same(&self.nodes[focus].sons[i].step) {
                proof {
                    assert(edge_ok::<B>(t, focus as int, i as int));
                }
                self.focus = self.nodes[focus].sons[i].node;
                proof {
                    assert(self@.nodes =~= t.nodes);
                    assert(self@ == tree_try_move::<B>(t, step));
                    lemma_refocus_wf::<B>(t, self@.focus);
                }
                return true;
            }
            i += 1;
        }
        proof {
            self.lemma_view();
        }
        match self.nodes[focus].board.try_move(step) {
            Some(board) => {
                let new_index = self.nodes.len();
                let data = MoveData {
                    ply: self.nodes[focus].board.get_fullmove(),
                    san: self.nodes[focus].board.write_step(step).unwrap(),
                    player: self.nodes[focus].board.get_active_player(),
                };
                let mut node = GameTreeNode::new(board);
                node.parent = Some(focus);
                let ghost node_view = node@;
                let ghost edge = (Son { step, node: new_index, data })@;
                self.nodes.push(node);
                self.nodes[focus].sons.push(Son { step, node: new_index, data });
                self.focus = new_index;
                proof {
                    let want = tree_try_move::<B>(t, step);
                    self.lemma_view();
                    assert(node_view.edges =~= Seq::empty());
                    assert(self@.nodes[focus as int].edges =~= t.nodes[focus as int].edges.push(edge));
                    assert forall|k: int| 0 <= k < self@.nodes.len() implies #[trigger] self@.nodes[k] == want.nodes[k] by {
                        if k == focus {
                        } else if k == new_index {
                        } else {
                            assert(self.nodes[k] == old(self).nodes[k]);
                        }
                    }
                    assert(self@.nodes =~= want.nodes);
                    lemma_try_move_wf::<B>(t, step);
                }
                true
            },
            None => false,
        }
    }

    /// Moves the focus to the node that `e` names and hands out the position
    /// to show; nothing happens where `e` names no node.
    pub fn handle_move_to_node(&mut self, e: &MoveToNodeEvent) -> (r: Option<UpdateBoard<B>>)
        requires
            old(self).inv(),
        ensures
            final(self).inv(),
            final(self)@.nodes == old(self)@.nodes,
            e.node_id < old(self)@.nodes.len() ==> final(self)@.focus == e.node_id && r is Some && r.unwrap().new_board@
                == old(self)@.nodes[e.node_id as int].board,
            e.node_id >= old(self)@.nodes.len() ==> final(self)@.focus == old(self)@.focus && r is None,
    {
        let node_id = e.node_id;
        proof {
            self.lemma_view();
        }
        if node_id >= self.nodes.len() {
            return None;
        }
        self.focus = node_id;
        proof {
            self.lemma_view();
            assert(self@.nodes =~= old(self)@.nodes);
            lemma_refocus_wf::<B>(old(self)@, node_id as int);
        }
        Some(UpdateBoard::new(self.board()))
    }
}

/// A step that no edge has is first found on the edge added for it.
pub proof fn lemma_first_edge_pushed<S>(edges: Seq<EdgeModel<S>>, e: EdgeModel<S>, from: int)
    requires
        0 <= from <= edges.len(),
        first_edge(edges, e.step, from) is None,
    ensures
        first_edge(edges.push(e), e.step, from) == Some(edges.len() as int),
    decreases edges.len() - from,
{
    if from < edges.len() {
        assert(edges.push(e)[from] == edges[from]);
        lemma_first_edge_pushed(edges, e, from + 1);
    }
}

/// Playing a step a second time from the same node leads to the child that
/// the first time led to, and adds nothing to the tree.
pub proof fn lemma_try_move_twice<B: Board>(t: TreeModel<B::V, B::S>, step: B::S)
    requires
        tree_wf::<B>(t),
    ensures
        ({
            let once = tree_try_move::<B>(t, step);
            let back = TreeModel { focus: t.focus, ..once };
            tree_try_move::<B>(back, step) == once
        }),
{
    let once = tree_try_move::<B>(t, step);
    let back = TreeModel { focus: t.focus, ..once };
    let n = t.nodes[t.focus];
    match first_edge(n.edges, step, 0) {
        Some(i) => {
            assert(back == t);
        },
        None => {
            if B::legal(n.board, step) {
                let edge = EdgeModel {
                    step,
                    child: t.nodes.len() as int,
                    ply: B::fullmove(n.board),
                    san: B::notation(n.board, step).unwrap(),
                    player: B::active(n.board),
                };
                lemma_first_edge_pushed(n.edges, edge, 0);
                assert(back.nodes[back.focus].edges == n.edges.push(edge));
            } else {
                assert(back == t);
            }
        },
    }
}

/// Moving the focus to a node keeps the invariant.
pub proof fn lemma_refocus_wf<B: Board>(t: TreeModel<B::V, B::S>, focus: int)
    requires
        tree_wf::<B>(t),
        0 <= focus < t.nodes.len(),
    ensures
        tree_wf::<B>(TreeModel { focus, ..t }),
{
    let u = TreeModel { focus, ..t };
    assert forall|c: int| 0 < c < u.nodes.len() implies #[trigger] has_parent(u, c) by {
        assert(has_parent(t, c));
    }
    assert forall|p: int, i: int| 0 <= p < u.nodes.len() && 0 <= i < u.nodes[p].edges.len() implies #[trigger] edge_ok::<B>(u, p, i) by {
        assert(edge_ok::<B>(t, p, i));
    }
}

/// Playing a step keeps the invariant.
pub proof fn lemma_try_move_wf<B: Board>(t: TreeModel<B::V, B::S>, step: B::S)
    requires
        tree_wf::<B>(t),
        first_edge(t.nodes[t.focus].edges, step, 0) is None,
        B::legal(t.nodes[t.focus].board, step),
        B::valid(B::next(t.nodes[t.focus].board, step)),
        B::notation(t.nodes[t.focus].board, step) is Some,
    ensures
        tree_wf::<B>(tree_try_move::<B>(t, step)),
{
    let u = tree_try_move::<B>(t, step);
    let f = t.focus;
    let c = t.nodes.len() as int;
    assert forall|n: int| 0 <= n < u.nodes.len() implies B::valid(#[trigger] u.nodes[n].board) by {
        if n < c {
            assert(B::valid(t.nodes[n].board));
        }
    }
    assert forall|p: int, i: int| 0 <= p < u.nodes.len() && 0 <= i < u.nodes[p].edges.len() implies #[trigger] edge_ok::<B>(u, p, i) by {
        if p == f && i == t.nodes[f].edges.len() {
        } else {
            assert(edge_ok::<B>(t, p, i));
        }
    }
    assert forall|k: int| 0 < k < u.nodes.len() implies #[trigger] has_parent(u, k) by {
        if k == c {
            assert(u.nodes[f].edges[t.nodes[f].edges.len() as int].child == c);
        } else {
            assert(has_parent(t, k));
            let p = t.nodes[k].parent.unwrap();
            let i = choose|i: int| 0 <= i < t.nodes[p].edges.len() && #[trigger] t.nodes[p].edges[i].child == k;
            assert(u.nodes[p].edges[i].child == k);
        }
    }
    assert forall|p: int, i: int, j: int| 0 <= p < u.nodes.len() && 0 <= i < j < u.nodes[p].edges.len() implies (#[trigger] u.nodes[p].edges[i]).child != (#[trigger] u.nodes[p].edges[j]).child by {
        if p == f && j == t.nodes[f].edges.len() {
            assert(edge_ok::<B>(t, p, i));
        } else if p < c {
            assert(t.nodes[p].edges[i].child != t.nodes[p].edges[j].child);
        }
    }
}


/// The first edge from the `from`-th on that leads to `c`.
pub open spec fn child_edge<S>(edges: Seq<EdgeModel<S>>, c: int, from: int) -> Option<int>
    decreases edges.len() - from,
{
    if from < 0 || from >= edges.len() {
        None
    } else if edges[from].child == c {
        Some(from)
    } else {
        child_edge(edges, c, from + 1)
    }
}

/// A move as the line of moves writes it: with its number where the first
/// player made it.
pub open spec fn move_label<S>(e: EdgeModel<S>) -> Seq<char> {
    match e.player {
        PlayerOrder::First => decimal(e.ply) + seq!['.'] + e.san,
        PlayerOrder::Second => e.san,
    }
}

/// The moves on the way from the root to `node`, as the line of moves
/// writes them.
pub open spec fn pgn_items<V, S>(t: TreeModel<V, S>, node: int) -> Seq<Seq<char>>
    decreases node,
{
    if 0 < node < t.nodes.len() && t.nodes[node].parent is Some && 0 <= t.nodes[node].parent.unwrap()
        < node {
        let p = t.nodes[node].parent.unwrap();
        match child_edge(t.nodes[p].edges, node, 0) {
            Some(i) => pgn_items(t, p).push(move_label(t.nodes[p].edges[i])),
            None => pgn_items(t, p),
        }
    } else {
        Seq::empty()
    }
}

/// The line of moves that leads from the root to `node`.
pub open spec fn tree_pgn<V, S>(t: TreeModel<V, S>, node: int) -> Seq<char> {
    join(pgn_items(t, node), seq![' '])
}

/// The tree after the first `k` tokens of a line of moves have been played
/// from `t`: each is read at the focus and played there; one that cannot be
/// read or played is passed over.
pub open spec fn pgn_replay<B: Board>(t: TreeModel<B::V, B::S>, tokens: Seq<Seq<char>>, k: nat) -> TreeModel<B::V, B::S>
    decreases k,
{
    if k == 0 {
        t
    } else {
        let u = pgn_replay::<B>(t, tokens, (k - 1) as nat);
        match B::parse_step(u.nodes[u.focus].board, tokens[k - 1]) {
            Some(step) => tree_try_move::<B>(u, step),
            None => u,
        }
    }
}

/// A promotion keeps the invariant.
pub proof fn lemma_promote_wf<B: Board>(t: TreeModel<B::V, B::S>, node: int)
    requires
        tree_wf::<B>(t),
    ensures
        tree_wf::<B>(tree_promote(t, node)),
{
    let u = tree_promote(t, node);
    if 0 < node < t.nodes.len() && t.nodes[node].parent is Some && 0 <= t.nodes[node].parent.unwrap()
        < t.nodes.len() {
        let q = t.nodes[node].parent.unwrap();
        let old_edges = t.nodes[q].edges;
        let pos = edge_index(old_edges, node, old_edges.len());
        lemma_edge_index(old_edges, node, old_edges.len());
        let perm = |i: int|
            if 0 < pos < old_edges.len() && i == 0 {
                pos
            } else if 0 < pos < old_edges.len() && i == pos {
                0
            } else {
                i
            };
        assert forall|i: int| 0 <= i < old_edges.len() implies u.nodes[q].edges[i] == old_edges[perm(i)] by {}
        assert forall|n: int| 0 <= n < u.nodes.len() implies B::valid(#[trigger] u.nodes[n].board) by {
            assert(B::valid(t.nodes[n].board));
        }
        assert forall|p: int, i: int| 0 <= p < u.nodes.len() && 0 <= i < u.nodes[p].edges.len() implies #[trigger] edge_ok::<B>(u, p, i) by {
            if p == q {
                assert(edge_ok::<B>(t, p, perm(i)));
            } else {
                assert(edge_ok::<B>(t, p, i));
            }
        }
        assert forall|c: int| 0 < c < u.nodes.len() implies #[trigger] has_parent(u, c) by {
            assert(has_parent(t, c));
            let p = t.nodes[c].parent.unwrap();
            let i = choose|i: int| 0 <= i < t.nodes[p].edges.len() && #[trigger] t.nodes[p].edges[i].child == c;
            if p == q {
                assert(u.nodes[p].edges[perm(i)].child == c);
            } else {
                assert(u.nodes[p].edges[i].child == c);
            }
        }
        assert forall|p: int, i: int, j: int| 0 <= p < u.nodes.len() && 0 <= i < j < u.nodes[p].edges.len() implies (#[trigger] u.nodes[p].edges[i]).child != (#[trigger] u.nodes[p].edges[j]).child by {
            if p == q {
                let a = perm(i);
                let b = perm(j);
                if a < b {
                    assert(t.nodes[p].edges[a].child != t.nodes[p].edges[b].child);
                } else {
                    assert(t.nodes[p].edges[b].child != t.nodes[p].edges[a].child);
                }
            } else {
                assert(t.nodes[p].edges[i].child != t.nodes[p].edges[j].child);
            }
        }
    }
}

pub proof fn lemma_edge_index<S>(edges: Seq<EdgeModel<S>>, c: int, k: nat)
    requires
        k <= edges.len(),
    ensures
        0 <= edge_index(edges, c, k),
        k > 0 ==> edge_index(edges, c, k) < k,
        k == 0 ==> edge_index(edges, c, k) == 0,
    decreases k,
{
    if k > 0 {
        lemma_edge_index(edges, c, (k - 1) as nat);
    }
}

/// Making a main line keeps the invariant.
pub proof fn lemma_mainline_wf<B: Board>(t: TreeModel<B::V, B::S>, node: int)
    requires
        tree_wf::<B>(t),
    ensures
        tree_wf::<B>(tree_mainline(t, node)),
        tree_mainline(t, node).nodes.len() == t.nodes.len(),
        tree_mainline(t, node).focus == t.focus,
    decreases node,
{
    if 0 < node < t.nodes.len() && t.nodes[node].parent is Some && 0 <= t.nodes[node].parent.unwrap()
        < node {
        lemma_promote_wf::<B>(t, node);
        lemma_mainline_wf::<B>(tree_promote(t, node), t.nodes[node].parent.unwrap());
    }
}

impl<B: Board> GameTree<B> {
    /// Makes the move that leads to `node` the first choice at its parent.
    pub fn promote_variation(&mut self, node: usize)
        requires
            old(self).inv(),
        ensures
            final(self).inv(),
            final(self)@ == tree_promote(old(self)@, node as int),
    {
        let ghost t = self@;
        proof {
            self.lemma_view();
            lemma_promote_wf::<B>(t, node as int);
        }
        if node >= self.nodes.len() {
            return ;
        }
        match self.nodes[node].parent {
            Some(parent) => {
                proof {
                    assert(has_parent(t, node as int));
                }
                let n = self.nodes[parent].sons.len();
                let mut pos: usize = 0;
                let mut idx: usize = 0;
                while idx < n
                    invariant
                        idx <= n,
                        *self == *old(self),
                        t == self@,
                        parent < self.nodes.len(),
                        n == self.nodes[parent as int].sons.len(),
                        n == t.nodes[parent as int].edges.len(),
                        pos == edge_index(t.nodes[parent as int].edges, node as int, idx as nat),
                        idx > 0 ==> pos < idx,
                    decreases n - idx,
                {
                    proof {
                        self.lemma_view();
                    }
                    if self.nodes[parent].sons[idx].node == node {
                        pos = idx;
                    }
                    idx += 1;
                }
                if pos != 0 {
                    let ghost before = self.nodes[parent as int].sons@;
                    let b = self.nodes[parent].sons.remove(pos);
                    let a = self.nodes[parent].sons.remove(0);
                    self.nodes[parent].sons.insert(0, b);
                    self.nodes[parent].sons.insert(pos, a);
                    proof {
                        self.lemma_view();
                        let want = tree_promote(t, node as int);
                        assert(self.nodes[parent as int].sons@ =~= before.update(0, before[pos as int]).update(
                            pos as int,
                            before[0],
                        ));
                        assert(self@.nodes[parent as int].edges =~= want.nodes[parent as int].edges);
                        assert forall|k: int| 0 <= k < self@.nodes.len() implies #[trigger] self@.nodes[k] == want.nodes[k] by {
                            if k != parent {
                                assert(self.nodes[k] == old(self).nodes[k]);
                            }
                        }
                        assert(self@.nodes =~= want.nodes);
                    }
                } else {
                    proof {
                        assert(t.nodes.update(parent as int, t.nodes[parent as int]) =~= t.nodes);
                    }
                }
            },
            None => {},
        }
    }

    /// Makes the way from the root to `node` the main line.
    pub fn set_as_mainline(&mut self, node: usize)
        requires
            old(self).inv(),
        ensures
            final(self).inv(),
            final(self)@ == tree_mainline(old(self)@, node as int),
    {
        proof {
            self.lemma_view();
        }
        if node >= self.nodes.len() {
            return ;
        }
        let mut cur = node;
        while cur != 0
            invariant
                self.inv(),
                cur < self.nodes.len(),
                tree_mainline(old(self)@, node as int) == tree_mainline(self@, cur as int),
            decreases cur,
        {
            let ghost t = self@;
            proof {
                self.lemma_view();
                assert(has_parent(t, cur as int));
            }
            let parent = match self.nodes[cur].parent {
                Some(p) => p,
                None => {
                    return ;
                },
            };
            self.promote_variation(cur);
            proof {
                self.lemma_view();
            }
            cur = parent;
        }
    }

    /// Appends the line of moves that leads to `node`.
    fn push_pgn(&self, node: usize, out: &mut Vec<char>)
        requires
            self.inv(),
            node < self@.nodes.len(),
            old(out)@.len() == 0,
        ensures
            final(out)@ == tree_pgn(self@, node as int),
            pgn_items(self@, node as int).len() > 0 <==> node > 0,
        decreases node,
    {
        if node == 0 {
            return ;
        }
        proof {
            self.lemma_view();
            assert(has_parent(self@, node as int));
        }
        let parent = match self.nodes[node].parent {
            Some(p) => p,
            None => {
                return ;
            },
        };
        self.push_pgn(parent, out);
        let ghost edges = self@.nodes[parent as int].edges;
        let ghost before = pgn_items(self@, parent as int);
        let n = self.nodes[parent].sons.len();
        let mut i: usize = 0;
        proof {
            let w = choose|i: int| 0 <= i < edges.len() && #[trigger] edges[i].child == node;
            lemma_child_edge(edges, node as int, 0, w);
        }
        while i < n
            invariant_except_break
                out@ == join(before, seq![' ']),
            invariant
                i <= n,
                self.inv(),
                parent < self.nodes.len(),
                n == self.nodes[parent as int].sons.len(),
                edges == self@.nodes[parent as int].edges,
                child_edge(edges, node as int, 0) == child_edge(edges, node as int, i as int),
                child_edge(edges, node as int, 0) is Some,
                before == pgn_items(self@, parent as int),
                before.len() > 0 <==> parent > 0,
                node < self@.nodes.len(),
                self@.nodes[node as int].parent == Some(parent as int),
                parent < node,
            ensures
                out@ == tree_pgn(self@, node as int),
                pgn_items(self@, node as int).len() > 0,
            decreases n - i,
        {
            proof {
                self.lemma_view();
            }
            let son = &self.nodes[parent].sons[i];
            if son.node == node {
                let ghost label = move_label(edges[i as int]);
                let ghost start = out@;
                if parent != 0 {
                    out.push(' ');
                }
                match son.data.player {
                    PlayerOrder::First => {
                        push_decimal(out, son.data.ply);
                        out.push('.');
                        push_str(out, son.data.san.as_str());
                    },
                    PlayerOrder::Second => {
                        push_str(out, son.data.san.as_str());
                    },
                }
                proof {
                    let items = before.push(label);
                    assert(pgn_items(self@, node as int) == items);
                    assert(items.drop_last() =~= before);
                    if parent != 0 {
                        assert(out@ =~= start + seq![' '] + label);
                    } else {
                        assert(start =~= Seq::<char>::empty());
                        assert(out@ =~= label);
                    }
                }
                break ;
            }
            i += 1;
        }
    }

    /// The line of moves that leads from the root to `current`: the moves
    /// separated by blanks, those of the first player with their number
    /// and a dot before them.
    pub fn pgn(&self, current: usize) -> (r: String)
        requires
            self.inv(),
            current < self@.nodes.len(),
        ensures
            r@ == tree_pgn(self@, current as int),
    {
        let mut out: Vec<char> = Vec::new();
        self.push_pgn(current, &mut out);
        let r = string_of(&out, 0, out.len());
        proof {
            assert(out@.subrange(0, out.len() as int) =~= out@);
        }
        r
    }

    /// The tree that a line of moves gives when it is played from the
    /// starting position. Tokens that cannot be read or played are passed
    /// over, so there is always a tree.
    pub fn from_pgn(pgn: String) -> (r: Option<Self>)
        ensures
            r matches Some(t) && t.inv() && t@ == pgn_replay::<B>(
                tree_new::<B::V, B::S>(B::initial()),
                pgn_tokens(pgn@),
                pgn_tokens(pgn@).len(),
            ),
    {
        let mut board = B::initial_board();
        let mut tree = Self::new(board.duplicate());
        let steps = parse_pgn(pgn.as_str());
        let ghost tokens = pgn_tokens(pgn@);
        let ghost start = tree@;
        let mut k: usize = 0;
        while k < steps.len()
            invariant
                k <= steps.len(),
                tokens == texts(steps),
                tree.inv(),
                B::valid(board@),
                board@ == tree@.nodes[tree@.focus].board,
                tree@ == pgn_replay::<B>(start, tokens, k as nat),
            decreases steps.len() - k,
        {
            assert(tokens[k as int] == steps[k as int]@);
            match board.read_step(steps[k].clone()) {
                Some(s) => {
                    if tree.try_move(s) {
                        board = tree.board();
                    } else {
                        proof {
                            tree.lemma_view();
                        }
                    }
                },
                None => {},
            }
            k += 1;
        }
        Some(tree)
    }

    /// The number of nodes.
    pub fn node_count(&self) -> (n: usize)
        requires
            self.inv(),
        ensures
            n == self@.nodes.len(),
            n >= 1,
    {
        proof {
            self.lemma_view();
        }
        self.nodes.len()
    }

    /// The node at the focus.
    pub fn focus(&self) -> (n: usize)
        requires
            self.inv(),
        ensures
            n == self@.focus,
            n < self@.nodes.len(),
    {
        proof {
            self.lemma_view();
        }
        self.focus
    }

    /// The root, which is node 0.
    pub fn root(&self) -> (n: usize)
        requires
            self.inv(),
        ensures
            n == 0,
    {
        self.root
    }

    /// The parent of `node`.
    pub fn parent(&self, node: usize) -> (p: Option<usize>)
        requires
            self.inv(),
            node < self@.nodes.len(),
        ensures
            match p {
                Some(p) => self@.nodes[node as int].parent == Some(p as int) && p < node,
                None => self@.nodes[node as int].parent is None && node == 0,
            },
    {
        proof {
            self.lemma_view();
            if node > 0 {
                assert(has_parent(self@, node as int));
            }
        }
        self.nodes[node].parent
    }

    /// The number of moves recorded at `node`.
    pub fn son_count(&self, node: usize) -> (n: usize)
        requires
            self.inv(),
            node < self@.nodes.len(),
        ensures
            n == self@.nodes[node as int].edges.len(),
    {
        proof {
            self.lemma_view();
        }
        self.nodes[node].sons.len()
    }

    /// The `i`-th move recorded at `node`.
    pub fn son(&self, node: usize, i: usize) -> (s: &Son<B::S>)
        requires
            self.inv(),
            node < self@.nodes.len(),
            i < self@.nodes[node as int].edges.len(),
        ensures
            s@ == self@.nodes[node as int].edges[i as int],
            node < s.node < self@.nodes.len(),
    {
        proof {
            self.lemma_view();
            assert(edge_ok::<B>(self@, node as int, i as int));
        }
        &self.nodes[node].sons[i]
    }
}

/// Where an edge leads to `c`, the first such edge is found.
pub proof fn lemma_child_edge<S>(edges: Seq<EdgeModel<S>>, c: int, from: int, w: int)
    requires
        0 <= from <= w < edges.len(),
        edges[w].child == c,
    ensures
        child_edge(edges, c, from) is Some,
    decreases w - from,
{
    if edges[from].child != c {
        lemma_child_edge(edges, c, from + 1, w);
    }
}


/// An edge as the text of a tree writes it: the child and the notation
/// between brackets.
pub open spec fn edge_text<S>(e: EdgeModel<S>) -> Seq<char> {
    seq!['('] + decimal(e.child as nat) + seq![',', ' '] + e.san + seq![')']
}

/// The line of a node: its edges, separated by `|`.
pub open spec fn node_line<V, S>(n: NodeModel<V, S>) -> Seq<char> {
    join(Seq::new(n.edges.len(), |i: int| edge_text(n.edges[i])), seq!['|'])
}

/// The text of a tree: the tag, the starting position, the number of
/// nodes, and a line for each node.
pub open spec fn tree_text<B: Board>(t: TreeModel<B::V, B::S>) -> Seq<char> {
    "[chess game tree]"@ + seq!['\n'] + B::fen(t.nodes[0].board) + seq!['\n'] + decimal(t.nodes.len())
        + seq!['\n'] + join(Seq::new(t.nodes.len(), |i: int| node_line(t.nodes[i])), seq!['\n'])
}

/// The two fields of an entry `(child, notation)`.
pub open spec fn entry_parts(piece: Seq<char>) -> Option<(Seq<char>, Seq<char>)> {
    if piece.len() >= 2 && piece[0] == '(' && piece.last() == ')' {
        let inner = piece.subrange(1, piece.len() - 1);
        let c = first_comma(inner, 0);
        if c < inner.len() {
            Some((inner.take(c), inner.skip(c + 2)))
        } else {
            None
        }
    } else {
        None
    }
}

/// The tree with `son` hung on `node` by a new last edge for `step`.
pub open spec fn attach<B: Board>(t: TreeModel<B::V, B::S>, node: int, son: int, step: B::S) -> TreeModel<B::V, B::S> {
    let from = t.nodes[node];
    let edge = EdgeModel {
        step,
        child: son,
        ply: B::fullmove(from.board),
        san: B::notation(from.board, step).unwrap(),
        player: B::active(from.board),
    };
    TreeModel {
        nodes: t.nodes.update(
            son,
            NodeModel { board: B::next(from.board, step), parent: Some(node), edges: t.nodes[son].edges },
        ).update(node, NodeModel { edges: from.edges.push(edge), ..from }),
        ..t
    }
}

/// The tree after an entry of the line of `node` is read: the child must
/// be a later node that hangs nowhere yet, and the notation a legal step
/// at `node`.
pub open spec fn load_entry<B: Board>(t: TreeModel<B::V, B::S>, node: int, piece: Seq<char>) -> Option<TreeModel<B::V, B::S>> {
    match entry_parts(piece) {
        Some((id, san)) => match (number(id), B::parse_step(t.nodes[node].board, san)) {
            (Some(son), Some(step)) => if node < son < t.nodes.len() && t.nodes[son as int].parent is None
                && B::legal(t.nodes[node].board, step) {
                Some(attach::<B>(t, node, son as int, step))
            } else {
                None
            },
            _ => None,
        },
        None => None,
    }
}

pub open spec fn load_entries<B: Board>(t: TreeModel<B::V, B::S>, node: int, pieces: Seq<Seq<char>>, k: nat) -> Option<TreeModel<B::V, B::S>>
    decreases k,
{
    if k == 0 {
        Some(t)
    } else {
        match load_entries::<B>(t, node, pieces, (k - 1) as nat) {
            Some(u) => load_entry::<B>(u, node, pieces[k - 1]),
            None => None,
        }
    }
}

/// The tree after the line of `node` is read: an empty line has no entry.
pub open spec fn load_line<B: Board>(t: TreeModel<B::V, B::S>, node: int, line: Seq<char>) -> Option<TreeModel<B::V, B::S>> {
    if line.len() == 0 {
        Some(t)
    } else {
        load_entries::<B>(t, node, split(line, '|'), split(line, '|').len())
    }
}

/// The tree after the lines of the first `n` nodes are read.
pub open spec fn load_lines<B: Board>(t: TreeModel<B::V, B::S>, ls: Seq<Seq<char>>, n: nat) -> Option<TreeModel<B::V, B::S>>
    decreases n,
{
    if n == 0 {
        Some(t)
    } else {
        match load_lines::<B>(t, ls, (n - 1) as nat) {
            Some(u) => load_line::<B>(u, n - 1, ls[n - 1]),
            None => None,
        }
    }
}

/// The nodes before any line is read: the root, and nodes that wait for
/// their position.
pub open spec fn load_start<B: Board>(root: B::V, count: nat) -> TreeModel<B::V, B::S> {
    TreeModel {
        nodes: Seq::new(
            count,
            |i: int|
                NodeModel {
                    board: if i == 0 {
                        root
                    } else {
                        B::initial()
                    },
                    parent: None,
                    edges: Seq::empty(),
                },
        ),
        focus: 0,
    }
}

/// Every node but the root hangs on a node.
pub open spec fn all_hung<V, S>(t: TreeModel<V, S>) -> bool {
    forall|c: int| 0 < c < t.nodes.len() ==> ((#[trigger] t.nodes[c]).parent is Some)
}

/// The tree that `text` describes. White space around the text is passed
/// over. The first three lines hold the tag, the starting position and the
/// number of nodes, which is at least 1 and at most the length of the text.
/// The lines after them belong to the nodes in turn, as far as there are
/// nodes; nodes without a line have no edges. Every node but the root must
/// have been hung on an earlier node in the end.
pub open spec fn tree_parse<B: Board>(text: Seq<char>) -> Option<TreeModel<B::V, B::S>> {
    let ls = lines(trim(text));
    if ls.len() < 3 || ls[0] != "[chess game tree]"@ {
        None
    } else {
        match (number(ls[2]), B::parse_fen(ls[1])) {
            (Some(count), Some(root)) => if 1 <= count <= text.len() {
                let n = if count <= ls.len() - 3 {
                    count as nat
                } else {
                    (ls.len() - 3) as nat
                };
                match load_lines::<B>(load_start::<B>(root, count as nat), ls.skip(3), n) {
                    Some(t) => if all_hung(t) {
                        Some(t)
                    } else {
                        None
                    },
                    None => None,
                }
            } else {
                None
            },
            _ => None,
        }
    }
}

/// The invariant while a tree is read, with the lines of the nodes up to
/// `cur` read or in reading: as for a tree, but nodes may still hang
/// nowhere, and later nodes have no edges yet.
pub open spec fn loading<B: Board>(t: TreeModel<B::V, B::S>, cur: int) -> bool {
    &&& t.nodes.len() >= 1
    &&& t.focus == 0
    &&& t.nodes[0].parent is None
    &&& forall|n: int| 0 <= n < t.nodes.len() ==> B::valid(#[trigger] t.nodes[n].board)
    &&& forall|c: int|
        0 < c < t.nodes.len() && (#[trigger] t.nodes[c]).parent is Some ==> has_parent(t, c)
    &&& forall|p: int, i: int|
        0 <= p < t.nodes.len() && 0 <= i < t.nodes[p].edges.len() ==> #[trigger] edge_ok::<B>(t, p, i)
    &&& forall|p: int, i: int, j: int|
        0 <= p < t.nodes.len() && 0 <= i < j < t.nodes[p].edges.len() ==> (
        #[trigger] t.nodes[p].edges[i]).child != (#[trigger] t.nodes[p].edges[j]).child
    &&& forall|n: int| cur < n < t.nodes.len() ==> (#[trigger] t.nodes[n]).edges.len() == 0
}

/// Hanging a node keeps the invariant of reading.
pub proof fn lemma_attach_loading<B: Board>(t: TreeModel<B::V, B::S>, node: int, son: int, step: B::S)
    requires
        loading::<B>(t, node),
        0 <= node < son < t.nodes.len(),
        t.nodes[son].parent is None,
        B::legal(t.nodes[node].board, step),
        B::valid(B::next(t.nodes[node].board, step)),
        B::notation(t.nodes[node].board, step) is Some,
    ensures
        loading::<B>(attach::<B>(t, node, son, step), node),
        attach::<B>(t, node, son, step).nodes.len() == t.nodes.len(),
{
    let u = attach::<B>(t, node, son, step);
    let last = t.nodes[node].edges.len() as int;
    assert forall|n: int| 0 <= n < u.nodes.len() implies B::valid(#[trigger] u.nodes[n].board) by {
        if n != son {
            assert(B::valid(t.nodes[n].board));
        }
    }
    assert forall|p: int, i: int| 0 <= p < u.nodes.len() && 0 <= i < u.nodes[p].edges.len() implies #[trigger] edge_ok::<B>(u, p, i) by {
        if p == node && i == last {
        } else {
            assert(t.nodes[son].edges.len() == 0);
            assert(edge_ok::<B>(t, p, i));
            assert(t.nodes[p].edges[i].child != son);
        }
    }
    assert forall|c: int| 0 < c < u.nodes.len() && (#[trigger] u.nodes[c]).parent is Some implies has_parent(u, c) by {
        if c == son {
            assert(u.nodes[node].edges[last].child == son);
        } else {
            assert(t.nodes[c].parent is Some);
            assert(has_parent(t, c));
            let p = t.nodes[c].parent.unwrap();
            let i = choose|i: int| 0 <= i < t.nodes[p].edges.len() && #[trigger] t.nodes[p].edges[i].child == c;
            assert(u.nodes[p].edges[i].child == c);
        }
    }
    assert forall|p: int, i: int, j: int| 0 <= p < u.nodes.len() && 0 <= i < j < u.nodes[p].edges.len() implies (#[trigger] u.nodes[p].edges[i]).child != (#[trigger] u.nodes[p].edges[j]).child by {
        if p == node && j == last {
            assert(edge_ok::<B>(t, p, i));
        } else {
            assert(t.nodes[p].edges[i].child != t.nodes[p].edges[j].child);
        }
    }
    assert forall|n: int| node < n < u.nodes.len() implies (#[trigger] u.nodes[n]).edges.len() == 0 by {
        assert(t.nodes[n].edges.len() == 0);
    }
}

/// Reading that has failed stays failed.
pub proof fn lemma_load_entries_fail<B: Board>(t: TreeModel<B::V, B::S>, node: int, pieces: Seq<Seq<char>>, k: nat, m: nat)
    requires
        k <= m,
        load_entries::<B>(t, node, pieces, k) is None,
    ensures
        load_entries::<B>(t, node, pieces, m) is None,
    decreases m - k,
{
    if k < m {
        lemma_load_entries_fail::<B>(t, node, pieces, k, (m - 1) as nat);
    }
}

pub proof fn lemma_load_lines_fail<B: Board>(t: TreeModel<B::V, B::S>, ls: Seq<Seq<char>>, k: nat, m: nat)
    requires
        k <= m,
        load_lines::<B>(t, ls, k) is None,
    ensures
        load_lines::<B>(t, ls, m) is None,
    decreases m - k,
{
    if k < m {
        lemma_load_lines_fail::<B>(t, ls, k, (m - 1) as nat);
    }
}

impl<B: Board> GameTree<B> {
    /// Appends the line of `node`.
    fn push_line(&self, node: usize, out: &mut Vec<char>)
        requires
            self.inv(),
            node < self@.nodes.len(),
        ensures
            final(out)@ == old(out)@ + node_line(self@.nodes[node as int]),
    {
        proof {
            self.lemma_view();
        }
        let ghost edges = self@.nodes[node as int].edges;
        let ghost entries = Seq::new(edges.len(), |i: int| edge_text(edges[i]));
        let n = self.nodes[node].sons.len();
        let mut j: usize = 0;
        proof {
            assert(entries.take(0) =~= Seq::<Seq<char>>::empty());
            assert(out@ =~= old(out)@ + join(entries.take(0), seq!['|']));
        }
        while j < n
            invariant
                j <= n,
                self.inv(),
                node < self.nodes.len(),
                n == self.nodes[node as int].sons.len(),
                n == edges.len(),
                edges == self@.nodes[node as int].edges,
                entries == Seq::new(edges.len(), |i: int| edge_text(edges[i])),
                out@ == old(out)@ + join(entries.take(j as int), seq!['|']),
            decreases n - j,
        {
            proof {
                self.lemma_view();
                lemma_join_take(entries, seq!['|'], j as int);
            }
            let ghost before = out@;
            if j > 0 {
                out.push('|');
            }
            let son = &self.nodes[node].sons[j];
            out.push('(');
            push_decimal(out, son.node);
            out.push(',');
            out.push(' ');
            push_str(out, son.data.san.as_str());
            out.push(')');
            proof {
                if j > 0 {
                    assert(out@ =~= before + seq!['|'] + entries[j as int]);
                } else {
                    assert(out@ =~= before + entries[j as int]);
                }
            }
            j += 1;
        }
        assert(entries.take(j as int) =~= entries);
    }

    /// The text of the tree.
    pub fn to_string(&self) -> (r: String)
        requires
            self.inv(),
        ensures
            r@ == tree_text::<B>(self@),
    {
        proof {
            self.lemma_view();
        }
        let mut out: Vec<char> = Vec::new();
        push_str(&mut out, "[chess game tree]");
        out.push('\n');
        let fen = self.nodes[self.root].board.write_fen();
        push_str(&mut out, fen.as_str());
        out.push('\n');
        push_decimal(&mut out, self.nodes.len());
        out.push('\n');
        let ghost head = out@;
        let ghost t = self@;
        let ghost ls = Seq::new(t.nodes.len(), |i: int| node_line(t.nodes[i]));
        let mut i: usize = 0;
        proof {
            assert(ls.take(0) =~= Seq::<Seq<char>>::empty());
            assert(out@ =~= head + join(ls.take(0), seq!['\n']));
        }
        while i < self.nodes.len()
            invariant
                i <= self.nodes.len(),
                self.inv(),
                t == self@,
                ls == Seq::new(t.nodes.len(), |i: int| node_line(t.nodes[i])),
                out@ == head + join(ls.take(i as int), seq!['\n']),
            decreases self.nodes.len() - i,
        {
            proof {
                self.lemma_view();
                lemma_join_take(ls, seq!['\n'], i as int);
            }
            let ghost before = out@;
            if i > 0 {
                out.push('\n');
            }
            self.push_line(i, &mut out);
            proof {
                if i > 0 {
                    assert(out@ =~= before + seq!['\n'] + ls[i as int]);
                } else {
                    assert(out@ =~= before + ls[i as int]);
                }
            }
            i += 1;
        }
        let r = string_of(&out, 0, out.len());
        proof {
            self.lemma_view();
            assert(ls.take(i as int) =~= ls);
            assert(out@.subrange(0, out.len() as int) =~= out@);
            assert(r@ =~= tree_text::<B>(self@));
        }
        r
    }

    /// Reads an entry of the line of `node` and hangs the child on it.
    fn read_entry(&mut self, node: usize, piece: &Vec<char>) -> (ok: bool)
        requires
            loading::<B>(old(self)@, node as int),
            node < old(self)@.nodes.len(),
            old(self).root == 0,
        ensures
            final(self).root == 0,
            match load_entry::<B>(old(self)@, node as int, piece@) {
                Some(t) => ok && final(self)@ == t && loading::<B>(t, node as int) && t.nodes.len() == old(self)@.nodes.len(),
                None => !ok,
            },
    {
        let ghost t = self@;
        let n = piece.len();
        if n < 2 || piece[0] != '(' || piece[n - 1] != ')' {
            return false;
        }
        let ghost inner = piece@.subrange(1, n - 1);
        let mut c: usize = 1;
        while c < n - 1 && !(piece[c] == ',' && c + 1 < n - 1 && piece[c + 1] == ' ')
            invariant
                1 <= c <= n - 1,
                n == piece.len(),
                inner == piece@.subrange(1, n - 1),
                first_comma(inner, 0) == first_comma(inner, c - 1),
            decreases n - c,
        {
            assert(inner[c - 1] == piece[c as int]);
            if c + 1 < n - 1 {
                assert(inner[c as int] == piece[c + 1]);
            }
            c += 1;
        }
        proof {
            if c < n - 1 {
                assert(inner[c - 1] == piece[c as int]);
                assert(inner[c as int] == piece[c + 1]);
            }
            lemma_first_comma_bounds(inner, 0);
        }
        if c >= n - 1 {
            return false;
        }
        proof {
            assert(piece@.subrange(1, c as int) =~= inner.take(c - 1));
            assert(piece@.subrange(c + 2, n - 1) =~= inner.skip(c - 1 + 2));
            self.lemma_view();
            assert(B::valid(t.nodes[node as int].board));
        }
        let son = match parse_number(piece, 1, c) {
            Some(son) => son,
            None => {
                return false;
            },
        };
        let san = string_of(piece, c + 2, n - 1);
        let step = match self.nodes[node].board.read_step(san) {
            Some(step) => step,
            None => {
                return false;
            },
        };
        if son <= node || son >= self.nodes.len() || self.nodes[son].parent.is_some() {
            return false;
        }
        let board = match self.nodes[node].board.try_move(step) {
            Some(board) => board,
            None => {
                return false;
            },
        };
        let data = MoveData {
            ply: self.nodes[node].board.get_fullmove(),
            san: self.nodes[node].board.write_step(step).unwrap(),
            player: self.nodes[node].board.get_active_player(),
        };
        let ghost edge = (Son { step, node: son, data })@;
        self.nodes[son].board = board;
        self.nodes[son].parent = Some(node);
        self.nodes[node].sons.push(Son { step, node: son, data });
        proof {
            let want = attach::<B>(t, node as int, son as int, step);
            self.lemma_view();
            assert(self@.nodes[node as int].edges =~= t.nodes[node as int].edges.push(edge));
            assert(self@.nodes[son as int].edges =~= t.nodes[son as int].edges);
            assert forall|k: int| 0 <= k < self@.nodes.len() implies #[trigger] self@.nodes[k] == want.nodes[k] by {
                if k != node && k != son {
                    assert(self.nodes[k] == old(self).nodes[k]);
                }
            }
            assert(self@.nodes =~= want.nodes);
            lemma_attach_loading::<B>(t, node as int, son as int, step);
        }
        true
    }

    /// Reads the line of `node`.
    #[verifier::loop_isolation(false)]
    fn read_line(&mut self, node: usize, line: &Vec<char>) -> (ok: bool)
        requires
            loading::<B>(old(self)@, node as int),
            node < old(self)@.nodes.len(),
            old(self).root == 0,
        ensures
            final(self).root == 0,
            match load_line::<B>(old(self)@, node as int, line@) {
                Some(t) => ok && final(self)@ == t && loading::<B>(t, node as int) && t.nodes.len() == old(self)@.nodes.len(),
                None => !ok,
            },
    {
        if line.len() == 0 {
            return true;
        }
        let pieces = split_at(line, '|');
        let ghost ps = split(line@, '|');
        let ghost t = self@;
        let mut k: usize = 0;
        while k < pieces.len()
            invariant
                k <= pieces.len(),
                ps == grid_view(pieces),
                self.root == 0,
                node < t.nodes.len(),
                load_entries::<B>(t, node as int, ps, k as nat) == Some(self@),
                loading::<B>(self@, node as int),
                self@.nodes.len() == t.nodes.len(),
            decreases pieces.len() - k,
        {
            assert(ps[k as int] == pieces[k as int]@);
            assert(ps.len() == pieces.len());
            if !self.read_entry(node, &pieces[k]) {
                proof {
                    assert(load_entries::<B>(t, node as int, ps, (k + 1) as nat) is None);
                    lemma_load_entries_fail::<B>(t, node as int, ps, (k + 1) as nat, ps.len());
                }
                return false;
            }
            k += 1;
        }
        assert(ps.len() == pieces.len());
        true
    }

    /// Reads a tree from its text; no tree where the text does not
    /// describe one.
    #[verifier::loop_isolation(false)]
    pub fn from_string(s: String) -> (r: Option<Self>)
        ensures
            match r {
                Some(t) => t.inv() && tree_parse::<B>(s@) == Some(t@),
                None => tree_parse::<B>(s@) is None,
            },
    {
        let text = chars_of(s.as_str());
        let trimmed = trim_text(&text);
        let ls = split_lines(&trimmed);
        let ghost all = lines(trim(s@));
        assert(all == grid_view(ls));
        if ls.len() < 3 {
            return None;
        }
        let header = chars_of("[chess game tree]");
        assert(all[0] == ls[0]@ && all[1] == ls[1]@ && all[2] == ls[2]@);
        if !same_text(&ls[0], &header) {
            return None;
        }
        assert(ls[2]@.subrange(0, ls[2].len() as int) =~= ls[2]@);
        assert(ls[1]@.subrange(0, ls[1].len() as int) =~= ls[1]@);
        let count = match parse_number(&ls[2], 0, ls[2].len()) {
            Some(c) => c,
            None => {
                return None;
            },
        };
        if count == 0 || count > text.len() {
            return None;
        }
        let root = match B::read_fen(string_of(&ls[1], 0, ls[1].len())) {
            Some(b) => b,
            None => {
                return None;
            },
        };
        let ghost start = load_start::<B>(root@, count as nat);
        let mut nodes: Vec<GameTreeNode<B>> = Vec::new();
        nodes.push(GameTreeNode::new(root));
        assert(nodes[0]@.edges =~= Seq::empty());
        let mut i: usize = 1;
        while i < count
            invariant
                1 <= i <= count,
                nodes.len() == i,
                start == load_start::<B>(root@, count as nat),
                forall|k: int| 0 <= k < i ==> (#[trigger] nodes[k])@ == start.nodes[k],
                i > 1 ==> B::valid(B::initial()),
            decreases count - i,
        {
            let node = GameTreeNode::new(B::initial_board());
            assert(node@.edges =~= Seq::empty());
            nodes.push(node);
            i += 1;
        }
        assert(nodes[0]@.edges =~= Seq::empty());
        let mut tree = GameTree { nodes, root: 0, focus: 0 };
        let limit = if count <= ls.len() - 3 {
            count
        } else {
            ls.len() - 3
        };
        let ghost rest = all.skip(3);
        proof {
            tree.lemma_view();
            assert(tree@.nodes =~= start.nodes);
            assert(tree@ == start);
        }
        let mut node: usize = 0;
        while node < limit
            invariant
                node <= limit <= count,
                limit <= ls.len() - 3,
                all == grid_view(ls),
                rest == all.skip(3),
                tree.root == 0,
                tree@.nodes.len() == count,
                load_lines::<B>(start, rest, node as nat) == Some(tree@),
                loading::<B>(tree@, node as int - 1),
            decreases limit - node,
        {
            assert(rest[node as int] == ls[3 + node]@);
            if !tree.read_line(node, &ls[3 + node]) {
                proof {
                    assert(load_lines::<B>(start, rest, (node + 1) as nat) is None);
                    lemma_load_lines_fail::<B>(start, rest, (node + 1) as nat, limit as nat);
                }
                return None;
            }
            node += 1;
        }
        let mut c: usize = 1;
        while c < count
            invariant
                1 <= c <= count,
                tree.root == 0,
                tree.nodes.len() == count,
                tree@.nodes.len() == count,
                forall|k: int| 0 < k < c ==> (#[trigger] tree@.nodes[k]).parent is Some,
            decreases count - c,
        {
            proof {
                tree.lemma_view();
            }
            if tree.nodes[c].parent.is_none() {
                proof {
                    assert(tree@.nodes[c as int].parent is None);
                    assert(load_lines::<B>(start, rest, limit as nat) == Some(tree@));
                    assert(all.len() == ls.len());

                }
                return None;
            }
            c += 1;
        }
        proof {
            let t = tree@;
            assert forall|k: int| 0 < k < t.nodes.len() implies #[trigger] has_parent(t, k) by {
                assert(t.nodes[k].parent is Some);
            }
        }
        Some(tree)
    }
}


/// The numbers of `v` as integers.
pub open spec fn ids(v: Seq<usize>) -> Seq<int> {
    Seq::new(v.len(), |i: int| v[i] as int)
}

pub open spec fn opt_int(o: Option<usize>) -> Option<int> {
    match o {
        Some(n) => Some(n as int),
        None => None,
    }
}

impl<B: Board> GameTree<B> {
    /// Appends the nodes under `current` in the order of the walk, without
    /// `node_to_delete` and what is under it.
    fn collect_remaining_nodes(&self, current: usize, node_to_delete: usize, remaining_nodes: &mut Vec<usize>)
        requires
            self.inv(),
            current < self@.nodes.len(),
        ensures
            ids(final(remaining_nodes)@) == ids(old(remaining_nodes)@) + walk(
                self@,
                current as int,
                node_to_delete as int,
            ),
        decreases self@.nodes.len() - current,
    {
        let ghost t = self@;
        let ghost before = ids(remaining_nodes@);
        proof {
            self.lemma_view();
        }
        if current == node_to_delete {
            assert(ids(remaining_nodes@) =~= before + walk(t, current as int, node_to_delete as int));
            return ;
        }
        remaining_nodes.push(current);
        let n = self.nodes[current].sons.len();
        let mut k: usize = 0;
        assert(ids(remaining_nodes@) =~= before + seq![current as int] + walk_edges(
            t,
            current as int,
            node_to_delete as int,
            0,
        ));
        while k < n
            invariant
                k <= n,
                self.inv(),
                t == self@,
                current < self.nodes.len(),
                current != node_to_delete,
                n == self.nodes[current as int].sons.len(),
                n == t.nodes[current as int].edges.len(),
                ids(remaining_nodes@) == before + seq![current as int] + walk_edges(
                    t,
                    current as int,
                    node_to_delete as int,
                    k as nat,
                ),
            decreases n - k,
        {
            proof {
                self.lemma_view();
                assert(edge_ok::<B>(t, current as int, k as int));
            }
            let son = self.nodes[current].sons[k].node;
            let ghost so_far = ids(remaining_nodes@);
            self.collect_remaining_nodes(son, node_to_delete, remaining_nodes);
            proof {
                assert(ids(remaining_nodes@) =~= before + seq![current as int] + walk_edges(
                    t,
                    current as int,
                    node_to_delete as int,
                    (k + 1) as nat,
                ));
            }
            k += 1;
        }
        assert(ids(remaining_nodes@) =~= before + walk(t, current as int, node_to_delete as int));
    }

    /// The `k`-th node of the new tree.
    fn kept(&self, remaining: &Vec<usize>, node_mapping: &Vec<Option<usize>>, k: usize) -> (node: GameTreeNode<B>)
        requires
            self.inv(),
            k < remaining.len(),
            remaining[k as int] < self@.nodes.len(),
            node_mapping.len() == self@.nodes.len(),
            forall|n: int|
                0 <= n < node_mapping.len() ==> opt_int(#[trigger] node_mapping[n]) == renumber(ids(remaining@), n),
        ensures
            node@ == kept_node(self@, ids(remaining@), k as int),
    {
        let ghost t = self@;
        let ghost order = ids(remaining@);
        proof {
            self.lemma_view();
        }
        let old_index = remaining[k];
        assert(order[k as int] == old_index);
        let board = self.nodes[old_index].board.duplicate();
        proof {
            if old_index > 0 {
                assert(has_parent(t, old_index as int));
            }
        }
        let parent = match self.nodes[old_index].parent {
            Some(p) => node_mapping[p],
            None => None,
        };
        let mut sons: Vec<Son<B::S>> = Vec::new();
        let n = self.nodes[old_index].sons.len();
        let ghost edges = t.nodes[old_index as int].edges;
        let mut e: usize = 0;
        assert(Seq::new(sons.len() as nat, |i: int| sons[i]@) =~= kept_edges(edges, order, 0));
        while e < n
            invariant
                e <= n,
                self.inv(),
                t == self@,
                order == ids(remaining@),
                old_index < self.nodes.len(),
                n == self.nodes[old_index as int].sons.len(),
                edges == t.nodes[old_index as int].edges,
                n == edges.len(),
                node_mapping.len() == t.nodes.len(),
                forall|n: int|
                    0 <= n < node_mapping.len() ==> opt_int(#[trigger] node_mapping[n]) == renumber(order, n),
                Seq::new(sons.len() as nat, |i: int| sons[i]@) == kept_edges(edges, order, e as nat),
            decreases n - e,
        {
            proof {
                self.lemma_view();
                assert(edge_ok::<B>(t, old_index as int, e as int));
            }
            let son = &self.nodes[old_index].sons[e];
            let ghost so_far = Seq::new(sons.len() as nat, |i: int| sons[i]@);
            match node_mapping[son.node] {
                Some(c) => {
                    let data = MoveData { ply: son.data.ply, san: son.data.san.clone(), player: son.data.player };
                    sons.push(Son { step: son.step, node: c, data });
                    assert(Seq::new(sons.len() as nat, |i: int| sons[i]@) =~= so_far.push(
                        EdgeModel { child: c as int, ..edges[e as int] },
                    ));
                },
                None => {},
            }
            e += 1;
        }
        GameTreeNode { board, sons, parent }
    }

    /// Deletes the node that `e` names with all that follows it. The root
    /// is not deleted. Where the focus was on a deleted node it goes to the
    /// root, and the position to show is handed out.
    pub fn handle_delete_variation(&mut self, e: &DeleteVariationEvent) -> (r: Option<UpdateBoard<B>>)
        requires
            old(self).inv(),
        ensures
            final(self).inv(),
            final(self)@ == tree_delete(old(self)@, e.node_id as int),
            e.node_id == 0 ==> final(self)@ == old(self)@,
            r is Some <==> e.node_id != 0 && renumber(
                walk(old(self)@, 0, e.node_id as int),
                old(self)@.focus,
            ) is None,
            r matches Some(u) ==> u.new_board@ == old(self)@.nodes[0].board,
    {
        let current = e.node_id;
        if current == self.root {
            return None;
        }
        let ghost t = self@;
        let mut remaining: Vec<usize> = Vec::new();
        assert(ids(remaining@) =~= Seq::<int>::empty());
        self.collect_remaining_nodes(self.root, current, &mut remaining);
        let ghost order = ids(remaining@);
        proof {
            self.lemma_view();
            assert(order =~= walk(t, 0, current as int));
            lemma_walk::<B>(t, 0, current as int);
            lemma_delete_wf::<B>(t, current as int);
        }
        let total = self.nodes.len();
        let mut node_mapping: Vec<Option<usize>> = Vec::new();
        let mut i: usize = 0;
        while i < total
            invariant
                i <= total,
                node_mapping.len() == i,
                forall|n: int| 0 <= n < i ==> (#[trigger] node_mapping[n]) is None,
            decreases total - i,
        {
            node_mapping.push(None);
            i += 1;
        }
        let mut k: usize = 0;
        while k < remaining.len()
            invariant
                k <= remaining.len(),
                order == ids(remaining@),
                walk_sound(t, order, 0, current as int),
                node_mapping.len() == total,
                total == t.nodes.len(),
                forall|n: int|
                    0 <= n < total ==> opt_int(#[trigger] node_mapping[n]) == position(order, n, k as nat),
            decreases remaining.len() - k,
        {
            assert(order[k as int] == remaining[k as int]);
            node_mapping[remaining[k]] = Some(k);
            k += 1;
        }
        let mut new_nodes: Vec<GameTreeNode<B>> = Vec::new();
        let mut j: usize = 0;
        while j < remaining.len()
            invariant
                j <= remaining.len(),
                new_nodes.len() == j,
                *self == *old(self),
                self.inv(),
                t == self@,
                order == ids(remaining@),
                walk_sound(t, order, 0, current as int),
                node_mapping.len() == t.nodes.len(),
                forall|n: int|
                    0 <= n < node_mapping.len() ==> opt_int(#[trigger] node_mapping[n]) == renumber(order, n),
                forall|a: int| 0 <= a < j ==> (#[trigger] new_nodes[a])@ == kept_node(t, order, a),
            decreases remaining.len() - j,
        {
            assert(order[j as int] == remaining[j as int]);
            let node = self.kept(&remaining, &node_mapping, j);
            new_nodes.push(node);
            j += 1;
        }
        proof {
            self.lemma_view();
        }
        let moved = node_mapping[self.focus];
        self.nodes = new_nodes;
        self.root = 0;
        match moved {
            Some(f) => {
                proof {
                    lemma_position(order, t.focus, order.len());
                }
                self.focus = f;
                proof {
                    self.lemma_view();
                    assert(self@.nodes =~= tree_delete(t, current as int).nodes);
                }
                None
            },
            None => {
                self.focus = 0;
                proof {
                    self.lemma_view();
                    assert(self@.nodes =~= tree_delete(t, current as int).nodes);
                    assert(order[0] == 0);
                }
                Some(UpdateBoard::new(self.board()))
            },
        }
    }
}

} // verus!
