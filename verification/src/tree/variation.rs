//! Deleting a variation: the nodes that stay are numbered anew in the order
//! in which a walk from the root meets them.
use vstd::prelude::*;
use crate::general::board::Board;
use crate::tree::game_tree::{edge_ok, edge_sound, has_parent, tree_wf, EdgeModel, NodeModel, TreeModel};

verus! {

/// The nodes under `node`, itself first and then those under each of its
/// children in turn, without `skip` and what is under it.
pub open spec fn walk<V, S>(t: TreeModel<V, S>, node: int, skip: int) -> Seq<int>
    decreases t.nodes.len() - node, t.nodes[node].edges.len() + 1,
{
    if node == skip || node < 0 || node >= t.nodes.len() {
        Seq::empty()
    } else {
        seq![node] + walk_edges(t, node, skip, t.nodes[node].edges.len())
    }
}

/// The nodes under the first `k` children of `node`.
pub open spec fn walk_edges<V, S>(t: TreeModel<V, S>, node: int, skip: int, k: nat) -> Seq<int>
    decreases t.nodes.len() - node, k,
{
    if k == 0 || node < 0 || node >= t.nodes.len() || k > t.nodes[node].edges.len() {
        Seq::empty()
    } else {
        let c = t.nodes[node].edges[k - 1].child;
        walk_edges(t, node, skip, (k - 1) as nat) + (if node < c < t.nodes.len() {
            walk(t, c, skip)
        } else {
            Seq::empty()
        })
    }
}

/// The last place before the `k`-th at which `n` stands in `order`.
pub open spec fn position(order: Seq<int>, n: int, k: nat) -> Option<int>
    decreases k,
{
    if k == 0 {
        None
    } else if k <= order.len() && order[k - 1] == n {
        Some(k - 1)
    } else {
        position(order, n, (k - 1) as nat)
    }
}

/// The new number of the old node `n`, where it stays.
pub open spec fn renumber(order: Seq<int>, n: int) -> Option<int> {
    position(order, n, order.len())
}

/// Of the first `k` edges, those whose child stays, with the child's new
/// number.
pub open spec fn kept_edges<S>(edges: Seq<EdgeModel<S>>, order: Seq<int>, k: nat) -> Seq<EdgeModel<S>>
    decreases k,
{
    if k == 0 {
        Seq::empty()
    } else {
        let rest = kept_edges(edges, order, (k - 1) as nat);
        match renumber(order, edges[k - 1].child) {
            Some(c) => rest.push(EdgeModel { child: c, ..edges[k - 1] }),
            None => rest,
        }
    }
}

/// The node that takes the `k`-th place: the old node with its parent and
/// the children that stay under their new numbers.
pub open spec fn kept_node<V, S>(t: TreeModel<V, S>, order: Seq<int>, k: int) -> NodeModel<V, S> {
    let old = t.nodes[order[k]];
    NodeModel {
        board: old.board,
        parent: match old.parent {
            Some(p) => renumber(order, p),
            None => None,
        },
        edges: kept_edges(old.edges, order, old.edges.len()),
    }
}

/// The tree without `target` and what follows it. The root cannot be
/// deleted. The nodes that stay are numbered in the order of the walk from
/// the root; the focus stays on its node, or goes to the root where its
/// node is deleted.
pub open spec fn tree_delete<V, S>(t: TreeModel<V, S>, target: int) -> TreeModel<V, S> {
    if target == 0 {
        t
    } else {
        let order = walk(t, 0, target);
        TreeModel {
            nodes: Seq::new(order.len(), |k: int| kept_node(t, order, k)),
            focus: match renumber(order, t.focus) {
                Some(f) => f,
                None => 0,
            },
        }
    }
}

/// `a` is `m` or stands on the way from the root to `m`.
pub open spec fn anc<V, S>(t: TreeModel<V, S>, m: int, a: int) -> bool
    decreases m,
{
    m == a || (0 < m < t.nodes.len() && t.nodes[m].parent is Some && 0 <= t.nodes[m].parent.unwrap() < m
        && anc(t, t.nodes[m].parent.unwrap(), a))
}

pub proof fn lemma_anc_le<V, S>(t: TreeModel<V, S>, m: int, a: int)
    requires
        anc(t, m, a),
    ensures
        a <= m,
    decreases m,
{
    if m != a {
        lemma_anc_le(t, t.nodes[m].parent.unwrap(), a);
    }
}

/// The nodes on the way to `m` lie on one line.
pub proof fn lemma_anc_chain<V, S>(t: TreeModel<V, S>, m: int, a: int, b: int)
    requires
        anc(t, m, a),
        anc(t, m, b),
    ensures
        anc(t, a, b) || anc(t, b, a),
    decreases m,
{
    if m != a && m != b {
        lemma_anc_chain(t, t.nodes[m].parent.unwrap(), a, b);
    }
}

/// No node lies under two children of one node.
pub proof fn lemma_siblings<V, S>(t: TreeModel<V, S>, m: int, a: int, b: int, q: int)
    requires
        anc(t, m, a),
        anc(t, m, b),
        0 <= q < a < t.nodes.len(),
        q < b < t.nodes.len(),
        t.nodes[a].parent == Some(q),
        t.nodes[b].parent == Some(q),
    ensures
        a == b,
{
    lemma_anc_chain(t, m, a, b);
    if a != b {
        if anc(t, a, b) {
            lemma_anc_le(t, q, b);
        } else {
            lemma_anc_le(t, q, a);
        }
    }
}

pub proof fn lemma_position(order: Seq<int>, n: int, k: nat)
    requires
        k <= order.len(),
    ensures
        match position(order, n, k) {
            Some(i) => 0 <= i < k && order[i] == n,
            None => forall|i: int| 0 <= i < k ==> order[i] != n,
        },
    decreases k,
{
    if k > 0 && order[k - 1] != n {
        lemma_position(order, n, (k - 1) as nat);
    }
}

/// No number stands twice in `w`.
pub open spec fn distinct(w: Seq<int>) -> bool {
    forall|i: int, j: int| 0 <= i < j < w.len() ==> w[i] != w[j]
}

pub proof fn lemma_renumber(order: Seq<int>, j: int)
    requires
        distinct(order),
        0 <= j < order.len(),
    ensures
        renumber(order, order[j]) == Some(j),
{
    lemma_position(order, order[j], order.len());
}


/// The child at the end of the `e`-th edge of `n`.
pub open spec fn kid<V, S>(t: TreeModel<V, S>, n: int, e: int) -> int {
    t.nodes[n].edges[e].child
}

/// `m` lies under one of the first `k` children of `node`.
pub open spec fn under_child<V, S>(t: TreeModel<V, S>, m: int, node: int, k: int) -> bool {
    exists|i: int| 0 <= i < k && #[trigger] anc(t, m, kid(t, node, i))
}

/// The parent of the `j`-th node of `w` stands before it in `w`.
pub open spec fn earlier<V, S>(t: TreeModel<V, S>, w: Seq<int>, j: int) -> bool {
    exists|i: int| 0 <= i < j && #[trigger] w[i] == t.nodes[w[j]].parent.unwrap()
}

/// The nodes of `w` are nodes from `lo` on, none of them `skip`.
pub open spec fn in_range<V, S>(t: TreeModel<V, S>, w: Seq<int>, lo: int, skip: int) -> bool {
    forall|j: int| 0 <= j < w.len() ==> lo <= #[trigger] w[j] < t.nodes.len() && w[j] != skip
}

/// With a node, `w` holds its children, but for `skip`.
pub open spec fn closed<V, S>(t: TreeModel<V, S>, w: Seq<int>, skip: int) -> bool {
    forall|j: int, e: int|
        0 <= j < w.len() && 0 <= e < t.nodes[w[j]].edges.len() && #[trigger] kid(t, w[j], e) != skip
            ==> w.contains(kid(t, w[j], e))
}

/// What holds of the walk under `node`.
pub open spec fn walk_sound<V, S>(t: TreeModel<V, S>, w: Seq<int>, node: int, skip: int) -> bool {
    &&& in_range(t, w, node, skip)
    &&& forall|j: int| 0 <= j < w.len() ==> anc(t, #[trigger] w[j], node)
    &&& distinct(w)
    &&& forall|j: int| 0 < j < w.len() ==> #[trigger] earlier(t, w, j)
    &&& closed(t, w, skip)
    &&& w.len() > 0 ==> w[0] == node
    &&& node != skip ==> w.len() > 0
}

/// What holds of the walk under the first `k` children of `node`.
pub open spec fn walk_edges_sound<V, S>(t: TreeModel<V, S>, w: Seq<int>, node: int, skip: int, k: int) -> bool {
    &&& in_range(t, w, node + 1, skip)
    &&& forall|j: int| 0 <= j < w.len() ==> under_child(t, #[trigger] w[j], node, k)
    &&& distinct(w)
    &&& forall|j: int|
        0 <= j < w.len() ==> t.nodes[w[j]].parent == Some(node) || #[trigger] earlier(t, w, j)
    &&& closed(t, w, skip)
    &&& forall|i: int| 0 <= i < k && #[trigger] kid(t, node, i) != skip ==> w.contains(kid(t, node, i))
}

pub proof fn lemma_anc_up<V, S>(t: TreeModel<V, S>, m: int, c: int, q: int)
    requires
        anc(t, m, c),
        0 <= q < c < t.nodes.len(),
        t.nodes[c].parent == Some(q),
    ensures
        anc(t, m, q),
    decreases m,
{
    if m != c {
        lemma_anc_up(t, t.nodes[m].parent.unwrap(), c, q);
    } else {
        assert(anc(t, q, q));
    }
}

/// What is in one of two sequences is in the two put together.
pub proof fn lemma_contains_add(a: Seq<int>, b: Seq<int>, x: int)
    requires
        a.contains(x) || b.contains(x),
    ensures
        (a + b).contains(x),
{
    if a.contains(x) {
        let i = choose|i: int| 0 <= i < a.len() && a[i] == x;
        assert((a + b)[i] == x);
    } else {
        let i = choose|i: int| 0 <= i < b.len() && b[i] == x;
        assert((a + b)[a.len() + i] == x);
    }
}

pub proof fn lemma_walk<B: Board>(t: TreeModel<B::V, B::S>, node: int, skip: int)
    requires
        tree_wf::<B>(t),
        0 <= node < t.nodes.len(),
    ensures
        walk_sound(t, walk(t, node, skip), node, skip),
    decreases t.nodes.len() - node, t.nodes[node].edges.len() + 1,
{
    let w = walk(t, node, skip);
    if node != skip {
        let n = t.nodes[node].edges.len();
        let es = walk_edges(t, node, skip, n);
        lemma_walk_edges::<B>(t, node, skip, n);
        assert(w == seq![node] + es);
        assert forall|j: int| 0 <= j < w.len() implies anc(t, #[trigger] w[j], node) by {
            if j > 0 {
                assert(w[j] == es[j - 1]);
                assert(under_child(t, es[j - 1], node, n as int));
                let i = choose|i: int| 0 <= i < n && #[trigger] anc(t, es[j - 1], kid(t, node, i));
                assert(edge_ok::<B>(t, node, i));
                lemma_anc_up(t, es[j - 1], kid(t, node, i), node);
            }
        }
        assert forall|i: int, j: int| 0 <= i < j < w.len() implies w[i] != w[j] by {
            assert(w[j] == es[j - 1]);
            if i > 0 {
                assert(w[i] == es[i - 1]);
            }
        }
        assert forall|j: int| 0 < j < w.len() implies #[trigger] earlier(t, w, j) by {
            assert(w[j] == es[j - 1]);
            if t.nodes[es[j - 1]].parent == Some(node) {
                assert(w[0] == t.nodes[w[j]].parent.unwrap());
            } else {
                assert(earlier(t, es, j - 1));
                let i = choose|i: int| 0 <= i < j - 1 && #[trigger] es[i] == t.nodes[es[j - 1]].parent.unwrap();
                assert(w[i + 1] == t.nodes[w[j]].parent.unwrap());
            }
        }
        assert forall|j: int, e: int|
            0 <= j < w.len() && 0 <= e < t.nodes[w[j]].edges.len() && #[trigger] kid(t, w[j], e) != skip implies w.contains(
            kid(t, w[j], e),
        ) by {
            if j == 0 {
                assert(es.contains(kid(t, node, e)));
            } else {
                assert(w[j] == es[j - 1]);
                assert(es.contains(kid(t, es[j - 1], e)));
            }
            lemma_contains_add(seq![node], es, kid(t, w[j], e));
        }
        assert forall|j: int| 0 <= j < w.len() implies node <= #[trigger] w[j] < t.nodes.len() && w[j] != skip by {
            if j > 0 {
                assert(w[j] == es[j - 1]);
            }
        }
    }
}

pub proof fn lemma_walk_edges<B: Board>(t: TreeModel<B::V, B::S>, node: int, skip: int, k: nat)
    requires
        tree_wf::<B>(t),
        0 <= node < t.nodes.len(),
        k <= t.nodes[node].edges.len(),
    ensures
        walk_edges_sound(t, walk_edges(t, node, skip, k), node, skip, k as int),
    decreases t.nodes.len() - node, k,
{
    let w = walk_edges(t, node, skip, k);
    if k > 0 {
        let c = kid(t, node, k - 1);
        assert(edge_ok::<B>(t, node, k - 1));
        let a = walk_edges(t, node, skip, (k - 1) as nat);
        let b = walk(t, c, skip);
        lemma_walk_edges::<B>(t, node, skip, (k - 1) as nat);
        lemma_walk::<B>(t, c, skip);
        assert(w == a + b);
        assert forall|j: int| 0 <= j < w.len() implies under_child(t, #[trigger] w[j], node, k as int) by {
            if j < a.len() {
                assert(w[j] == a[j]);
                assert(under_child(t, a[j], node, k - 1));
                let i = choose|i: int| 0 <= i < k - 1 && #[trigger] anc(t, a[j], kid(t, node, i));
                assert(anc(t, w[j], kid(t, node, i)));
            } else {
                assert(w[j] == b[j - a.len()]);
                assert(anc(t, w[j], kid(t, node, k - 1)));
            }
        }
        assert forall|i: int, j: int| 0 <= i < j < w.len() implies w[i] != w[j] by {
            if j < a.len() {
                assert(w[i] == a[i] && w[j] == a[j]);
            } else if i >= a.len() {
                assert(w[i] == b[i - a.len()] && w[j] == b[j - a.len()]);
            } else {
                assert(w[i] == a[i] && w[j] == b[j - a.len()]);
                if a[i] == b[j - a.len()] {
                    assert(under_child(t, a[i], node, k - 1));
                    let e = choose|e: int| 0 <= e < k - 1 && #[trigger] anc(t, a[i], kid(t, node, e));
                    assert(edge_ok::<B>(t, node, e));
                    assert(anc(t, b[j - a.len()], c));
                    lemma_siblings(t, a[i], kid(t, node, e), c, node);
                    assert(t.nodes[node].edges[e].child != t.nodes[node].edges[k - 1].child);
                }
            }
        }
        assert forall|j: int| 0 <= j < w.len() implies t.nodes[w[j]].parent == Some(node) || #[trigger] earlier(
            t,
            w,
            j,
        ) by {
            if j < a.len() {
                assert(w[j] == a[j]);
                if t.nodes[a[j]].parent != Some(node) {
                    assert(earlier(t, a, j));
                    let i = choose|i: int| 0 <= i < j && #[trigger] a[i] == t.nodes[a[j]].parent.unwrap();
                    assert(w[i] == t.nodes[w[j]].parent.unwrap());
                }
            } else {
                let jb = j - a.len();
                assert(w[j] == b[jb]);
                if jb > 0 {
                    assert(earlier(t, b, jb));
                    let i = choose|i: int| 0 <= i < jb && #[trigger] b[i] == t.nodes[b[jb]].parent.unwrap();
                    assert(w[a.len() + i] == t.nodes[w[j]].parent.unwrap());
                }
            }
        }
        assert forall|j: int, e: int|
            0 <= j < w.len() && 0 <= e < t.nodes[w[j]].edges.len() && #[trigger] kid(t, w[j], e) != skip implies w.contains(
            kid(t, w[j], e),
        ) by {
            if j < a.len() {
                assert(w[j] == a[j]);
                assert(a.contains(kid(t, a[j], e)));
            } else {
                assert(w[j] == b[j - a.len()]);
                assert(b.contains(kid(t, b[j - a.len()], e)));
            }
            lemma_contains_add(a, b, kid(t, w[j], e));
        }
        assert forall|i: int| 0 <= i < k && #[trigger] kid(t, node, i) != skip implies w.contains(kid(t, node, i)) by {
            if i < k - 1 {
                assert(a.contains(kid(t, node, i)));
            } else {
                assert(b[0] == c);
            }
            lemma_contains_add(a, b, kid(t, node, i));
        }
        assert forall|j: int| 0 <= j < w.len() implies node + 1 <= #[trigger] w[j] < t.nodes.len() && w[j] != skip by {
            if j < a.len() {
                assert(w[j] == a[j]);
            } else {
                assert(w[j] == b[j - a.len()]);
            }
        }
    }
}


/// The `e2`-th kept edge is one of the first `k` edges under its child's new
/// number.
pub open spec fn kept_from<S>(edges: Seq<EdgeModel<S>>, order: Seq<int>, r: Seq<EdgeModel<S>>, e2: int, k: int) -> bool {
    exists|e: int|
        0 <= e < k && #[trigger] renumber(order, edges[e].child) == Some(r[e2].child) && r[e2] == (EdgeModel {
            child: r[e2].child,
            ..edges[e]
        })
}

/// One of the edges of `r` leads to `c`.
pub open spec fn leads_to<S>(r: Seq<EdgeModel<S>>, c: int) -> bool {
    exists|e2: int| 0 <= e2 < r.len() && #[trigger] r[e2].child == c
}

pub proof fn lemma_kept_edges<S>(edges: Seq<EdgeModel<S>>, order: Seq<int>, k: nat)
    requires
        k <= edges.len(),
    ensures
        forall|e2: int|
            0 <= e2 < kept_edges(edges, order, k).len() ==> #[trigger] kept_from(
                edges,
                order,
                kept_edges(edges, order, k),
                e2,
                k as int,
            ),
        forall|e: int|
            0 <= e < k && renumber(order, edges[e].child) is Some ==> leads_to(
                kept_edges(edges, order, k),
                #[trigger] renumber(order, edges[e].child).unwrap(),
            ),
        (forall|i: int, j: int| 0 <= i < j < k ==> (#[trigger] edges[i]).child != (#[trigger] edges[j]).child)
            ==> (forall|i: int, j: int|
            0 <= i < j < kept_edges(edges, order, k).len() ==> (#[trigger] kept_edges(edges, order, k)[i]).child != (
            #[trigger] kept_edges(edges, order, k)[j]).child),
    decreases k,
{
    let r = kept_edges(edges, order, k);
    if k > 0 {
        let rest = kept_edges(edges, order, (k - 1) as nat);
        lemma_kept_edges(edges, order, (k - 1) as nat);
        let last = renumber(order, edges[k - 1].child);
        assert forall|e2: int| 0 <= e2 < r.len() implies #[trigger] kept_from(edges, order, r, e2, k as int) by {
            if e2 < rest.len() {
                assert(kept_from(edges, order, rest, e2, k - 1));
                let e = choose|e: int|
                    0 <= e < k - 1 && #[trigger] renumber(order, edges[e].child) == Some(rest[e2].child) && rest[e2] == (
                    EdgeModel { child: rest[e2].child, ..edges[e] });
                assert(renumber(order, edges[e].child) == Some(r[e2].child));
            } else {
                assert(renumber(order, edges[k - 1].child) == Some(r[e2].child));
            }
        }
        assert forall|e: int| 0 <= e < k && renumber(order, edges[e].child) is Some implies leads_to(
            r,
            #[trigger] renumber(order, edges[e].child).unwrap(),
        ) by {
            let c = renumber(order, edges[e].child).unwrap();
            if e < k - 1 {
                assert(leads_to(rest, c));
                let e2 = choose|e2: int| 0 <= e2 < rest.len() && #[trigger] rest[e2].child == c;
                assert(r[e2].child == c);
            } else {
                assert(r[rest.len() as int].child == c);
            }
        }
        if forall|i: int, j: int| 0 <= i < j < k ==> (#[trigger] edges[i]).child != (#[trigger] edges[j]).child {
            assert forall|i: int, j: int| 0 <= i < j < r.len() implies (#[trigger] r[i]).child != (#[trigger] r[j]).child by {
                if j < rest.len() {
                    assert(rest[i].child != rest[j].child);
                } else {
                    assert(kept_from(edges, order, rest, i, k - 1));
                    let e = choose|e: int|
                        0 <= e < k - 1 && #[trigger] renumber(order, edges[e].child) == Some(rest[i].child) && rest[i] == (
                        EdgeModel { child: rest[i].child, ..edges[e] });
                    lemma_position(order, edges[e].child, order.len());
                    lemma_position(order, edges[k - 1].child, order.len());
                    assert(edges[e].child != edges[k - 1].child);
                }
            }
        }
    }
}

/// Deleting a variation keeps the invariant.
pub proof fn lemma_delete_wf<B: Board>(t: TreeModel<B::V, B::S>, target: int)
    requires
        tree_wf::<B>(t),
    ensures
        tree_wf::<B>(tree_delete(t, target)),
{
    if target != 0 {
        let order = walk(t, 0, target);
        let u = tree_delete(t, target);
        lemma_walk::<B>(t, 0, target);
        lemma_position(order, t.focus, order.len());
        assert forall|k: int| 0 <= k < order.len() implies renumber(order, #[trigger] order[k]) == Some(k) by {
            lemma_renumber(order, k);
        }
        assert forall|n: int| 0 <= n < u.nodes.len() implies B::valid(#[trigger] u.nodes[n].board) by {
            assert(B::valid(t.nodes[order[n]].board));
        }
        assert forall|p: int, i: int| 0 <= p < u.nodes.len() && 0 <= i < u.nodes[p].edges.len() implies #[trigger] edge_ok::<B>(
            u,
            p,
            i,
        ) by {
            let old = order[p];
            let edges = t.nodes[old].edges;
            lemma_kept_edges(edges, order, edges.len());
            let r = u.nodes[p].edges;
            assert(kept_from(edges, order, r, i, edges.len() as int));
            let e = choose|e: int|
                0 <= e < edges.len() && #[trigger] renumber(order, edges[e].child) == Some(r[i].child) && r[i] == (
                EdgeModel { child: r[i].child, ..edges[e] });
            let c = edges[e].child;
            let kc = r[i].child;
            assert(edge_ok::<B>(t, old, e));
            lemma_position(order, c, order.len());
            assert(order[kc] == c);
            assert(earlier(t, order, kc));
            let j = choose|j: int| 0 <= j < kc && #[trigger] order[j] == t.nodes[order[kc]].parent.unwrap();
            if j < p {
                assert(order[j] != order[p]);
            } else if p < j {
                assert(order[p] != order[j]);
            }
            assert(edge_sound::<B>(u.nodes[p].board, r[i], u.nodes[kc].board));
        }
        assert forall|c: int| 0 < c < u.nodes.len() implies #[trigger] has_parent(u, c) by {
            let old = order[c];
            assert(order[0] != order[c]);
            assert(has_parent(t, old));
            let q = t.nodes[old].parent.unwrap();
            assert(earlier(t, order, c));
            let j = choose|j: int| 0 <= j < c && #[trigger] order[j] == t.nodes[order[c]].parent.unwrap();
            assert(renumber(order, order[j]) == Some(j));
            let edges = t.nodes[q].edges;
            lemma_kept_edges(edges, order, edges.len());
            let e = choose|e: int| 0 <= e < edges.len() && #[trigger] edges[e].child == old;
            assert(renumber(order, edges[e].child) == Some(c));
            assert(leads_to(u.nodes[j].edges, renumber(order, edges[e].child).unwrap()));
            let e2 = choose|e2: int| 0 <= e2 < u.nodes[j].edges.len() && #[trigger] u.nodes[j].edges[e2].child == c;
            assert(u.nodes[j].edges[e2].child == c);
        }
        assert forall|p: int, i: int, j: int| 0 <= p < u.nodes.len() && 0 <= i < j < u.nodes[p].edges.len() implies (
        #[trigger] u.nodes[p].edges[i]).child != (#[trigger] u.nodes[p].edges[j]).child by {
            let edges = t.nodes[order[p]].edges;
            lemma_kept_edges(edges, order, edges.len());
            assert forall|a: int, b: int| 0 <= a < b < edges.len() implies (#[trigger] edges[a]).child != (
            #[trigger] edges[b]).child by {
                assert(t.nodes[order[p]].edges[a].child != t.nodes[order[p]].edges[b].child);
            }
        }
    }
}

} // verus!
