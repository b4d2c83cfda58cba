//! Writing a tree and reading it again gives the tree that was written,
//! with the focus at the root.
use vstd::prelude::*;
use crate::general::board::Board;
use crate::general::text::{decimal, first_comma, is_digit, is_space, join, lemma_decimal, lemma_join_chars, lemma_join_concat, lemma_join_empty_tail, lemma_join_ends, lemma_join_push, lemma_lines_joined, lemma_split_joined, lemma_trim, lines, no_char, number, strip_cr, trim};
use crate::tree::game_tree::{all_hung, attach, child_edge, edge_ok, edge_text, entry_parts, has_parent, load_entries, load_entry, load_line, load_lines, load_start, node_line, tree_parse, tree_text, tree_wf, EdgeModel, NodeModel, TreeModel};

verus! {

/// What the search for the edge to `c` finds.
pub proof fn lemma_child_edge_is<S>(edges: Seq<EdgeModel<S>>, c: int, from: int)
    requires
        0 <= from,
    ensures
        match child_edge(edges, c, from) {
            Some(e) => from <= e < edges.len() && edges[e].child == c,
            None => forall|j: int| from <= j < edges.len() ==> (#[trigger] edges[j]).child != c,
        },
    decreases edges.len() - from,
{
    if from < edges.len() && edges[from].child != c {
        lemma_child_edge_is(edges, c, from + 1);
    }
}

/// Where no child hangs on two edges, the edge to a child is the one found.
pub proof fn lemma_child_edge_at<S>(edges: Seq<EdgeModel<S>>, j: int)
    requires
        0 <= j < edges.len(),
        forall|a: int, b: int| 0 <= a < b < edges.len() ==> (#[trigger] edges[a]).child != (#[trigger] edges[b]).child,
    ensures
        child_edge(edges, edges[j].child, 0) == Some(j),
{
    lemma_child_edge_is(edges, edges[j].child, 0);
}

/// The place of the edge to `i` among the edges of its parent.
pub open spec fn edge_pos<V, S>(t: TreeModel<V, S>, i: int) -> int {
    child_edge(t.nodes[t.nodes[i].parent.unwrap()].edges, i, 0).unwrap()
}

/// Node `i` has been hung on its parent once the lines of the nodes before
/// `k` and the first `j` entries of the line of `k` are read.
pub open spec fn hung<V, S>(t: TreeModel<V, S>, i: int, k: int, j: int) -> bool {
    i > 0 && t.nodes[i].parent is Some && (t.nodes[i].parent.unwrap() < k || (t.nodes[i].parent.unwrap() == k
        && 0 <= edge_pos(t, i) < j))
}

pub open spec fn stage_node<B: Board>(t: TreeModel<B::V, B::S>, i: int, k: int, j: int) -> NodeModel<B::V, B::S> {
    NodeModel {
        board: if i == 0 || hung(t, i, k, j) {
            t.nodes[i].board
        } else {
            B::initial()
        },
        parent: if hung(t, i, k, j) {
            t.nodes[i].parent
        } else {
            None
        },
        edges: if i < k {
            t.nodes[i].edges
        } else if i == k {
            t.nodes[i].edges.take(j)
        } else {
            Seq::empty()
        },
    }
}

/// The tree as far as it is read once the lines of the nodes before `k` and
/// the first `j` entries of the line of `k` are read.
pub open spec fn stage<B: Board>(t: TreeModel<B::V, B::S>, k: int, j: int) -> TreeModel<B::V, B::S> {
    TreeModel { nodes: Seq::new(t.nodes.len(), |i: int| stage_node::<B>(t, i, k, j)), focus: 0 }
}

/// The notation of an edge denotes its step where the edge begins, and
/// holds neither a line feed nor a `|`.
pub proof fn lemma_edge_read<B: Board>(t: TreeModel<B::V, B::S>, i: int, e: int)
    requires
        tree_wf::<B>(t),
        0 <= i < t.nodes.len(),
        0 <= e < t.nodes[i].edges.len(),
    ensures
        B::legal(t.nodes[i].board, t.nodes[i].edges[e].step),
        B::parse_step(t.nodes[i].board, t.nodes[i].edges[e].san) == Some(t.nodes[i].edges[e].step),
        no_char(t.nodes[i].edges[e].san, '\n'),
        no_char(t.nodes[i].edges[e].san, '|'),
{
    assert(edge_ok::<B>(t, i, e));
    assert(B::valid(t.nodes[i].board));
    B::law_notation(t.nodes[i].board, t.nodes[i].edges[e].step);
}

/// The entry of an edge is read as its child and its notation.
pub proof fn lemma_entry_parts<S>(e: EdgeModel<S>)
    requires
        e.child >= 0,
    ensures
        entry_parts(edge_text(e)) == Some((decimal(e.child as nat), e.san)),
        no_char(e.san, '|') ==> no_char(edge_text(e), '|'),
        no_char(e.san, '\n') ==> no_char(edge_text(e), '\n'),
        edge_text(e).len() >= 4,
        edge_text(e).last() == ')',
{
    let d = decimal(e.child as nat);
    lemma_decimal(e.child as nat);
    let piece = edge_text(e);
    let inner = piece.subrange(1, piece.len() - 1);
    assert(inner =~= d + seq![',', ' '] + e.san);
    lemma_first_comma(inner, 0, d.len() as int);
    assert(inner.take(d.len() as int) =~= d);
    assert(inner.skip(d.len() as int + 2) =~= e.san);
    assert(piece[0] == '(');
    assert forall|i: int| 0 <= i < piece.len() && no_char(e.san, '|') implies #[trigger] piece[i] != '|' by {
        if 1 <= i < 1 + d.len() {
            assert(piece[i] == d[i - 1]);
            assert(is_digit(d[i - 1]));
        } else if 1 + d.len() + 2 <= i < piece.len() - 1 {
            assert(piece[i] == e.san[i - 1 - d.len() - 2]);
        }
    }
    assert forall|i: int| 0 <= i < piece.len() && no_char(e.san, '\n') implies #[trigger] piece[i] != '\n' by {
        if 1 <= i < 1 + d.len() {
            assert(piece[i] == d[i - 1]);
            assert(is_digit(d[i - 1]));
        } else if 1 + d.len() + 2 <= i < piece.len() - 1 {
            assert(piece[i] == e.san[i - 1 - d.len() - 2]);
        }
    }
}

/// The first `, ` behind digits stands right behind them.
pub proof fn lemma_first_comma(s: Seq<char>, from: int, c: int)
    requires
        0 <= from <= c,
        c + 1 < s.len(),
        forall|i: int| from <= i < c ==> is_digit(#[trigger] s[i]),
        s[c] == ',',
        s[c + 1] == ' ',
    ensures
        first_comma(s, from) == c,
    decreases c - from,
{
    if from < c {
        assert(is_digit(s[from]));
        lemma_first_comma(s, from + 1, c);
    }
}


/// Reading the entry of an edge hangs its child.
pub proof fn lemma_load_entry<B: Board>(t: TreeModel<B::V, B::S>, k: int, j: int)
    requires
        tree_wf::<B>(t),
        t.nodes.len() <= usize::MAX,
        0 <= k < t.nodes.len(),
        0 <= j < t.nodes[k].edges.len(),
    ensures
        load_entry::<B>(stage::<B>(t, k, j), k, edge_text(t.nodes[k].edges[j])) == Some(stage::<B>(t, k, j + 1)),
{
    let s = stage::<B>(t, k, j);
    let want = stage::<B>(t, k, j + 1);
    let e = t.nodes[k].edges[j];
    let c = e.child;
    assert(edge_ok::<B>(t, k, j));
    lemma_entry_parts(e);
    lemma_decimal(c as nat);
    lemma_edge_read::<B>(t, k, j);
    lemma_child_edge_at(t.nodes[k].edges, j);
    if k > 0 {
        assert(has_parent(t, k));
    }
    assert(s.nodes[k].board == t.nodes[k].board);
    assert(edge_pos(t, c) == j);
    assert(!hung(t, c, k, j));
    assert(s.nodes[c].parent is None);
    let got = attach::<B>(s, k, c, e.step);
    assert(load_entry::<B>(s, k, edge_text(e)) == Some(got));
    assert forall|i: int| 0 <= i < t.nodes.len() implies #[trigger] got.nodes[i] == want.nodes[i] by {
        if i == k {
            assert(t.nodes[k].edges.take(j + 1) =~= t.nodes[k].edges.take(j).push(e));
            assert(got.nodes[i].edges =~= want.nodes[i].edges);
            assert(hung(t, k, k, j) == hung(t, k, k, j + 1));
        } else if i == c {
            assert(hung(t, c, k, j + 1));
            assert(got.nodes[i].edges =~= want.nodes[i].edges);
        } else {
            if i > 0 && t.nodes[i].parent == Some(k) {
                assert(has_parent(t, i));
                lemma_child_edge_is(t.nodes[k].edges, i, 0);
                assert(child_edge(t.nodes[k].edges, i, 0) is Some);
                assert(edge_pos(t, i) != j);
            }
            assert(hung(t, i, k, j) == hung(t, i, k, j + 1));
        }
    }
    assert(got.nodes =~= want.nodes);
}

/// The entries of the line of a node.
pub open spec fn entries<V, S>(t: TreeModel<V, S>, k: int) -> Seq<Seq<char>> {
    Seq::new(t.nodes[k].edges.len(), |e: int| edge_text(t.nodes[k].edges[e]))
}

pub proof fn lemma_load_entries<B: Board>(t: TreeModel<B::V, B::S>, k: int, j: nat)
    requires
        tree_wf::<B>(t),
        t.nodes.len() <= usize::MAX,
        0 <= k < t.nodes.len(),
        j <= t.nodes[k].edges.len(),
    ensures
        load_entries::<B>(stage::<B>(t, k, 0), k, entries(t, k), j) == Some(stage::<B>(t, k, j as int)),
    decreases j,
{
    if j > 0 {
        lemma_load_entries::<B>(t, k, (j - 1) as nat);
        lemma_load_entry::<B>(t, k, j - 1);
    }
}

/// Reading the line of a node hangs its children.
pub proof fn lemma_load_line<B: Board>(t: TreeModel<B::V, B::S>, k: int)
    requires
        tree_wf::<B>(t),
        t.nodes.len() <= usize::MAX,
        0 <= k < t.nodes.len(),
    ensures
        load_line::<B>(stage::<B>(t, k, 0), k, node_line(t.nodes[k])) == Some(stage::<B>(t, k + 1, 0)),
        no_char(node_line(t.nodes[k]), '\n'),
        t.nodes[k].edges.len() > 0 ==> node_line(t.nodes[k]).len() > 0 && node_line(t.nodes[k]).last() == ')',
        t.nodes[k].edges.len() == 0 ==> node_line(t.nodes[k]).len() == 0,
{
    let n = t.nodes[k].edges.len();
    let es = entries(t, k);
    let line = node_line(t.nodes[k]);
    assert(line == join(es, seq!['|']));
    let done = stage::<B>(t, k, n as int);
    let next = stage::<B>(t, k + 1, 0);
    assert forall|i: int| 0 <= i < t.nodes.len() implies #[trigger] done.nodes[i] == next.nodes[i] by {
        if i > 0 && t.nodes[i].parent == Some(k) {
            assert(has_parent(t, i));
            lemma_child_edge_is(t.nodes[k].edges, i, 0);
            assert(child_edge(t.nodes[k].edges, i, 0) is Some);
            let pos = child_edge(t.nodes[k].edges, i, 0).unwrap();
            assert(0 <= pos < n);
            assert(edge_pos(t, i) == pos);
            assert(hung(t, i, k, n as int));
            assert(hung(t, i, k + 1, 0));
        } else if i > 0 {
            assert(has_parent(t, i));
        }
        assert(hung(t, i, k, n as int) == hung(t, i, k + 1, 0));
        if i == k {
            assert(t.nodes[i].edges.take(n as int) =~= t.nodes[i].edges);
        }
        if i == k + 1 {
            assert(t.nodes[i].edges.take(0) =~= Seq::empty());
        }
    }
    assert(done.nodes =~= next.nodes);
    assert forall|e: int| 0 <= e < es.len() implies no_char(#[trigger] es[e], '|') && no_char(es[e], '\n') by {
        assert(edge_ok::<B>(t, k, e));
        lemma_edge_read::<B>(t, k, e);
        lemma_entry_parts(t.nodes[k].edges[e]);
    }
    let plain = |ch: char| ch != '\n';
    assert forall|i: int, j: int| 0 <= i < es.len() && 0 <= j < es[i].len() implies plain(#[trigger] es[i][j]) by {
        assert(no_char(es[i], '\n'));
    }
    lemma_join_chars(es, seq!['|'], plain);
    assert forall|j: int| 0 <= j < line.len() implies #[trigger] line[j] != '\n' by {
        assert(plain(line[j]));
    }
    if n > 0 {
        lemma_split_joined(es, '|');
        lemma_load_entries::<B>(t, k, n);
        assert(edge_ok::<B>(t, k, n - 1));
        lemma_entry_parts(t.nodes[k].edges[n - 1]);
        lemma_join_ends(es, seq!['|']);
    } else {
        assert(es =~= Seq::<Seq<char>>::empty());
    }
}

/// The lines of the nodes.
pub open spec fn node_lines<V, S>(t: TreeModel<V, S>) -> Seq<Seq<char>> {
    Seq::new(t.nodes.len(), |i: int| node_line(t.nodes[i]))
}

pub proof fn lemma_load_lines<B: Board>(t: TreeModel<B::V, B::S>, ls: Seq<Seq<char>>, k: nat)
    requires
        tree_wf::<B>(t),
        t.nodes.len() <= usize::MAX,
        k <= ls.len() <= t.nodes.len(),
        forall|i: int| 0 <= i < ls.len() ==> #[trigger] ls[i] == node_line(t.nodes[i]),
    ensures
        load_lines::<B>(stage::<B>(t, 0, 0), ls, k) == Some(stage::<B>(t, k as int, 0)),
    decreases k,
{
    if k > 0 {
        lemma_load_lines::<B>(t, ls, (k - 1) as nat);
        lemma_load_line::<B>(t, k - 1);
        assert(ls[k - 1] == node_line(t.nodes[k - 1]));
    }
}

/// The number of lines up to the last of the first `k` that has a
/// character.
pub open spec fn used(ls: Seq<Seq<char>>, k: nat) -> nat
    decreases k,
{
    if k == 0 {
        0
    } else if ls[k - 1].len() > 0 {
        k
    } else {
        used(ls, (k - 1) as nat)
    }
}

pub proof fn lemma_used(ls: Seq<Seq<char>>, k: nat)
    requires
        k <= ls.len(),
    ensures
        used(ls, k) <= k,
        forall|i: int| used(ls, k) <= i < k ==> (#[trigger] ls[i]).len() == 0,
        used(ls, k) > 0 ==> ls[used(ls, k) - 1].len() > 0,
    decreases k,
{
    if k > 0 && ls[k - 1].len() == 0 {
        lemma_used(ls, (k - 1) as nat);
    }
}


/// The lines of the text of a tree, once it is trimmed: the tag, the
/// starting position and the number of nodes, then the lines of the nodes
/// up to the last that has an edge.
pub proof fn lemma_text_lines<B: Board>(t: TreeModel<B::V, B::S>)
    requires
        tree_wf::<B>(t),
        t.nodes.len() <= usize::MAX,
    ensures
        lines(trim(tree_text::<B>(t))) == seq!["[chess game tree]"@, B::fen(t.nodes[0].board), decimal(t.nodes.len())]
            + node_lines(t).take(used(node_lines(t), t.nodes.len()) as int),
        tree_text::<B>(t).len() >= t.nodes.len(),
{
    reveal_strlit("[chess game tree]");
    let n = t.nodes.len();
    let header = "[chess game tree]"@;
    let fen = B::fen(t.nodes[0].board);
    let dec = decimal(n);
    let nl = seq!['\n'];
    let ls = node_lines(t);
    let head = seq![header].push(fen).push(dec);
    let parts = head + ls;
    let text = tree_text::<B>(t);
    assert(B::valid(t.nodes[0].board));
    B::law_fen(t.nodes[0].board);
    lemma_decimal(n);
    lemma_join_push(seq![header], nl, fen);
    lemma_join_push(seq![header].push(fen), nl, dec);
    lemma_join_concat(head, ls, nl);
    assert(join(ls, nl) == join(Seq::new(t.nodes.len(), |i: int| node_line(t.nodes[i])), nl));
    assert(text =~= join(parts, nl));
    lemma_join_ends(ls, nl);
    let m = used(ls, n);
    lemma_used(ls, n);
    let q = 3 + m;
    assert forall|i: int| q <= i < parts.len() implies (#[trigger] parts[i]).len() == 0 by {
        assert(parts[i] == ls[i - 3]);
    }
    lemma_join_empty_tail(parts, q as int);
    let kept = parts.take(q as int);
    let core = join(kept, nl);
    assert(kept =~= head + ls.take(m as int));
    assert(kept[0] == header);
    assert forall|i: int| 0 <= i < n implies no_char(#[trigger] ls[i], '\n') && (ls[i].len() > 0 ==> ls[i].last()
        == ')') by {
        lemma_load_line::<B>(t, i);
    }
    assert(kept.last().len() > 0 && !is_space(kept.last().last()) && kept.last().last() != '\r') by {
        if m == 0 {
            assert(kept.last() == dec);
            assert(is_digit(dec[dec.len() - 1]));
        } else {
            assert(kept.last() == ls[m - 1]);
            assert(ls[m - 1].last() == ')');
        }
    }
    lemma_join_ends(kept, nl);
    assert(!is_space(header[0]));
    lemma_trim(core, (n - m) as nat);
    assert(parts.len() - q == n - m);
    assert(trim(text) == core);
    assert forall|i: int| 0 <= i < kept.len() implies no_char(#[trigger] kept[i], '\n') by {
        if i == 0 {
        } else if i == 1 {
        } else if i == 2 {
            assert forall|j: int| 0 <= j < dec.len() implies #[trigger] dec[j] != '\n' by {
                assert(is_digit(dec[j]));
            }
        } else {
            assert(kept[i] == ls[i - 3]);
        }
    }
    assert forall|i: int| 0 <= i < kept.len() - 1 implies strip_cr(#[trigger] kept[i]) == kept[i] by {
        if i == 0 {
        } else if i == 1 {
        } else if i == 2 {
            assert(is_digit(dec[dec.len() - 1]));
        } else {
            assert(kept[i] == ls[i - 3]);
        }
    }
    lemma_lines_joined(kept);
    assert(head =~= seq![header, fen, dec]);
}

/// A tree that is written and read again is the tree that was written,
/// with the focus at the root.
pub proof fn lemma_text_round_trip<B: Board>(t: TreeModel<B::V, B::S>)
    requires
        tree_wf::<B>(t),
        t.nodes.len() <= usize::MAX,
    ensures
        tree_parse::<B>(tree_text::<B>(t)) == Some(TreeModel { focus: 0, ..t }),
{
    let n = t.nodes.len();
    let text = tree_text::<B>(t);
    let u = stage::<B>(t, n as int, 0);
    let ls = node_lines(t);
    let m = used(ls, n);
    lemma_text_lines::<B>(t);
    lemma_used(ls, n);
    lemma_decimal(n);
    assert(B::valid(t.nodes[0].board));
    B::law_fen(t.nodes[0].board);
    let all = lines(trim(text));
    let rest = all.skip(3);
    assert(rest =~= ls.take(m as int));
    let root = t.nodes[0].board;
    let start = load_start::<B>(root, n);
    assert(start.nodes =~= stage::<B>(t, 0, 0).nodes) by {
        assert forall|i: int| 0 <= i < n implies #[trigger] start.nodes[i] == stage::<B>(t, 0, 0).nodes[i] by {
            if i > 0 {
                assert(has_parent(t, i));
            }
            assert(!hung(t, i, 0, 0));
            assert(t.nodes[i].edges.take(0) =~= Seq::empty());
        }
    }
    lemma_load_lines::<B>(t, rest, m);
    let loaded = stage::<B>(t, m as int, 0);
    assert forall|i: int| 0 <= i < n implies ls[i].len() > 0 <==> (#[trigger] t.nodes[i]).edges.len() > 0 by {
        lemma_load_line::<B>(t, i);
    }
    assert forall|i: int| 0 <= i < n implies #[trigger] loaded.nodes[i] == t.nodes[i] by {
        if i > 0 {
            assert(has_parent(t, i));
            let p = t.nodes[i].parent.unwrap();
            assert(t.nodes[p].edges.len() > 0);
            assert(ls[p].len() > 0);
            assert(p < m);
            assert(hung(t, i, m as int, 0));
        }
        if i >= m {
            assert(ls[i].len() == 0);
            assert(t.nodes[i].edges.len() == 0);
            assert(t.nodes[i].edges.take(0) =~= t.nodes[i].edges);
            assert(loaded.nodes[i].edges =~= t.nodes[i].edges);
        }
    }
    assert(loaded.nodes =~= t.nodes);
    assert(loaded == TreeModel { focus: 0, ..t });
    assert(all_hung(loaded)) by {
        assert forall|c: int| 0 < c < loaded.nodes.len() implies ((#[trigger] loaded.nodes[c]).parent is Some) by {
            assert(has_parent(t, c));
        }
    }
    assert(all[0] == "[chess game tree]"@);
    assert(all[1] == B::fen(t.nodes[0].board));
    assert(all[2] == decimal(n));
}

} // verus!
