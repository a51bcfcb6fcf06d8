//! What the visible rows are, node by node.

use vstd::prelude::*;

use crate::cutoff::Cutoff;
use crate::rows::{
    forest_rows, is_open, match_roots, node_rows, rooted_rows, row_of, topmost, tree_rows, RowView,
};
use crate::tree::{
    forest, lemma_node_view, node_at, CallTree, FrameView, NodeView, TreeNode,
};

verus! {

/// Every list of siblings is short enough to be indexed.
pub open spec fn indexable(nodes: Seq<NodeView>) -> bool
    decreases nodes,
{
    &&& nodes.len() <= usize::MAX
    &&& forall|i: int| 0 <= i < nodes.len() ==> indexable((#[trigger] nodes[i]).children)
}

/// The nodes of a vector can be told by index.
pub proof fn lemma_indexable(nodes: Vec<TreeNode>)
    ensures
        indexable(forest(nodes@)),
    decreases nodes,
{
    assert(nodes.len() == nodes@.len());
    assert forall|i: int| 0 <= i < nodes@.len() implies indexable(
        (#[trigger] forest(nodes@)[i]).children,
    ) by {
        lemma_node_view(nodes@[i]);
        lemma_indexable(nodes@[i].children);
    }
}

/// The node that a path leads to from a node; the node itself by the empty
/// path.
pub open spec fn descendant(n: NodeView, q: Seq<usize>) -> Option<NodeView> {
    if q.len() == 0 {
        Some(n)
    } else {
        node_at(n.children, q)
    }
}

/// Whether the node at `q` below `n` is listed with `n`: each node on the way
/// is open, and none but `n` falls below the cutoff.
pub open spec fn in_view(
    n: NodeView,
    path: Seq<usize>,
    q: Seq<usize>,
    expanded: Set<Seq<usize>>,
    cutoff: Cutoff,
) -> bool
    decreases q.len(),
{
    q.len() == 0 || {
        &&& is_open(n, path, expanded, cutoff)
        &&& q[0] < n.children.len()
        &&& !cutoff.hides(n.children[q[0] as int].total)
        &&& in_view(n.children[q[0] as int], path.push(q[0]), q.drop_first(), expanded, cutoff)
    }
}

/// The row of the node at `q` below `n`.
pub open spec fn row_at(
    n: NodeView,
    path: Seq<usize>,
    depth: nat,
    q: Seq<usize>,
    expanded: Set<Seq<usize>>,
    cutoff: Cutoff,
) -> RowView {
    row_of(descendant(n, q)->0, path + q, depth + q.len(), expanded, cutoff)
}

/// What is in view is there.
pub proof fn lemma_in_view_node(
    n: NodeView,
    path: Seq<usize>,
    q: Seq<usize>,
    expanded: Set<Seq<usize>>,
    cutoff: Cutoff,
)
    requires
        in_view(n, path, q, expanded, cutoff),
    ensures
        descendant(n, q) is Some,
        q.len() > 0 ==> descendant(n, q) == descendant(n.children[q[0] as int], q.drop_first()),
    decreases q.len(),
{
    if q.len() > 0 {
        lemma_in_view_node(
            n.children[q[0] as int],
            path.push(q[0]),
            q.drop_first(),
            expanded,
            cutoff,
        );
    }
}

/// The rows of a node are those of the nodes in view, and no others.
pub proof fn lemma_node_rows(
    n: NodeView,
    path: Seq<usize>,
    depth: nat,
    expanded: Set<Seq<usize>>,
    cutoff: Cutoff,
    r: RowView,
)
    requires
        indexable(n.children),
    ensures
        node_rows(n, path, depth, expanded, cutoff).contains(r) <==> exists|q: Seq<usize>| #[trigger]
            in_view(n, path, q, expanded, cutoff) && r == row_at(n, path, depth, q, expanded, cutoff),
    decreases n, 0nat,
{
    let rows = node_rows(n, path, depth, expanded, cutoff);
    let none = Seq::<usize>::empty();
    assert(path + none =~= path);
    assert(in_view(n, path, none, expanded, cutoff));
    let head = row_of(n, path, depth, expanded, cutoff);
    assert(rows[0] == head);
    let below = forest_rows(n.children, n.children.len(), path, depth + 1, expanded, cutoff);
    if is_open(n, path, expanded, cutoff) {
        lemma_forest_rows(n.children, n.children.len(), path, depth + 1, expanded, cutoff, r);
        assert(rows =~= seq![head] + below);
    } else {
        assert(rows =~= seq![head]);
    }
    if rows.contains(r) {
        let at = choose|at: int| 0 <= at < rows.len() && rows[at] == r;
        if at == 0 {
            assert(r == row_at(n, path, depth, none, expanded, cutoff));
        } else {
            assert(below[at - 1] == r);
            assert(below.contains(r));
            let (i, q) = choose|i: int, q: Seq<usize>| #[trigger]
                child_row(n.children, n.children.len(), path, depth + 1, expanded, cutoff, i, q, r);
            let whole = seq![i as usize] + q;
            assert(whole.drop_first() =~= q);
            assert(path.push(i as usize) + q =~= path + whole);
            assert(in_view(n, path, whole, expanded, cutoff));
            lemma_in_view_node(n, path, whole, expanded, cutoff);
            assert(r == row_at(n, path, depth, whole, expanded, cutoff));
        }
    }
    if exists|q: Seq<usize>| #[trigger]
        in_view(n, path, q, expanded, cutoff) && r == row_at(n, path, depth, q, expanded, cutoff) {
        let q = choose|q: Seq<usize>| #[trigger]
            in_view(n, path, q, expanded, cutoff) && r == row_at(
                n,
                path,
                depth,
                q,
                expanded,
                cutoff,
            );
        if q.len() == 0 {
            assert(q =~= none);
            assert(rows[0] == r);
        } else {
            lemma_in_view_node(n, path, q, expanded, cutoff);
            assert(path.push(q[0]) + q.drop_first() =~= path + q);
            assert(child_row(
                n.children,
                n.children.len(),
                path,
                depth + 1,
                expanded,
                cutoff,
                q[0] as int,
                q.drop_first(),
                r,
            ));
            assert(below.contains(r));
            let at = choose|at: int| 0 <= at < below.len() && below[at] == r;
            assert(rows[at + 1] == r);
        }
    }
}

/// Whether `r` is the row of the node at `q` below the `i`th sibling.
pub open spec fn child_row(
    nodes: Seq<NodeView>,
    k: nat,
    prefix: Seq<usize>,
    depth: nat,
    expanded: Set<Seq<usize>>,
    cutoff: Cutoff,
    i: int,
    q: Seq<usize>,
    r: RowView,
) -> bool {
    &&& 0 <= i < k
    &&& !cutoff.hides(nodes[i].total)
    &&& in_view(nodes[i], prefix.push(i as usize), q, expanded, cutoff)
    &&& r == row_at(nodes[i], prefix.push(i as usize), depth, q, expanded, cutoff)
}

/// The rows of siblings are those of the nodes in view, and no others.
pub proof fn lemma_forest_rows(
    nodes: Seq<NodeView>,
    k: nat,
    prefix: Seq<usize>,
    depth: nat,
    expanded: Set<Seq<usize>>,
    cutoff: Cutoff,
    r: RowView,
)
    requires
        indexable(nodes),
        k <= nodes.len(),
    ensures
        forest_rows(nodes, k, prefix, depth, expanded, cutoff).contains(r) <==> exists|
            i: int,
            q: Seq<usize>,
        | #[trigger]
            child_row(nodes, k, prefix, depth, expanded, cutoff, i, q, r),
    decreases nodes, k,
{
    if k > 0 {
        let rows = forest_rows(nodes, k, prefix, depth, expanded, cutoff);
        let front = forest_rows(nodes, (k - 1) as nat, prefix, depth, expanded, cutoff);
        let n = nodes[k - 1];
        let path = prefix.push((k - 1) as usize);
        let own = if cutoff.hides(n.total) {
            Seq::empty()
        } else {
            node_rows(n, path, depth, expanded, cutoff)
        };
        assert(rows =~= front + own);
        lemma_forest_rows(nodes, (k - 1) as nat, prefix, depth, expanded, cutoff, r);
        lemma_node_rows(n, path, depth, expanded, cutoff, r);
        if rows.contains(r) {
            let at = choose|at: int| 0 <= at < rows.len() && rows[at] == r;
            if at < front.len() {
                assert(front[at] == r);
                assert(front.contains(r));
                let (i, q) = choose|i: int, q: Seq<usize>| #[trigger]
                    child_row(nodes, (k - 1) as nat, prefix, depth, expanded, cutoff, i, q, r);
                assert(child_row(nodes, k, prefix, depth, expanded, cutoff, i, q, r));
            } else {
                assert(own[at - front.len()] == r);
                assert(own.contains(r));
                let q = choose|q: Seq<usize>| #[trigger]
                    in_view(n, path, q, expanded, cutoff) && r == row_at(
                        n,
                        path,
                        depth,
                        q,
                        expanded,
                        cutoff,
                    );
                assert(child_row(nodes, k, prefix, depth, expanded, cutoff, k - 1, q, r));
            }
        }
        if exists|i: int, q: Seq<usize>| #[trigger]
            child_row(nodes, k, prefix, depth, expanded, cutoff, i, q, r) {
            let (i, q) = choose|i: int, q: Seq<usize>| #[trigger]
                child_row(nodes, k, prefix, depth, expanded, cutoff, i, q, r);
            if i < k - 1 {
                assert(child_row(nodes, (k - 1) as nat, prefix, depth, expanded, cutoff, i, q, r));
                let at = choose|at: int| 0 <= at < front.len() && front[at] == r;
                assert(rows[at] == r);
            } else {
                assert(own.contains(r));
                let at = choose|at: int| 0 <= at < own.len() && own[at] == r;
                assert(rows[front.len() + at] == r);
            }
        }
    }
}

/// Whether the node at `q` below `n` is listed with `n`: there is such a node,
/// every node before it on the way is open, and none after `n` falls below the
/// cutoff.
pub open spec fn listed_below(
    n: NodeView,
    path: Seq<usize>,
    q: Seq<usize>,
    expanded: Set<Seq<usize>>,
    cutoff: Cutoff,
) -> bool {
    &&& descendant(n, q) is Some
    &&& forall|k: int|
        0 <= k < q.len() ==> is_open(
            descendant(n, #[trigger] q.take(k))->0,
            path + q.take(k),
            expanded,
            cutoff,
        )
    &&& forall|k: int|
        1 <= k <= q.len() ==> !cutoff.hides(descendant(n, #[trigger] q.take(k))->0.total)
}

/// Whether the node at a path is listed in the whole tree: there is such a
/// node, every node before it on the way is open, and none on the way falls
/// below the cutoff.
pub open spec fn listed(
    nodes: Seq<NodeView>,
    p: Seq<usize>,
    expanded: Set<Seq<usize>>,
    cutoff: Cutoff,
) -> bool {
    &&& node_at(nodes, p) is Some
    &&& forall|k: int|
        1 <= k < p.len() ==> is_open(
            node_at(nodes, #[trigger] p.take(k))->0,
            p.take(k),
            expanded,
            cutoff,
        )
    &&& forall|k: int|
        1 <= k <= p.len() ==> !cutoff.hides(node_at(nodes, #[trigger] p.take(k))->0.total)
}

/// The first steps of a path, and those after the first one.
pub proof fn lemma_take_first(q: Seq<usize>, k: int)
    requires
        1 <= k <= q.len(),
    ensures
        q.take(k).len() == k,
        q.take(k)[0] == q[0],
        q.take(k).drop_first() == q.drop_first().take(k - 1),
{
    assert(q.take(k).drop_first() =~= q.drop_first().take(k - 1));
}

/// Going down a path begins with a child.
pub proof fn lemma_descendant_step(n: NodeView, q: Seq<usize>)
    requires
        q.len() > 0,
    ensures
        q[0] < n.children.len() ==> descendant(n, q) == descendant(
            n.children[q[0] as int],
            q.drop_first(),
        ),
        q[0] >= n.children.len() ==> descendant(n, q) is None,
{
}

/// A node is in view if and only if it is listed.
pub proof fn lemma_listed_below(
    n: NodeView,
    path: Seq<usize>,
    q: Seq<usize>,
    expanded: Set<Seq<usize>>,
    cutoff: Cutoff,
)
    ensures
        in_view(n, path, q, expanded, cutoff) <==> listed_below(n, path, q, expanded, cutoff),
    decreases q.len(),
{
    if q.len() > 0 {
        assert(q.take(0) =~= Seq::empty());
        assert(path + q.take(0) =~= path);
        assert(q.take(1) =~= seq![q[0]]);
        lemma_descendant_step(n, q);
        lemma_descendant_step(n, q.take(1));
        if q[0] < n.children.len() {
            let c = n.children[q[0] as int];
            let rest = q.drop_first();
            lemma_listed_below(c, path.push(q[0]), rest, expanded, cutoff);
            assert forall|k: int| 1 <= k <= q.len() implies descendant(n, #[trigger] q.take(k))
                == descendant(c, rest.take(k - 1)) && path + q.take(k) == path.push(q[0])
                + rest.take(k - 1) by {
                lemma_take_first(q, k);
                lemma_descendant_step(n, q.take(k));
                assert(path + q.take(k) =~= path.push(q[0]) + rest.take(k - 1));
            }
            if listed_below(n, path, q, expanded, cutoff) {
                assert(is_open(descendant(n, q.take(0))->0, path + q.take(0), expanded, cutoff));
                assert(!cutoff.hides(descendant(n, q.take(1))->0.total));
                assert(rest.take(0) =~= Seq::empty());
                assert forall|k: int| 0 <= k < rest.len() implies is_open(
                    descendant(c, #[trigger] rest.take(k))->0,
                    path.push(q[0]) + rest.take(k),
                    expanded,
                    cutoff,
                ) by {
                    assert(descendant(n, q.take(k + 1)) == descendant(c, rest.take(k)));
                    assert(is_open(
                        descendant(n, q.take(k + 1))->0,
                        path + q.take(k + 1),
                        expanded,
                        cutoff,
                    ));
                }
                assert forall|k: int| 1 <= k <= rest.len() implies !cutoff.hides(
                    descendant(c, #[trigger] rest.take(k))->0.total,
                ) by {
                    assert(descendant(n, q.take(k + 1)) == descendant(c, rest.take(k)));
                    assert(!cutoff.hides(descendant(n, q.take(k + 1))->0.total));
                }
                assert(listed_below(c, path.push(q[0]), rest, expanded, cutoff));
            }
            if in_view(n, path, q, expanded, cutoff) {
                assert forall|k: int| 0 <= k < q.len() implies is_open(
                    descendant(n, #[trigger] q.take(k))->0,
                    path + q.take(k),
                    expanded,
                    cutoff,
                ) by {
                    if k > 0 {
                        assert(is_open(
                            descendant(c, rest.take(k - 1))->0,
                            path.push(q[0]) + rest.take(k - 1),
                            expanded,
                            cutoff,
                        ));
                    }
                }
                assert forall|k: int| 1 <= k <= q.len() implies !cutoff.hides(
                    descendant(n, #[trigger] q.take(k))->0.total,
                ) by {
                    if k > 1 {
                        assert(!cutoff.hides(descendant(c, rest.take(k - 1))->0.total));
                    } else {
                        assert(rest.take(0) =~= Seq::empty());
                    }
                }
            }
        } else {
            assert(!in_view(n, path, q, expanded, cutoff));
        }
    }
}

proof fn lemma_listed(
    nodes: Seq<NodeView>,
    p: Seq<usize>,
    expanded: Set<Seq<usize>>,
    cutoff: Cutoff,
)
    ensures
        listed(nodes, p, expanded, cutoff) <==> {
            &&& p.len() > 0
            &&& p[0] < nodes.len()
            &&& !cutoff.hides(nodes[p[0] as int].total)
            &&& in_view(nodes[p[0] as int], seq![p[0]], p.drop_first(), expanded, cutoff)
        },
{
    if p.len() > 0 && p[0] < nodes.len() {
        let n = nodes[p[0] as int];
        let rest = p.drop_first();
        lemma_listed_below(n, seq![p[0]], rest, expanded, cutoff);
        assert(p.take(1) =~= seq![p[0]]);
        assert forall|k: int| 1 <= k <= p.len() implies node_at(nodes, #[trigger] p.take(k))
            == descendant(n, rest.take(k - 1)) && p.take(k) == seq![p[0]] + rest.take(k - 1) by {
            lemma_take_first(p, k);
            assert(p.take(k) =~= seq![p[0]] + rest.take(k - 1));
        }
        assert(p.take(p.len() as int) =~= p);
        assert(rest.take(rest.len() as int) =~= rest);
        assert(rest.take(0) =~= Seq::empty());
        if listed(nodes, p, expanded, cutoff) {
            assert(!cutoff.hides(node_at(nodes, p.take(1))->0.total));
            assert forall|k: int| 0 <= k < rest.len() implies is_open(
                descendant(n, #[trigger] rest.take(k))->0,
                seq![p[0]] + rest.take(k),
                expanded,
                cutoff,
            ) by {
                assert(node_at(nodes, p.take(k + 1)) == descendant(n, rest.take(k)));
                assert(is_open(
                    node_at(nodes, p.take(k + 1))->0,
                    p.take(k + 1),
                    expanded,
                    cutoff,
                ));
            }
            assert forall|k: int| 1 <= k <= rest.len() implies !cutoff.hides(
                descendant(n, #[trigger] rest.take(k))->0.total,
            ) by {
                assert(node_at(nodes, p.take(k + 1)) == descendant(n, rest.take(k)));
                assert(!cutoff.hides(node_at(nodes, p.take(k + 1))->0.total));
            }
            assert(listed_below(n, seq![p[0]], rest, expanded, cutoff));
        }
        if !cutoff.hides(n.total) && listed_below(n, seq![p[0]], rest, expanded, cutoff) {
            assert forall|k: int| 1 <= k < p.len() implies is_open(
                node_at(nodes, #[trigger] p.take(k))->0,
                p.take(k),
                expanded,
                cutoff,
            ) by {
                assert(is_open(
                    descendant(n, rest.take(k - 1))->0,
                    seq![p[0]] + rest.take(k - 1),
                    expanded,
                    cutoff,
                ));
            }
            assert forall|k: int| 1 <= k <= p.len() implies !cutoff.hides(
                node_at(nodes, #[trigger] p.take(k))->0.total,
            ) by {
                if k > 1 {
                    assert(!cutoff.hides(descendant(n, rest.take(k - 1))->0.total));
                }
            }
        }
    }
}

/// The rows of a tree are those of the listed nodes, and no others; each tells
/// of its node, at the depth of its path.
pub proof fn law_tree_rows_are_the_listed_nodes(
    tree: CallTree,
    expanded: Set<Seq<usize>>,
    cutoff: Cutoff,
    r: RowView,
)
    ensures
        tree_rows(tree@, expanded, cutoff).contains(r) <==> {
            &&& listed(tree@, r.path, expanded, cutoff)
            &&& r == row_of(
                node_at(tree@, r.path)->0,
                r.path,
                (r.path.len() - 1) as nat,
                expanded,
                cutoff,
            )
        },
{
    let nodes = tree@;
    let none = Seq::<usize>::empty();
    lemma_indexable(tree.roots);
    lemma_forest_rows(nodes, nodes.len(), none, 0, expanded, cutoff, r);
    lemma_listed(nodes, r.path, expanded, cutoff);
    if tree_rows(nodes, expanded, cutoff).contains(r) {
        let (i, q) = choose|i: int, q: Seq<usize>| #[trigger]
            child_row(nodes, nodes.len(), none, 0, expanded, cutoff, i, q, r);
        assert(none.push(i as usize) =~= seq![i as usize]);
        assert(r.path =~= seq![i as usize] + q);
        assert(r.path.drop_first() =~= q);
        lemma_in_view_node(nodes[i], seq![i as usize], q, expanded, cutoff);
    }
    if listed(nodes, r.path, expanded, cutoff) && r == row_of(
        node_at(nodes, r.path)->0,
        r.path,
        (r.path.len() - 1) as nat,
        expanded,
        cutoff,
    ) {
        let i = r.path[0] as int;
        let q = r.path.drop_first();
        assert(none.push(i as usize) =~= seq![r.path[0]]);
        assert(seq![r.path[0]] + q =~= r.path);
        lemma_in_view_node(nodes[i], seq![r.path[0]], q, expanded, cutoff);
        assert(child_row(nodes, nodes.len(), none, 0, expanded, cutoff, i, q, r));
    }
}

/// Whether `a` leads to a node that comes before the one that `b` leads to,
/// parents before children and siblings in turn.
pub open spec fn path_lt(a: Seq<usize>, b: Seq<usize>) -> bool
    decreases a.len(),
{
    if b.len() == 0 {
        false
    } else if a.len() == 0 {
        true
    } else {
        a[0] < b[0] || (a[0] == b[0] && path_lt(a.drop_first(), b.drop_first()))
    }
}

/// Rows in the order of their nodes, none twice.
pub open spec fn in_tree_order(rows: Seq<RowView>) -> bool {
    forall|i: int, j: int|
        #![trigger rows[i], rows[j]]
        0 <= i < j < rows.len() ==> path_lt(rows[i].path, rows[j].path)
}

/// Paths keep their order behind a common prefix.
pub proof fn lemma_path_lt_prefix(p: Seq<usize>, a: Seq<usize>, b: Seq<usize>)
    ensures
        path_lt(p + a, p + b) == path_lt(a, b),
    decreases p.len(),
{
    if p.len() == 0 {
        assert(p + a =~= a);
        assert(p + b =~= b);
    } else {
        assert((p + a).drop_first() =~= p.drop_first() + a);
        assert((p + b).drop_first() =~= p.drop_first() + b);
        lemma_path_lt_prefix(p.drop_first(), a, b);
    }
}

/// The rows of a node are in tree order.
pub proof fn lemma_node_rows_in_order(
    n: NodeView,
    path: Seq<usize>,
    depth: nat,
    expanded: Set<Seq<usize>>,
    cutoff: Cutoff,
)
    requires
        indexable(n.children),
    ensures
        in_tree_order(node_rows(n, path, depth, expanded, cutoff)),
    decreases n, 0nat,
{
    let rows = node_rows(n, path, depth, expanded, cutoff);
    let below = forest_rows(n.children, n.children.len(), path, depth + 1, expanded, cutoff);
    if is_open(n, path, expanded, cutoff) {
        lemma_forest_rows_in_order(
            n.children,
            n.children.len(),
            path,
            depth + 1,
            expanded,
            cutoff,
        );
        assert forall|i: int, j: int|
            #![trigger rows[i], rows[j]]
            0 <= i < j < rows.len() implies path_lt(rows[i].path, rows[j].path) by {
            let r = below[j - 1];
            assert(rows[j] == r);
            if i == 0 {
                assert(below.contains(r));
                lemma_forest_rows(
                    n.children,
                    n.children.len(),
                    path,
                    depth + 1,
                    expanded,
                    cutoff,
                    r,
                );
                let (c, q) = choose|c: int, q: Seq<usize>| #[trigger]
                    child_row(
                        n.children,
                        n.children.len(),
                        path,
                        depth + 1,
                        expanded,
                        cutoff,
                        c,
                        q,
                        r,
                    );
                let rest = seq![c as usize] + q;
                assert(r.path =~= path + rest);
                assert(rows[0].path =~= path + Seq::empty());
                lemma_path_lt_prefix(path, Seq::empty(), rest);
            } else {
                assert(rows[i] == below[i - 1]);
            }
        }
    }
}

proof fn lemma_forest_rows_in_order(
    nodes: Seq<NodeView>,
    k: nat,
    prefix: Seq<usize>,
    depth: nat,
    expanded: Set<Seq<usize>>,
    cutoff: Cutoff,
)
    requires
        indexable(nodes),
        k <= nodes.len(),
    ensures
        in_tree_order(forest_rows(nodes, k, prefix, depth, expanded, cutoff)),
    decreases nodes, k,
{
    if k > 0 {
        let rows = forest_rows(nodes, k, prefix, depth, expanded, cutoff);
        let front = forest_rows(nodes, (k - 1) as nat, prefix, depth, expanded, cutoff);
        let n = nodes[k - 1];
        let path = prefix.push((k - 1) as usize);
        lemma_forest_rows_in_order(nodes, (k - 1) as nat, prefix, depth, expanded, cutoff);
        lemma_node_rows_in_order(n, path, depth, expanded, cutoff);
        if !cutoff.hides(n.total) {
            let own = node_rows(n, path, depth, expanded, cutoff);
            assert(rows =~= front + own);
            assert forall|i: int, j: int|
                #![trigger rows[i], rows[j]]
                0 <= i < j < rows.len() implies path_lt(rows[i].path, rows[j].path) by {
                if j < front.len() {
                    assert(rows[i] == front[i] && rows[j] == front[j]);
                } else if i >= front.len() {
                    assert(rows[i] == own[i - front.len()] && rows[j] == own[j - front.len()]);
                } else {
                    let a = front[i];
                    let b = own[j - front.len()];
                    assert(front.contains(a));
                    assert(own.contains(b));
                    lemma_forest_rows(nodes, (k - 1) as nat, prefix, depth, expanded, cutoff, a);
                    lemma_node_rows(n, path, depth, expanded, cutoff, b);
                    let (c, q) = choose|c: int, q: Seq<usize>| #[trigger]
                        child_row(nodes, (k - 1) as nat, prefix, depth, expanded, cutoff, c, q, a);
                    let s = choose|s: Seq<usize>| #[trigger]
                        in_view(n, path, s, expanded, cutoff) && b == row_at(
                            n,
                            path,
                            depth,
                            s,
                            expanded,
                            cutoff,
                        );
                    let left = seq![c as usize] + q;
                    let right = seq![(k - 1) as usize] + s;
                    assert(a.path =~= prefix + left);
                    assert(b.path =~= prefix + right);
                    lemma_path_lt_prefix(prefix, left, right);
                }
            }
        }
    }
}

/// Rows come in tree order: a parent before what lies below it, siblings in
/// turn, and no node twice.
pub proof fn law_tree_rows_in_order(tree: CallTree, expanded: Set<Seq<usize>>, cutoff: Cutoff)
    ensures
        in_tree_order(tree_rows(tree@, expanded, cutoff)),
{
    lemma_indexable(tree.roots);
    lemma_forest_rows_in_order(tree@, tree@.len(), Seq::empty(), 0, expanded, cutoff);
}

/// Going down to a node and on from there.
pub proof fn lemma_node_at_below(nodes: Seq<NodeView>, root: Seq<usize>, q: Seq<usize>)
    requires
        node_at(nodes, root) is Some,
    ensures
        node_at(nodes, root + q) == descendant(node_at(nodes, root)->0, q),
    decreases root.len(),
{
    assert((root + q)[0] == root[0]);
    assert((root + q).drop_first() =~= root.drop_first() + q);
    if root.len() == 1 {
        assert(root.drop_first() + q =~= q);
        if q.len() == 0 {
            assert(root + q =~= root);
        }
    } else {
        lemma_node_at_below(nodes[root[0] as int].children, root.drop_first(), q);
    }
}

/// What lies below a node can be told by index.
pub proof fn lemma_indexable_at(nodes: Seq<NodeView>, path: Seq<usize>)
    requires
        indexable(nodes),
        node_at(nodes, path) is Some,
    ensures
        indexable(node_at(nodes, path)->0.children),
    decreases path.len(),
{
    if path.len() > 1 {
        lemma_indexable_at(nodes[path[0] as int].children, path.drop_first());
    }
}

/// A re-rooted view starts with its root, and its rows are those of the nodes
/// listed with that root, and no others, each as deep as it lies below it.
pub proof fn law_rooted_rows_are_the_listed_nodes(
    tree: CallTree,
    root: Seq<usize>,
    expanded: Set<Seq<usize>>,
    cutoff: Cutoff,
    r: RowView,
)
    requires
        node_at(tree@, root) is Some,
    ensures
        rooted_rows(tree@, root, expanded, cutoff)[0] == row_of(
            node_at(tree@, root)->0,
            root,
            0,
            expanded,
            cutoff,
        ),
        in_tree_order(rooted_rows(tree@, root, expanded, cutoff)),
        rooted_rows(tree@, root, expanded, cutoff).contains(r) <==> {
            &&& root.is_prefix_of(r.path)
            &&& listed_below(
                node_at(tree@, root)->0,
                root,
                r.path.skip(root.len() as int),
                expanded,
                cutoff,
            )
            &&& r == row_of(
                node_at(tree@, r.path)->0,
                r.path,
                (r.path.len() - root.len()) as nat,
                expanded,
                cutoff,
            )
        },
{
    let n = node_at(tree@, root)->0;
    lemma_indexable(tree.roots);
    lemma_indexable_at(tree@, root);
    lemma_node_rows(n, root, 0, expanded, cutoff, r);
    lemma_node_rows_in_order(n, root, 0, expanded, cutoff);
    if rooted_rows(tree@, root, expanded, cutoff).contains(r) {
        let q = choose|q: Seq<usize>| #[trigger]
            in_view(n, root, q, expanded, cutoff) && r == row_at(n, root, 0, q, expanded, cutoff);
        assert(r.path == root + q);
        assert(r.path.skip(root.len() as int) =~= q);
        assert(root =~= r.path.subrange(0, root.len() as int));
        lemma_listed_below(n, root, q, expanded, cutoff);
        lemma_node_at_below(tree@, root, q);
    }
    let q = r.path.skip(root.len() as int);
    if root.is_prefix_of(r.path) && listed_below(n, root, q, expanded, cutoff) && r == row_of(
        node_at(tree@, r.path)->0,
        r.path,
        (r.path.len() - root.len()) as nat,
        expanded,
        cutoff,
    ) {
        assert(r.path =~= root + q);
        lemma_listed_below(n, root, q, expanded, cutoff);
        lemma_node_at_below(tree@, root, q);
        assert(in_view(n, root, q, expanded, cutoff) && r == row_at(
            n,
            root,
            0,
            q,
            expanded,
            cutoff,
        ));
    }
}

/// Whether the node at a path is a topmost match: it matches, no node before
/// it on the way does, and none on the way falls below the cutoff.
pub open spec fn is_topmost(
    nodes: Seq<NodeView>,
    p: Seq<usize>,
    cutoff: Cutoff,
    says: spec_fn(FrameView) -> bool,
) -> bool {
    &&& node_at(nodes, p) is Some
    &&& says(node_at(nodes, p)->0.frame)
    &&& forall|k: int|
        1 <= k < p.len() ==> !says(node_at(nodes, #[trigger] p.take(k))->0.frame)
    &&& forall|k: int|
        1 <= k <= p.len() ==> !cutoff.hides(node_at(nodes, #[trigger] p.take(k))->0.total)
}

/// The same, along the path.
spec fn sought(
    nodes: Seq<NodeView>,
    p: Seq<usize>,
    cutoff: Cutoff,
    says: spec_fn(FrameView) -> bool,
) -> bool
    decreases p.len(),
{
    &&& p.len() > 0
    &&& p[0] < nodes.len()
    &&& !cutoff.hides(nodes[p[0] as int].total)
    &&& if p.len() == 1 {
        says(nodes[p[0] as int].frame)
    } else {
        &&& !says(nodes[p[0] as int].frame)
        &&& sought(nodes[p[0] as int].children, p.drop_first(), cutoff, says)
    }
}

proof fn lemma_sought(
    nodes: Seq<NodeView>,
    p: Seq<usize>,
    cutoff: Cutoff,
    says: spec_fn(FrameView) -> bool,
)
    ensures
        sought(nodes, p, cutoff, says) <==> is_topmost(nodes, p, cutoff, says),
    decreases p.len(),
{
    if p.len() > 0 && p[0] < nodes.len() {
        let n = nodes[p[0] as int];
        let rest = p.drop_first();
        assert(p.take(1) =~= seq![p[0]]);
        assert(node_at(nodes, p.take(1)) == Some(n));
        if p.len() == 1 {
            assert(p.take(1) =~= p);
        } else {
            lemma_sought(n.children, rest, cutoff, says);
            assert forall|k: int| 2 <= k <= p.len() implies node_at(nodes, #[trigger] p.take(k))
                == node_at(n.children, rest.take(k - 1)) by {
                lemma_take_first(p, k);
            }
            if is_topmost(nodes, p, cutoff, says) {
                assert(!says(node_at(nodes, p.take(1))->0.frame));
                assert(!cutoff.hides(node_at(nodes, p.take(1))->0.total));
                assert forall|k: int| 1 <= k < rest.len() implies !says(
                    node_at(n.children, #[trigger] rest.take(k))->0.frame,
                ) by {
                    assert(node_at(nodes, p.take(k + 1)) == node_at(n.children, rest.take(k)));
                    assert(!says(node_at(nodes, p.take(k + 1))->0.frame));
                }
                assert forall|k: int| 1 <= k <= rest.len() implies !cutoff.hides(
                    node_at(n.children, #[trigger] rest.take(k))->0.total,
                ) by {
                    assert(node_at(nodes, p.take(k + 1)) == node_at(n.children, rest.take(k)));
                    assert(!cutoff.hides(node_at(nodes, p.take(k + 1))->0.total));
                }
                assert(is_topmost(n.children, rest, cutoff, says));
            }
            if sought(nodes, p, cutoff, says) {
                assert forall|k: int| 1 <= k < p.len() implies !says(
                    node_at(nodes, #[trigger] p.take(k))->0.frame,
                ) by {
                    if k > 1 {
                        assert(!says(node_at(n.children, rest.take(k - 1))->0.frame));
                    }
                }
                assert forall|k: int| 1 <= k <= p.len() implies !cutoff.hides(
                    node_at(nodes, #[trigger] p.take(k))->0.total,
                ) by {
                    if k > 1 {
                        assert(!cutoff.hides(node_at(n.children, rest.take(k - 1))->0.total));
                    }
                }
            }
        }
    }
}

proof fn lemma_topmost(
    nodes: Seq<NodeView>,
    k: nat,
    prefix: Seq<usize>,
    cutoff: Cutoff,
    says: spec_fn(FrameView) -> bool,
    p: Seq<usize>,
    n: NodeView,
)
    requires
        indexable(nodes),
        k <= nodes.len(),
    ensures
        topmost(nodes, k, prefix, cutoff, says).contains((prefix + p, n)) <==> {
            &&& sought(nodes, p, cutoff, says)
            &&& p[0] < k
            &&& node_at(nodes, p) == Some(n)
        },
        forall|m: (Seq<usize>, NodeView)|
            #[trigger] topmost(nodes, k, prefix, cutoff, says).contains(m) ==> prefix.is_prefix_of(
                m.0,
            ),
    decreases nodes, k,
{
    if k > 0 {
        let found = topmost(nodes, k, prefix, cutoff, says);
        let front = topmost(nodes, (k - 1) as nat, prefix, cutoff, says);
        let c = nodes[k - 1];
        let at = (k - 1) as usize;
        let path = prefix.push(at);
        let own = if cutoff.hides(c.total) {
            Seq::empty()
        } else if says(c.frame) {
            seq![(path, c)]
        } else {
            topmost(c.children, c.children.len(), path, cutoff, says)
        };
        assert(found =~= front + own);
        lemma_topmost(nodes, (k - 1) as nat, prefix, cutoff, says, p, n);
        lemma_topmost(
            c.children,
            c.children.len(),
            path,
            cutoff,
            says,
            p.drop_first(),
            n,
        );
        let m = (prefix + p, n);
        assert forall|x: (Seq<usize>, NodeView)| #[trigger] found.contains(x) <==> front.contains(x)
            || own.contains(x) by {
            if found.contains(x) {
                let i = choose|i: int| 0 <= i < found.len() && found[i] == x;
                if i < front.len() {
                    assert(front[i] == x);
                } else {
                    assert(own[i - front.len()] == x);
                }
            }
            if front.contains(x) {
                let i = choose|i: int| 0 <= i < front.len() && front[i] == x;
                assert(found[i] == x);
            }
            if own.contains(x) {
                let i = choose|i: int| 0 <= i < own.len() && own[i] == x;
                assert(found[front.len() + i] == x);
            }
        }
        assert forall|x: (Seq<usize>, NodeView)| own.contains(x) implies path.is_prefix_of(
            x.0,
        ) by {
            if !cutoff.hides(c.total) && says(c.frame) {
                assert(x == (path, c));
                assert(path =~= path.subrange(0, path.len() as int));
            }
        }
        assert forall|x: (Seq<usize>, NodeView)| found.contains(x) implies prefix.is_prefix_of(
            x.0,
        ) by {
            if own.contains(x) {
                assert(path.is_prefix_of(x.0));
                assert(prefix =~= x.0.subrange(0, prefix.len() as int)) by {
                    assert(forall|i: int| 0 <= i < prefix.len() ==> prefix[i] == path[i]);
                }
            }
        }
        if own.contains(m) {
            assert(path.is_prefix_of(m.0));
            assert(m.0[prefix.len() as int] == path[prefix.len() as int]);
            assert(p.len() > 0 && p[0] == at);
            assert(prefix + p =~= path + p.drop_first());
            if says(c.frame) {
                assert(m == (path, c));
                assert(p =~= seq![at]);
            } else if p.len() == 1 {
                assert(p.drop_first().len() == 0);
            }
        }
        if sought(nodes, p, cutoff, says) && p[0] == at && node_at(nodes, p) == Some(n) {
            assert(prefix + p =~= path + p.drop_first());
            if p.len() == 1 {
                assert(p =~= seq![at]);
                assert(prefix + p =~= path);
                assert(own[0] == m);
            }
        }
    }
}

/// A filtered view is rooted at the topmost matches of the tree, and at no
/// other nodes: a match under another match is not a root of its own.
pub proof fn law_filter_roots_are_the_topmost_matches(
    tree: CallTree,
    cutoff: Cutoff,
    says: spec_fn(FrameView) -> bool,
    p: Seq<usize>,
    n: NodeView,
)
    ensures
        match_roots(tree@, None, cutoff, says).contains((p, n)) <==> is_topmost(
            tree@,
            p,
            cutoff,
            says,
        ) && node_at(tree@, p) == Some(n),
{
    lemma_indexable(tree.roots);
    lemma_topmost(tree@, tree@.len(), Seq::empty(), cutoff, says, p, n);
    lemma_sought(tree@, p, cutoff, says);
    assert(Seq::<usize>::empty() + p =~= p);
}

/// Within a subtree a filtered view is rooted at the subtree's root if that
/// matches, else at the topmost matches below it, and at no other nodes.
pub proof fn law_filter_within_subtree(
    tree: CallTree,
    root: Seq<usize>,
    cutoff: Cutoff,
    says: spec_fn(FrameView) -> bool,
    q: Seq<usize>,
    n: NodeView,
)
    requires
        node_at(tree@, root) is Some,
    ensures
        match_roots(tree@, Some(root), cutoff, says).contains((root + q, n)) <==> if says(
            node_at(tree@, root)->0.frame,
        ) {
            q.len() == 0 && node_at(tree@, root) == Some(n)
        } else {
            is_topmost(node_at(tree@, root)->0.children, q, cutoff, says) && node_at(
                tree@,
                root + q,
            ) == Some(n)
        },
        forall|m: (Seq<usize>, NodeView)| #[trigger]
            match_roots(tree@, Some(root), cutoff, says).contains(m) ==> root.is_prefix_of(m.0),
{
    let top = node_at(tree@, root)->0;
    lemma_indexable(tree.roots);
    lemma_indexable_at(tree@, root);
    lemma_topmost(top.children, top.children.len(), root, cutoff, says, q, n);
    lemma_sought(top.children, q, cutoff, says);
    lemma_node_at_below(tree@, root, q);
    let found = match_roots(tree@, Some(root), cutoff, says);
    if says(top.frame) {
        assert(found =~= seq![(root, top)]);
        assert(found[0] == (root, top));
        assert(root =~= root.subrange(0, root.len() as int));
        if q.len() == 0 {
            assert(root + q =~= root);
        } else {
            assert((root + q).len() != root.len());
        }
    }
}

} // verus!
