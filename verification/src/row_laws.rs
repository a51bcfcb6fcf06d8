//! What the rows of the viewer tell, whatever is focused on or filtered by.

use vstd::prelude::*;

use crate::cutoff::Cutoff;
use crate::laws::{
    apart, lemma_child_in_view, lemma_root_row, lemma_row_root, lemma_shown, lemma_topmost_separate,
    lemma_view_root_at, lemma_view_roots_separate, separate, through_child, view_roots,
    visible_roots, Rooted,
};
use crate::listing::{
    descendant, in_tree_order, in_view, indexable, is_topmost,
    law_filter_roots_are_the_topmost_matches, law_filter_within_subtree, lemma_in_view_node,
    lemma_indexable, lemma_indexable_at, lemma_node_at_below, lemma_node_rows_in_order,
    lemma_path_lt_prefix, path_lt, row_at,
};
use crate::rows::{is_open, match_roots, node_rows, rows_from, topmost, RowView};
use crate::tree::{lemma_node_at_missing, node_at, FrameView, NodeView};
use crate::ui::{passes, shown_rows, App};

verus! {

/// The rows that an app shows.
pub open spec fn rows_of(app: App) -> Seq<RowView> {
    shown_rows(app.subject(), app.state())
}

/// The root that a row hangs below, by its place among the roots, and the path
/// from there.
proof fn lemma_row_place(app: App, i: int) -> (m: (int, Seq<usize>))
    requires
        0 <= i < rows_of(app).len(),
    ensures
        ({
            let roots = view_roots(app.subject(), app.state().focus, app.filter@);
            let root = roots[m.0];
            &&& 0 <= m.0 < roots.len()
            &&& separate(roots)
            &&& in_view(root.1, root.0, m.1, app.expanded@, app.cutoff)
            &&& rows_of(app)[i] == row_at(root.1, root.0, 0, m.1, app.expanded@, app.cutoff)
            &&& node_at(app.tree@, root.0) == Some(root.1)
            &&& descendant(root.1, m.1) is Some
            &&& node_at(app.tree@, rows_of(app)[i].path) == descendant(root.1, m.1)
        }),
{
    let sub = app.subject();
    let st = app.state();
    let roots = view_roots(sub, st.focus, st.filter);
    lemma_indexable(app.tree.roots);
    lemma_view_roots_separate(sub, st.focus, st.filter);
    lemma_shown(sub, st);
    let (k, q) = lemma_row_root(roots, st.expanded, sub.cutoff, i);
    lemma_view_root_at(app.tree, app.libs@, sub.cutoff, st.focus, st.filter, k);
    lemma_node_at_below(sub.nodes, roots[k].0, q);
    lemma_in_view_node(roots[k].1, roots[k].0, q, st.expanded, sub.cutoff);
    (k, q)
}

/// A row tells of the node at its path: its frame, its counts, whether it is
/// expanded, and whether any child of it reaches the cutoff.
pub proof fn law_rows_tell_of_their_nodes(app: App, i: int)
    requires
        0 <= i < rows_of(app).len(),
    ensures
        ({
            let row = rows_of(app)[i];
            let n = node_at(app.tree@, row.path)->0;
            &&& node_at(app.tree@, row.path) is Some
            &&& row.frame == n.frame
            &&& row.total == n.total
            &&& row.self_count == n.self_count
            &&& row.expanded <==> app.expanded@.contains(row.path)
            &&& row.has_children <==> exists|c: int|
                0 <= c < n.children.len() && app.cutoff.admits((#[trigger] n.children[c]).total)
        }),
{
    let (k, q) = lemma_row_place(app, i);
}

proof fn lemma_path_lt_apart(
    a: Seq<usize>,
    b: Seq<usize>,
    x: Seq<usize>,
    y: Seq<usize>,
)
    requires
        path_lt(a, b),
        apart(a, b),
    ensures
        path_lt(a + x, b + y),
    decreases a.len(),
{
    if a.len() == 0 {
        assert(a =~= b.subrange(0, 0));
    } else if a[0] == b[0] {
        let c = a.drop_first();
        let d = b.drop_first();
        assert((a + x).drop_first() =~= c + x);
        assert((b + y).drop_first() =~= d + y);
        assert(apart(c, d)) by {
            if c.is_prefix_of(d) {
                assert forall|m: int| 0 <= m < a.len() implies a[m] == b.subrange(
                    0,
                    a.len() as int,
                )[m] by {
                    if m > 0 {
                        assert(c[m - 1] == d.subrange(0, c.len() as int)[m - 1]);
                    }
                }
                assert(a =~= b.subrange(0, a.len() as int));
            }
            if d.is_prefix_of(c) {
                assert forall|m: int| 0 <= m < b.len() implies b[m] == a.subrange(
                    0,
                    b.len() as int,
                )[m] by {
                    if m > 0 {
                        assert(d[m - 1] == c.subrange(0, d.len() as int)[m - 1]);
                    }
                }
                assert(b =~= a.subrange(0, b.len() as int));
            }
        }
        lemma_path_lt_apart(c, d, x, y);
    }
}

/// Roots in the order of their paths.
spec fn roots_in_order(roots: Seq<Rooted>) -> bool {
    forall|i: int, j: int|
        #![trigger roots[i], roots[j]]
        0 <= i < j < roots.len() ==> path_lt(roots[i].0, roots[j].0)
}

proof fn lemma_through_children(
    prefix: Seq<usize>,
    a: usize,
    b: usize,
    x: Seq<usize>,
    y: Seq<usize>,
)
    requires
        a < b,
        prefix.push(a).is_prefix_of(x),
        prefix.push(b).is_prefix_of(y),
    ensures
        path_lt(x, y),
{
    let n = prefix.len() as int;
    let s = x.skip(n);
    let t = y.skip(n);
    assert forall|m: int| 0 <= m < n implies x[m] == prefix[m] && y[m] == prefix[m] by {
        assert(prefix.push(a)[m] == x.subrange(0, n + 1)[m]);
        assert(prefix.push(b)[m] == y.subrange(0, n + 1)[m]);
    }
    assert(prefix.push(a)[n] == x.subrange(0, n + 1)[n]);
    assert(prefix.push(b)[n] == y.subrange(0, n + 1)[n]);
    assert(x =~= prefix + s);
    assert(y =~= prefix + t);
    lemma_path_lt_prefix(prefix, s, t);
}

proof fn lemma_topmost_in_order(
    nodes: Seq<NodeView>,
    k: nat,
    prefix: Seq<usize>,
    cutoff: Cutoff,
    says: spec_fn(FrameView) -> bool,
)
    requires
        indexable(nodes),
        k <= nodes.len(),
    ensures
        roots_in_order(topmost(nodes, k, prefix, cutoff, says)),
    decreases nodes, k,
{
    if k > 0 {
        let all = topmost(nodes, k, prefix, cutoff, says);
        let front = topmost(nodes, (k - 1) as nat, prefix, cutoff, says);
        let n = nodes[k - 1];
        let path = prefix.push((k - 1) as usize);
        let own = if cutoff.hides(n.total) {
            Seq::empty()
        } else if says(n.frame) {
            seq![(path, n)]
        } else {
            topmost(n.children, n.children.len(), path, cutoff, says)
        };
        assert(all =~= front + own);
        assert(indexable(n.children));
        lemma_topmost_in_order(nodes, (k - 1) as nat, prefix, cutoff, says);
        lemma_topmost_in_order(n.children, n.children.len(), path, cutoff, says);
        lemma_topmost_separate(nodes, (k - 1) as nat, prefix, cutoff, says);
        lemma_topmost_separate(n.children, n.children.len(), path, cutoff, says);
        assert forall|i: int, j: int|
            #![trigger all[i], all[j]]
            0 <= i < j < all.len() implies path_lt(all[i].0, all[j].0) by {
            if j < front.len() {
                assert(all[i] == front[i] && all[j] == front[j]);
            } else if i >= front.len() {
                assert(all[i] == own[i - front.len()] && all[j] == own[j - front.len()]);
            } else {
                let y = own[j - front.len()].0;
                assert(all[i] == front[i] && all[j] == own[j - front.len()]);
                assert(through_child(prefix, (k - 1) as nat, front[i].0));
                let c = choose|c: int|
                    0 <= c < k - 1 && #[trigger] prefix.push(c as usize).is_prefix_of(front[i].0);
                assert(path.is_prefix_of(y)) by {
                    if !cutoff.hides(n.total) && says(n.frame) {
                        assert(path =~= path.subrange(0, path.len() as int));
                    } else {
                        assert(through_child(path, n.children.len(), y));
                        let d = choose|d: int|
                            0 <= d < n.children.len() && #[trigger] path.push(
                                d as usize,
                            ).is_prefix_of(y);
                        assert forall|m: int| 0 <= m < path.len() implies path[m] == y[m] by {
                            assert(path.push(d as usize)[m] == y.subrange(
                                0,
                                path.len() as int + 1,
                            )[m]);
                        }
                        assert(path =~= y.subrange(0, path.len() as int));
                    }
                }
                lemma_through_children(prefix, c as usize, (k - 1) as usize, all[i].0, y);
            }
        }
    }
}

proof fn lemma_visible_roots_in_order(nodes: Seq<NodeView>, k: nat, cutoff: Cutoff)
    requires
        indexable(nodes),
        k <= nodes.len(),
    ensures
        roots_in_order(visible_roots(nodes, k, cutoff)),
        forall|i: int|
            0 <= i < visible_roots(nodes, k, cutoff).len() ==> {
                &&& (#[trigger] visible_roots(nodes, k, cutoff)[i]).0.len() == 1
                &&& visible_roots(nodes, k, cutoff)[i].0[0] < k
            },
        forall|c: int|
            0 <= c < k && !cutoff.hides((#[trigger] nodes[c]).total) ==> visible_roots(
                nodes,
                k,
                cutoff,
            ).contains((seq![c as usize], nodes[c])),
    decreases k,
{
    if k > 0 {
        lemma_visible_roots_in_order(nodes, (k - 1) as nat, cutoff);
        let front = visible_roots(nodes, (k - 1) as nat, cutoff);
        let all = visible_roots(nodes, k, cutoff);
        assert forall|i: int, j: int|
            #![trigger all[i], all[j]]
            0 <= i < j < all.len() implies path_lt(all[i].0, all[j].0) by {
            assert(all[i] == front[i]);
            if j < front.len() {
                assert(all[j] == front[j]);
            }
        }
        assert forall|c: int| 0 <= c < k && !cutoff.hides((#[trigger] nodes[c]).total) implies all
            .contains((seq![c as usize], nodes[c])) by {
            if c < k - 1 {
                let m = (seq![c as usize], nodes[c]);
                assert(front.contains(m));
                let at = choose|at: int| 0 <= at < front.len() && front[at] == m;
                assert(all[at] == m);
            } else {
                assert(all[all.len() - 1] == (seq![c as usize], nodes[c]));
            }
        }
    }
}

proof fn lemma_rows_from_in_order(
    roots: Seq<Rooted>,
    expanded: Set<Seq<usize>>,
    cutoff: Cutoff,
)
    requires
        separate(roots),
        roots_in_order(roots),
    ensures
        in_tree_order(rows_from(roots, expanded, cutoff)),
    decreases roots.len(),
{
    if roots.len() > 0 {
        let rows = rows_from(roots, expanded, cutoff);
        let fewer = roots.drop_last();
        let front = rows_from(fewer, expanded, cutoff);
        let top = roots.last();
        let own = node_rows(top.1, top.0, 0, expanded, cutoff);
        assert(separate(fewer)) by {
            assert forall|x: int, y: int|
                #![trigger fewer[x], fewer[y]]
                0 <= x < y < fewer.len() implies apart(fewer[x].0, fewer[y].0) by {
                assert(apart(roots[x].0, roots[y].0));
            }
            assert forall|x: int| 0 <= x < fewer.len() implies indexable(
                (#[trigger] fewer[x]).1.children,
            ) by {
                assert(indexable(roots[x].1.children));
            }
        }
        assert(roots_in_order(fewer)) by {
            assert forall|x: int, y: int|
                #![trigger fewer[x], fewer[y]]
                0 <= x < y < fewer.len() implies path_lt(fewer[x].0, fewer[y].0) by {
                assert(path_lt(roots[x].0, roots[y].0));
            }
        }
        lemma_rows_from_in_order(fewer, expanded, cutoff);
        assert(indexable(roots[roots.len() - 1].1.children));
        lemma_node_rows_in_order(top.1, top.0, 0, expanded, cutoff);
        assert forall|i: int, j: int|
            #![trigger rows[i], rows[j]]
            0 <= i < j < rows.len() implies path_lt(rows[i].path, rows[j].path) by {
            if j < front.len() {
                assert(rows[i] == front[i] && rows[j] == front[j]);
            } else if i >= front.len() {
                assert(rows[i] == own[i - front.len()] && rows[j] == own[j - front.len()]);
            } else {
                assert(rows[i] == front[i]);
                let (m, q) = lemma_row_root(fewer, expanded, cutoff, i);
                let only = seq![top];
                reveal_with_fuel(rows_from, 2);
                assert(only.drop_last() =~= Seq::empty());
                assert(rows_from(only, expanded, cutoff) =~= own);
                let (z, s) = lemma_row_root(only, expanded, cutoff, j - front.len());
                assert(rows[j] == own[j - front.len()]);
                assert(roots[m] == fewer[m]);
                lemma_path_lt_apart(fewer[m].0, top.0, q, s);
            }
        }
    }
}

proof fn lemma_rows_in_order(app: App)
    ensures
        in_tree_order(rows_of(app)),
{
    let sub = app.subject();
    let st = app.state();
    let roots = view_roots(sub, st.focus, st.filter);
    lemma_indexable(app.tree.roots);
    lemma_view_roots_separate(sub, st.focus, st.filter);
    lemma_shown(sub, st);
    assert(roots_in_order(roots)) by {
        if st.filter.len() == 0 {
            if st.focus is None {
                lemma_visible_roots_in_order(sub.nodes, sub.nodes.len(), sub.cutoff);
            }
        } else {
            let filter = st.filter;
            let says = |f: FrameView| passes(filter, sub.libs, f);
            assert(roots == match_roots(sub.nodes, st.focus, sub.cutoff, says));
            match st.focus {
                None => {
                    lemma_topmost_in_order(
                        sub.nodes,
                        sub.nodes.len(),
                        Seq::empty(),
                        sub.cutoff,
                        says,
                    );
                },
                Some(root) => {
                    if let Some(n) = node_at(sub.nodes, root) {
                        lemma_indexable_at(sub.nodes, root);
                        lemma_topmost_in_order(
                            n.children,
                            n.children.len(),
                            root,
                            sub.cutoff,
                            says,
                        );
                    }
                },
            }
        }
    }
    lemma_rows_from_in_order(roots, st.expanded, sub.cutoff);
}

/// Where one path comes before another: where they first differ it goes to an
/// earlier child, or it ends there.
proof fn lemma_path_lt_fork(a: Seq<usize>, b: Seq<usize>) -> (k: int)
    requires
        path_lt(a, b),
    ensures
        0 <= k <= a.len(),
        k < b.len(),
        a.take(k) == b.take(k),
        k == a.len() || a[k] < b[k],
    decreases a.len(),
{
    if a.len() == 0 || a[0] < b[0] {
        assert(a.take(0) =~= b.take(0));
        0
    } else {
        let k = lemma_path_lt_fork(a.drop_first(), b.drop_first());
        assert(a.take(k + 1) =~= seq![a[0]] + a.drop_first().take(k));
        assert(b.take(k + 1) =~= seq![b[0]] + b.drop_first().take(k));
        k + 1
    }
}

/// Rows come in the order of the tree: of two rows, the first is an ancestor of
/// the second, or where their paths part it goes to the earlier child.
pub proof fn law_rows_come_in_tree_order(app: App, i: int, j: int) -> (k: int)
    requires
        0 <= i < j < rows_of(app).len(),
    ensures
        0 <= k <= rows_of(app)[i].path.len(),
        k < rows_of(app)[j].path.len(),
        rows_of(app)[i].path.take(k) == rows_of(app)[j].path.take(k),
        k == rows_of(app)[i].path.len() || rows_of(app)[i].path[k] < rows_of(app)[j].path[k],
{
    lemma_rows_in_order(app);
    lemma_path_lt_fork(rows_of(app)[i].path, rows_of(app)[j].path)
}

proof fn lemma_in_view_parent(
    n: NodeView,
    path: Seq<usize>,
    q: Seq<usize>,
    expanded: Set<Seq<usize>>,
    cutoff: Cutoff,
)
    requires
        in_view(n, path, q, expanded, cutoff),
        q.len() > 0,
    ensures
        in_view(n, path, q.drop_last(), expanded, cutoff),
        is_open(
            descendant(n, q.drop_last())->0,
            path + q.drop_last(),
            expanded,
            cutoff,
        ),
    decreases q.len(),
{
    let up = q.drop_last();
    if q.len() == 1 {
        assert(up =~= Seq::empty());
        assert(path + up =~= path);
    } else {
        let c = n.children[q[0] as int];
        let rest = q.drop_first();
        lemma_in_view_parent(c, path.push(q[0]), rest, expanded, cutoff);
        assert(up.drop_first() =~= rest.drop_last());
        assert(path + up =~= path.push(q[0]) + rest.drop_last());
        lemma_in_view_node(n, path, up, expanded, cutoff);
    }
}

/// A row that is not at depth zero hangs below a row of its parent, one level
/// above and before it, which is expanded.
pub proof fn law_every_row_hangs_below_its_parent(app: App, i: int) -> (j: int)
    requires
        0 <= i < rows_of(app).len(),
        rows_of(app)[i].depth > 0,
    ensures
        0 <= j < i,
        rows_of(app)[j].path == rows_of(app)[i].path.drop_last(),
        rows_of(app)[j].depth + 1 == rows_of(app)[i].depth,
        rows_of(app)[j].expanded,
        rows_of(app)[j].has_children,
{
    let rows = rows_of(app);
    let roots = view_roots(app.subject(), app.state().focus, app.filter@);
    let (m, q) = lemma_row_place(app, i);
    lemma_in_view_parent(roots[m].1, roots[m].0, q, app.expanded@, app.cutoff);
    lemma_shown(app.subject(), app.state());
    let j = lemma_root_row(roots, app.expanded@, app.cutoff, m, q.drop_last());
    assert((roots[m].0 + q).drop_last() =~= roots[m].0 + q.drop_last());
    lemma_rows_in_order(app);
    if j > i {
        let k = lemma_path_lt_fork(rows[i].path, rows[j].path);
        assert(rows[i].path[k] == rows[j].path[k]);
    }
    j
}

/// Below an expanded row each child that does not fall below the cutoff has a row,
/// one level deeper and after it.
pub proof fn law_expanded_rows_show_their_children(app: App, i: int, c: usize) -> (j: int)
    requires
        0 <= i < rows_of(app).len(),
        rows_of(app)[i].expanded,
        rows_of(app)[i].has_children,
        c < node_at(app.tree@, rows_of(app)[i].path)->0.children.len(),
        !app.cutoff.hides(
            node_at(app.tree@, rows_of(app)[i].path)->0.children[c as int].total,
        ),
    ensures
        i < j < rows_of(app).len(),
        rows_of(app)[j].path == rows_of(app)[i].path.push(c),
        rows_of(app)[j].depth == rows_of(app)[i].depth + 1,
{
    let rows = rows_of(app);
    let roots = view_roots(app.subject(), app.state().focus, app.filter@);
    let (m, q) = lemma_row_place(app, i);
    lemma_child_in_view(
        roots[m].1,
        roots[m].0,
        q,
        app.expanded@,
        app.expanded@,
        app.cutoff,
        c,
    );
    lemma_shown(app.subject(), app.state());
    let j = lemma_root_row(roots, app.expanded@, app.cutoff, m, q.push(c));
    assert(roots[m].0 + q.push(c) =~= (roots[m].0 + q).push(c));
    lemma_rows_in_order(app);
    if j < i {
        let k = lemma_path_lt_fork(rows[j].path, rows[i].path);
        assert(rows[i].path[k] == rows[j].path[k]);
    }
    j
}

/// Without a focus and a filter, each root that does not fall below the cutoff
/// has a row, and only roots are at depth zero.
pub proof fn law_roots_are_at_depth_zero(app: App, i: int, c: usize)
    requires
        app.filter@.len() == 0,
        app.focus_root is None,
    ensures
        0 <= i < rows_of(app).len() ==> rows_of(app)[i].path.len() == rows_of(app)[i].depth + 1,
        c < app.tree@.len() && !app.cutoff.hides(app.tree@[c as int].total) ==> exists|j: int|
            0 <= j < rows_of(app).len() && (#[trigger] rows_of(app)[j]).path == seq![c],
{
    let roots = view_roots(app.subject(), app.state().focus, app.filter@);
    lemma_indexable(app.tree.roots);
    lemma_visible_roots_in_order(app.tree@, app.tree@.len(), app.cutoff);
    lemma_view_roots_separate(app.subject(), app.state().focus, app.filter@);
    lemma_shown(app.subject(), app.state());
    if 0 <= i < rows_of(app).len() {
        let (m, q) = lemma_row_place(app, i);
        assert(roots[m].0.len() == 1);
    }
    if c < app.tree@.len() && !app.cutoff.hides(app.tree@[c as int].total) {
        let root = (seq![c], app.tree@[c as int]);
        assert(roots.contains(root));
        let m = choose|m: int| 0 <= m < roots.len() && roots[m] == root;
        let none = Seq::<usize>::empty();
        assert(in_view(roots[m].1, roots[m].0, none, app.expanded@, app.cutoff));
        let j = lemma_root_row(roots, app.expanded@, app.cutoff, m, none);
        assert(seq![c] + none =~= seq![c]);
        assert(rows_of(app)[j].path == seq![c]);
    }
}

/// With a focus and without a filter, all rows are at or below the focused node,
/// as deep as they lie there, and the node itself comes first.
pub proof fn law_a_focused_view_is_that_of_the_node(app: App, i: int)
    requires
        app.filter@.len() == 0,
        app.focus_root is Some,
    ensures
        node_at(app.tree@, app.focus_root->0@) is None ==> rows_of(app).len() == 0,
        node_at(app.tree@, app.focus_root->0@) is Some ==> rows_of(app).len() > 0 && rows_of(
            app,
        )[0].path == app.focus_root->0@,
        0 <= i < rows_of(app).len() ==> {
            &&& app.focus_root->0@.is_prefix_of(rows_of(app)[i].path)
            &&& rows_of(app)[i].path.len() == app.focus_root->0@.len() + rows_of(app)[i].depth
        },
{
    let roots = view_roots(app.subject(), app.state().focus, app.filter@);
    let focus = app.focus_root->0@;
    if 0 <= i < rows_of(app).len() {
        let (m, q) = lemma_row_place(app, i);
        assert(roots[m].0 == focus);
        assert(focus =~= (focus + q).subrange(0, focus.len() as int));
    }
    if node_at(app.tree@, focus) is Some {
        let n = node_at(app.tree@, focus)->0;
        assert(node_rows(n, focus, 0, app.expanded@, app.cutoff)[0].path == focus);
    }
}

/// With a filter, a row at depth zero passes it, and no row above it on the way
/// from the root, or from the focused node, does; a deeper row lies as deep below
/// one that passes.
pub proof fn law_filtered_rows_start_at_matches(app: App, i: int)
    requires
        app.filter@.len() > 0,
        0 <= i < rows_of(app).len(),
    ensures
        ({
            let row = rows_of(app)[i];
            let up = row.path.len() - row.depth;
            let top = row.path.take(up);
            let from = if app.focus_root is Some {
                app.focus_root->0@.len()
            } else {
                1
            };
            &&& from <= up <= row.path.len()
            &&& node_at(app.tree@, top) is Some
            &&& passes(app.filter@, app.libs@, node_at(app.tree@, top)->0.frame)
            &&& app.focus_root is Some ==> app.focus_root->0@.is_prefix_of(row.path)
            &&& forall|k: int|
                from <= k < up ==> !passes(
                    app.filter@,
                    app.libs@,
                    node_at(app.tree@, #[trigger] row.path.take(k))->0.frame,
                )
        }),
{
    let row = rows_of(app)[i];
    let sub = app.subject();
    let focus = app.state().focus;
    let filter = app.filter@;
    let roots = view_roots(sub, focus, filter);
    let says = |f: FrameView| passes(filter, sub.libs, f);
    assert(roots == match_roots(sub.nodes, focus, sub.cutoff, says));
    let (m, q) = lemma_row_place(app, i);
    let (p, n) = roots[m];
    assert(row.path == p + q);
    assert(row.path.take(p.len() as int) =~= p);
    assert(roots.contains((p, n)));
    match focus {
        None => {
            law_filter_roots_are_the_topmost_matches(app.tree, sub.cutoff, says, p, n);
            assert(is_topmost(app.tree@, p, sub.cutoff, says));
            assert(says(node_at(app.tree@, p)->0.frame));
            assert forall|k: int| 1 <= k < p.len() implies !passes(
                filter,
                app.libs@,
                node_at(app.tree@, #[trigger] row.path.take(k))->0.frame,
            ) by {
                assert(row.path.take(k) =~= p.take(k));
                assert(!says(node_at(app.tree@, p.take(k))->0.frame));
            }
        },
        Some(root) => {
            let rest = p.skip(root.len() as int);
            if node_at(app.tree@, root) is Some {
                law_filter_within_subtree(app.tree, root, sub.cutoff, says, rest, n);
                assert(root.is_prefix_of(p));
                assert(root + rest =~= p);
                let top = node_at(app.tree@, root)->0;
                assert(root =~= row.path.subrange(0, root.len() as int)) by {
                    assert forall|x: int| 0 <= x < root.len() implies root[x] == row.path[x] by {
                        assert(root[x] == p.subrange(0, root.len() as int)[x]);
                    }
                }
                if says(top.frame) {
                    assert(p =~= root);
                    assert(passes(filter, app.libs@, top.frame));
                } else {
                    assert(is_topmost(top.children, rest, sub.cutoff, says));
                    lemma_node_at_below(app.tree@, root, rest);
                    assert(says(node_at(top.children, rest)->0.frame));
                    assert forall|k: int| root.len() <= k < p.len() implies !passes(
                        filter,
                        app.libs@,
                        node_at(app.tree@, #[trigger] row.path.take(k))->0.frame,
                    ) by {
                        let t = k - root.len();
                        assert(row.path.take(k) =~= root + rest.take(t));
                        lemma_node_at_below(app.tree@, root, rest.take(t));
                        if t > 0 {
                            assert(!says(node_at(top.children, rest.take(t))->0.frame));
                        } else {
                            assert(rest.take(t) =~= Seq::empty());
                        }
                    }
                }
            }
        },
    }
}

/// With a filter and without a focus, each node that passes shows, or one above it
/// that passes does, at depth zero, wherever none on the way falls below the
/// cutoff.
pub proof fn law_every_match_is_found(app: App, p: Seq<usize>) -> (i: int)
    requires
        app.filter@.len() > 0,
        app.focus_root is None,
        node_at(app.tree@, p) is Some,
        passes(app.filter@, app.libs@, node_at(app.tree@, p)->0.frame),
        forall|k: int|
            1 <= k <= p.len() ==> !app.cutoff.hides(
                node_at(app.tree@, #[trigger] p.take(k))->0.total,
            ),
    ensures
        0 <= i < rows_of(app).len(),
        rows_of(app)[i].depth == 0,
        rows_of(app)[i].path.is_prefix_of(p),
        passes(app.filter@, app.libs@, rows_of(app)[i].frame),
    decreases p.len(),
{
    let sub = app.subject();
    let filter = app.filter@;
    let says = |f: FrameView| passes(filter, sub.libs, f);
    let roots = view_roots(sub, app.state().focus, filter);
    if exists|k: int|
        1 <= k < p.len() && #[trigger] says(node_at(app.tree@, p.take(k))->0.frame) {
        let k = choose|k: int|
            1 <= k < p.len() && #[trigger] says(node_at(app.tree@, p.take(k))->0.frame);
        let q = p.take(k);
        lemma_node_above(app, p, k);
        assert forall|m: int| 1 <= m <= q.len() implies !app.cutoff.hides(
            node_at(app.tree@, #[trigger] q.take(m))->0.total,
        ) by {
            assert(q.take(m) =~= p.take(m));
            assert(!app.cutoff.hides(node_at(app.tree@, p.take(m))->0.total));
        }
        let i = law_every_match_is_found(app, q);
        let x = rows_of(app)[i].path;
        assert(x =~= p.subrange(0, x.len() as int)) by {
            assert forall|m: int| 0 <= m < x.len() implies x[m] == p[m] by {
                assert(x[m] == q.subrange(0, x.len() as int)[m]);
            }
        }
        i
    } else {
        let n = node_at(app.tree@, p)->0;
        assert forall|k: int| 1 <= k < p.len() implies !says(
            node_at(app.tree@, #[trigger] p.take(k))->0.frame,
        ) by {
            let s = says(node_at(app.tree@, p.take(k))->0.frame);
        }
        assert(is_topmost(app.tree@, p, app.cutoff, says));
        law_filter_roots_are_the_topmost_matches(app.tree, app.cutoff, says, p, n);
        assert(roots == match_roots(sub.nodes, app.state().focus, sub.cutoff, says));
        assert(roots.contains((p, n)));
        let m = choose|m: int| 0 <= m < roots.len() && roots[m] == (p, n);
        let none = Seq::<usize>::empty();
        lemma_indexable(app.tree.roots);
        lemma_view_roots_separate(sub, app.state().focus, filter);
        lemma_shown(sub, app.state());
        assert(in_view(roots[m].1, roots[m].0, none, app.expanded@, app.cutoff));
        let i = lemma_root_row(roots, app.expanded@, app.cutoff, m, none);
        assert(p + none =~= p);
        assert(p =~= p.subrange(0, p.len() as int));
        i
    }
}

proof fn lemma_node_above(app: App, p: Seq<usize>, k: int)
    requires
        node_at(app.tree@, p) is Some,
        1 <= k <= p.len(),
    ensures
        node_at(app.tree@, p.take(k)) is Some,
{
    if node_at(app.tree@, p.take(k)) is None {
        lemma_node_at_missing(app.tree@, p, k);
    }
}

} // verus!
