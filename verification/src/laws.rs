//! What the viewer keeps while its keys are pressed.

use vstd::prelude::*;

use crate::cutoff::Cutoff;
use crate::listing::{
    child_row, descendant, in_view, indexable, law_filter_roots_are_the_topmost_matches,
    law_filter_within_subtree, lemma_forest_rows, lemma_in_view_node, lemma_indexable,
    lemma_indexable_at, lemma_listed_below, lemma_node_at_below, lemma_node_rows, listed_below, row_at,
};
use crate::paths::is_below;
use crate::profile::Library;
use crate::rows::{
    forest_rows, has_visible_child, is_open, match_roots, node_rows, rooted_rows,
    row_of, rows_from, topmost, tree_rows, RowView,
};
use crate::tree::{node_at, CallTree, FrameView, NodeView};
use crate::ui::{
    after_collapse, after_expand, after_focus, after_unfocus, cleared, folded, is_first_row, passes,
    shown_rows, App, Subject, ViewState,
};

verus! {

/// Nodes and the paths that lead to them.
pub type Rooted = (Seq<usize>, NodeView);

/// Neither path leads through the end of the other.
pub open spec fn apart(a: Seq<usize>, b: Seq<usize>) -> bool {
    !a.is_prefix_of(b) && !b.is_prefix_of(a)
}

/// The first `k` roots that do not fall below the cutoff.
pub open spec fn visible_roots(nodes: Seq<NodeView>, k: nat, cutoff: Cutoff) -> Seq<Rooted>
    decreases k,
{
    if k == 0 || k > nodes.len() {
        Seq::empty()
    } else {
        let front = visible_roots(nodes, (k - 1) as nat, cutoff);
        if cutoff.hides(nodes[k - 1].total) {
            front
        } else {
            front.push((seq![(k - 1) as usize], nodes[k - 1]))
        }
    }
}

/// The nodes that the shown rows are rooted at.
pub open spec fn view_roots(sub: Subject, focus: Option<Seq<usize>>, filter: Seq<char>) -> Seq<Rooted> {
    if filter.len() == 0 {
        match focus {
            Some(root) => match node_at(sub.nodes, root) {
                Some(n) => seq![(root, n)],
                None => Seq::empty(),
            },
            None => visible_roots(sub.nodes, sub.nodes.len(), sub.cutoff),
        }
    } else {
        match_roots(
            sub.nodes,
            focus,
            sub.cutoff,
            |f: FrameView| passes(filter, sub.libs, f),
        )
    }
}

proof fn lemma_visible_roots(
    nodes: Seq<NodeView>,
    k: nat,
    expanded: Set<Seq<usize>>,
    cutoff: Cutoff,
)
    requires
        k <= nodes.len(),
    ensures
        forest_rows(nodes, k, Seq::empty(), 0, expanded, cutoff) == rows_from(
            visible_roots(nodes, k, cutoff),
            expanded,
            cutoff,
        ),
    decreases k,
{
    if k > 0 {
        lemma_visible_roots(nodes, (k - 1) as nat, expanded, cutoff);
        let front = visible_roots(nodes, (k - 1) as nat, cutoff);
        let own = (seq![(k - 1) as usize], nodes[k - 1]);
        assert(Seq::<usize>::empty().push((k - 1) as usize) =~= seq![(k - 1) as usize]);
        if cutoff.hides(nodes[k - 1].total) {
            assert(forest_rows(nodes, k, Seq::empty(), 0, expanded, cutoff) =~= forest_rows(
                nodes,
                (k - 1) as nat,
                Seq::empty(),
                0,
                expanded,
                cutoff,
            ));
        } else {
            assert(front.push(own).drop_last() =~= front);
        }
    }
}

/// Whatever is shown is the rows of some roots, which no expansion changes.
pub proof fn lemma_shown(sub: Subject, st: ViewState)
    ensures
        shown_rows(sub, st) == rows_from(
            view_roots(sub, st.focus, st.filter),
            st.expanded,
            sub.cutoff,
        ),
{
    let roots = view_roots(sub, st.focus, st.filter);
    if st.filter.len() == 0 {
        match st.focus {
            Some(root) => {
                match node_at(sub.nodes, root) {
                    Some(n) => {
                        reveal_with_fuel(rows_from, 2);
                        assert(roots.drop_last() =~= Seq::empty());
                        assert(roots.last() == (root, n));
                        assert(rows_from(roots, st.expanded, sub.cutoff) =~= rooted_rows(
                            sub.nodes,
                            root,
                            st.expanded,
                            sub.cutoff,
                        ));
                    },
                    None => {},
                }
            },
            None => {
                lemma_visible_roots(sub.nodes, sub.nodes.len(), st.expanded, sub.cutoff);
            },
        }
    }
}

/// Roots that are apart from one another, with indexable nodes.
pub open spec fn separate(roots: Seq<Rooted>) -> bool {
    &&& forall|i: int| 0 <= i < roots.len() ==> (#[trigger] roots[i]).0.len() > 0
    &&& forall|i: int, j: int|
        #![trigger roots[i], roots[j]]
        0 <= i < j < roots.len() ==> apart(roots[i].0, roots[j].0)
    &&& forall|i: int| 0 <= i < roots.len() ==> indexable((#[trigger] roots[i]).1.children)
}

proof fn lemma_apart(p: Seq<usize>, a: usize, b: usize, x: Seq<usize>, y: Seq<usize>)
    requires
        a != b,
        p.push(a).is_prefix_of(x),
        p.push(b).is_prefix_of(y),
    ensures
        apart(x, y),
{
    let n = p.len() as int;
    assert(x[n] == x.subrange(0, n + 1)[n]);
    assert(y[n] == y.subrange(0, n + 1)[n]);
    assert(p.push(a)[n] == a);
    assert(p.push(b)[n] == b);
    if x.is_prefix_of(y) {
        assert(x[n] == y.subrange(0, x.len() as int)[n]);
    }
    if y.is_prefix_of(x) {
        assert(y[n] == x.subrange(0, y.len() as int)[n]);
    }
}

proof fn lemma_visible_roots_separate(nodes: Seq<NodeView>, k: nat, cutoff: Cutoff)
    requires
        indexable(nodes),
        k <= nodes.len(),
    ensures
        separate(visible_roots(nodes, k, cutoff)),
        forall|i: int|
            0 <= i < visible_roots(nodes, k, cutoff).len() ==> {
                &&& (#[trigger] visible_roots(nodes, k, cutoff)[i]).0.len() == 1
                &&& visible_roots(nodes, k, cutoff)[i].0[0] < k
            },
    decreases k,
{
    if k > 0 {
        lemma_visible_roots_separate(nodes, (k - 1) as nat, cutoff);
        let front = visible_roots(nodes, (k - 1) as nat, cutoff);
        let roots = visible_roots(nodes, k, cutoff);
        assert(indexable(nodes[k - 1].children));
        assert forall|i: int, j: int|
            #![trigger roots[i], roots[j]]
            0 <= i < j < roots.len() implies apart(roots[i].0, roots[j].0) by {
            if j < front.len() {
                assert(roots[i] == front[i] && roots[j] == front[j]);
            } else {
                assert(roots[i] == front[i]);
                let x = roots[i].0;
                let y = roots[j].0;
                let none = Seq::<usize>::empty();
                assert(x =~= none.push(x[0]));
                assert(y =~= none.push(y[0]));
                assert(x =~= x.subrange(0, 1));
                assert(y =~= y.subrange(0, 1));
                lemma_apart(none, x[0], y[0], x, y);
            }
        }
    }
}

/// Whether a path goes through one of the first `k` children below `prefix`.
pub open spec fn through_child(prefix: Seq<usize>, k: nat, x: Seq<usize>) -> bool {
    exists|c: int| 0 <= c < k && #[trigger] prefix.push(c as usize).is_prefix_of(x)
}

/// Topmost matches lie apart from one another.
pub proof fn lemma_topmost_separate(
    nodes: Seq<NodeView>,
    k: nat,
    prefix: Seq<usize>,
    cutoff: Cutoff,
    says: spec_fn(FrameView) -> bool,
)
    requires
        indexable(nodes),
        k <= nodes.len(),
    ensures
        separate(topmost(nodes, k, prefix, cutoff, says)),
        forall|i: int|
            0 <= i < topmost(nodes, k, prefix, cutoff, says).len() ==> through_child(
                prefix,
                k,
                (#[trigger] topmost(nodes, k, prefix, cutoff, says)[i]).0,
            ),
    decreases nodes, k,
{
    if k > 0 {
        let all = topmost(nodes, k, prefix, cutoff, says);
        let front = topmost(nodes, (k - 1) as nat, prefix, cutoff, says);
        let n = nodes[k - 1];
        let path = prefix.push((k - 1) as usize);
        let own = if cutoff.hides(n.total) {
            Seq::empty()
        } else if says(n.frame) {
            seq![(path, n)]
        } else {
            topmost(n.children, n.children.len(), path, cutoff, says)
        };
        assert(all =~= front + own);
        lemma_topmost_separate(nodes, (k - 1) as nat, prefix, cutoff, says);
        assert(indexable(n.children));
        lemma_topmost_separate(n.children, n.children.len(), path, cutoff, says);
        assert forall|i: int| 0 <= i < own.len() implies path.is_prefix_of(
            (#[trigger] own[i]).0,
        ) by {
            if !cutoff.hides(n.total) && says(n.frame) {
                assert(path =~= path.subrange(0, path.len() as int));
            } else {
                assert(through_child(path, n.children.len(), own[i].0));
                let c = choose|c: int|
                    0 <= c < n.children.len() && #[trigger] path.push(c as usize).is_prefix_of(
                        own[i].0,
                    );
                let x = own[i].0;
                assert(path =~= x.subrange(0, path.len() as int)) by {
                    assert forall|m: int| 0 <= m < path.len() implies path[m] == x[m] by {
                        assert(path.push(c as usize)[m] == x.subrange(0, path.len() as int + 1)[m]);
                    }
                }
            }
        }
        assert(separate(own));
        assert forall|i: int, j: int|
            #![trigger all[i], all[j]]
            0 <= i < j < all.len() implies apart(all[i].0, all[j].0) by {
            if j < front.len() {
                assert(all[i] == front[i] && all[j] == front[j]);
            } else if i >= front.len() {
                assert(all[i] == own[i - front.len()] && all[j] == own[j - front.len()]);
            } else {
                assert(all[i] == front[i] && all[j] == own[j - front.len()]);
                assert(through_child(prefix, (k - 1) as nat, front[i].0));
                let c = choose|c: int|
                    0 <= c < k - 1 && #[trigger] prefix.push(c as usize).is_prefix_of(front[i].0);
                lemma_apart(prefix, c as usize, (k - 1) as usize, all[i].0, all[j].0);
            }
        }
        assert forall|i: int| 0 <= i < all.len() implies indexable(
            (#[trigger] all[i]).1.children,
        ) by {
            if i < front.len() {
                assert(all[i] == front[i]);
            } else {
                assert(all[i] == own[i - front.len()]);
            }
        }
        assert forall|i: int| 0 <= i < all.len() implies through_child(
            prefix,
            k,
            (#[trigger] all[i]).0,
        ) by {
            if i < front.len() {
                assert(all[i] == front[i]);
                assert(through_child(prefix, (k - 1) as nat, front[i].0));
                let c = choose|c: int|
                    0 <= c < k - 1 && #[trigger] prefix.push(c as usize).is_prefix_of(front[i].0);
                assert(prefix.push(c as usize).is_prefix_of(all[i].0));
            } else {
                assert(all[i] == own[i - front.len()]);
                assert(prefix.push((k - 1) as usize).is_prefix_of(all[i].0));
            }
        }
    }
}

/// The roots of a view lie apart.
pub proof fn lemma_view_roots_separate(sub: Subject, focus: Option<Seq<usize>>, filter: Seq<char>)
    requires
        indexable(sub.nodes),
    ensures
        separate(view_roots(sub, focus, filter)),
{
    if filter.len() == 0 {
        match focus {
            Some(root) => {
                if node_at(sub.nodes, root) is Some {
                    lemma_indexable_at(sub.nodes, root);
                }
            },
            None => {
                lemma_visible_roots_separate(sub.nodes, sub.nodes.len(), sub.cutoff);
            },
        }
    } else {
        let says = |f: FrameView| passes(filter, sub.libs, f);
        match focus {
            None => {
                lemma_topmost_separate(sub.nodes, sub.nodes.len(), Seq::empty(), sub.cutoff, says);
            },
            Some(root) => {
                if let Some(n) = node_at(sub.nodes, root) {
                    lemma_indexable_at(sub.nodes, root);
                    lemma_topmost_separate(n.children, n.children.len(), root, sub.cutoff, says);
                }
            },
        }
    }
}

/// Whether two sets of expanded paths differ at most at `p` and below.
pub open spec fn agree(a: Set<Seq<usize>>, b: Set<Seq<usize>>, p: Seq<usize>) -> bool {
    forall|q: Seq<usize>| !p.is_prefix_of(q) ==> (#[trigger] a.contains(q) <==> b.contains(q))
}

proof fn lemma_apart_push(path: Seq<usize>, c: usize, p: Seq<usize>)
    requires
        apart(path, p),
    ensures
        apart(path.push(c), p),
{
    let x = path.push(c);
    if x.is_prefix_of(p) {
        assert(path =~= p.subrange(0, path.len() as int)) by {
            assert forall|m: int| 0 <= m < path.len() implies path[m] == p[m] by {
                assert(x[m] == p.subrange(0, x.len() as int)[m]);
            }
        }
    }
    if p.is_prefix_of(x) {
        assert(p =~= x.subrange(0, p.len() as int));
        if p.len() <= path.len() {
            assert(p =~= path.subrange(0, p.len() as int));
        } else {
            assert(path =~= p.subrange(0, path.len() as int)) by {
                assert forall|m: int| 0 <= m < path.len() implies path[m] == p[m] by {
                    assert(p[m] == x.subrange(0, p.len() as int)[m]);
                }
            }
        }
    }
}

proof fn lemma_node_rows_untouched(
    n: NodeView,
    path: Seq<usize>,
    depth: nat,
    a: Set<Seq<usize>>,
    b: Set<Seq<usize>>,
    cutoff: Cutoff,
    p: Seq<usize>,
)
    requires
        agree(a, b, p),
        apart(path, p),
    ensures
        node_rows(n, path, depth, a, cutoff) == node_rows(n, path, depth, b, cutoff),
    decreases n, 0nat,
{
    assert(a.contains(path) <==> b.contains(path));
    assert forall|c: int| 0 <= c < n.children.len() implies apart(
        #[trigger] path.push(c as usize),
        p,
    ) by {
        lemma_apart_push(path, c as usize, p);
    }
    lemma_forest_rows_untouched(n.children, n.children.len(), path, depth + 1, a, b, cutoff, p);
}

proof fn lemma_forest_rows_untouched(
    nodes: Seq<NodeView>,
    k: nat,
    prefix: Seq<usize>,
    depth: nat,
    a: Set<Seq<usize>>,
    b: Set<Seq<usize>>,
    cutoff: Cutoff,
    p: Seq<usize>,
)
    requires
        agree(a, b, p),
        k <= nodes.len(),
        forall|c: int| 0 <= c < k ==> apart(#[trigger] prefix.push(c as usize), p),
    ensures
        forest_rows(nodes, k, prefix, depth, a, cutoff) == forest_rows(
            nodes,
            k,
            prefix,
            depth,
            b,
            cutoff,
        ),
    decreases nodes, k,
{
    if k > 0 {
        lemma_forest_rows_untouched(nodes, (k - 1) as nat, prefix, depth, a, b, cutoff, p);
        assert(apart(prefix.push((k - 1) as usize), p));
        lemma_node_rows_untouched(
            nodes[k - 1],
            prefix.push((k - 1) as usize),
            depth,
            a,
            b,
            cutoff,
            p,
        );
    }
}

proof fn lemma_prefix_concat(path: Seq<usize>, q: Seq<usize>)
    ensures
        path.is_prefix_of(path + q),
        q.len() > 0 ==> !(path + q).is_prefix_of(path),
{
    assert(path =~= (path + q).subrange(0, path.len() as int));
}

/// Expanding or folding at a row leaves the rows before it, and it stays where
/// it was.
proof fn lemma_node_rows_stable(
    n: NodeView,
    path: Seq<usize>,
    depth: nat,
    a: Set<Seq<usize>>,
    b: Set<Seq<usize>>,
    cutoff: Cutoff,
    p: Seq<usize>,
    i: int,
)
    requires
        indexable(n.children),
        agree(a, b, p),
        0 <= i < node_rows(n, path, depth, a, cutoff).len(),
        node_rows(n, path, depth, a, cutoff)[i].path == p,
    ensures
        i < node_rows(n, path, depth, b, cutoff).len(),
        node_rows(n, path, depth, b, cutoff)[i].path == p,
        forall|j: int|
            0 <= j < i ==> #[trigger] node_rows(n, path, depth, b, cutoff)[j] == node_rows(
                n,
                path,
                depth,
                a,
                cutoff,
            )[j],
    decreases n, 0nat,
{
    let rows = node_rows(n, path, depth, a, cutoff);
    let after = node_rows(n, path, depth, b, cutoff);
    assert(rows[0] == row_of(n, path, depth, a, cutoff));
    assert(after[0] == row_of(n, path, depth, b, cutoff));
    if i > 0 {
        let below = forest_rows(n.children, n.children.len(), path, depth + 1, a, cutoff);
        let r = below[i - 1];
        assert(rows[i] == r);
        assert(below.contains(r));
        lemma_forest_rows(n.children, n.children.len(), path, depth + 1, a, cutoff, r);
        let (c, q) = choose|c: int, q: Seq<usize>| #[trigger]
            child_row(n.children, n.children.len(), path, depth + 1, a, cutoff, c, q, r);
        let rest = seq![c as usize] + q;
        assert(p =~= path + rest);
        lemma_prefix_concat(path, rest);
        assert(a.contains(path) <==> b.contains(path));
        lemma_forest_rows_stable(
            n.children,
            n.children.len(),
            path,
            depth + 1,
            a,
            b,
            cutoff,
            p,
            i - 1,
        );
        let more = forest_rows(n.children, n.children.len(), path, depth + 1, b, cutoff);
        assert(after =~= seq![after[0]] + more);
        assert(rows =~= seq![rows[0]] + below);
        assert forall|j: int| 0 <= j < i implies #[trigger] after[j] == rows[j] by {
            if j > 0 {
                assert(after[j] == more[j - 1]);
                assert(rows[j] == below[j - 1]);
            }
        }
    }
}

proof fn lemma_forest_rows_stable(
    nodes: Seq<NodeView>,
    k: nat,
    prefix: Seq<usize>,
    depth: nat,
    a: Set<Seq<usize>>,
    b: Set<Seq<usize>>,
    cutoff: Cutoff,
    p: Seq<usize>,
    i: int,
)
    requires
        indexable(nodes),
        k <= nodes.len(),
        agree(a, b, p),
        0 <= i < forest_rows(nodes, k, prefix, depth, a, cutoff).len(),
        forest_rows(nodes, k, prefix, depth, a, cutoff)[i].path == p,
    ensures
        i < forest_rows(nodes, k, prefix, depth, b, cutoff).len(),
        forest_rows(nodes, k, prefix, depth, b, cutoff)[i].path == p,
        forall|j: int|
            0 <= j < i ==> #[trigger] forest_rows(nodes, k, prefix, depth, b, cutoff)[j]
                == forest_rows(nodes, k, prefix, depth, a, cutoff)[j],
    decreases nodes, k,
{
    let rows = forest_rows(nodes, k, prefix, depth, a, cutoff);
    let after = forest_rows(nodes, k, prefix, depth, b, cutoff);
    let front = forest_rows(nodes, (k - 1) as nat, prefix, depth, a, cutoff);
    let front2 = forest_rows(nodes, (k - 1) as nat, prefix, depth, b, cutoff);
    let n = nodes[k - 1];
    let path = prefix.push((k - 1) as usize);
    if i < front.len() {
        assert(rows[i] == front[i]);
        lemma_forest_rows_stable(nodes, (k - 1) as nat, prefix, depth, a, b, cutoff, p, i);
        assert forall|j: int| 0 <= j < i implies #[trigger] after[j] == rows[j] by {
            assert(after[j] == front2[j]);
            assert(rows[j] == front[j]);
        }
        assert(after[i] == front2[i]);
    } else {
        let own = node_rows(n, path, depth, a, cutoff);
        let own2 = node_rows(n, path, depth, b, cutoff);
        let r = own[i - front.len()];
        assert(rows =~= front + own);
        assert(rows[i] == r);
        assert(own.contains(r));
        lemma_node_rows(n, path, depth, a, cutoff, r);
        let q = choose|q: Seq<usize>| #[trigger]
            in_view(n, path, q, a, cutoff) && r == row_at(n, path, depth, q, a, cutoff);
        lemma_prefix_concat(path, q);
        assert forall|c: int| 0 <= c < k - 1 implies apart(
            #[trigger] prefix.push(c as usize),
            p,
        ) by {
            let x = prefix.push(c as usize);
            assert(x =~= x.subrange(0, x.len() as int));
            lemma_apart(prefix, c as usize, (k - 1) as usize, x, p);
        }
        lemma_forest_rows_untouched(nodes, (k - 1) as nat, prefix, depth, a, b, cutoff, p);
        lemma_node_rows_stable(n, path, depth, a, b, cutoff, p, i - front.len());
        assert(after =~= front2 + own2);
        assert forall|j: int| 0 <= j < i implies #[trigger] after[j] == rows[j] by {
            if j >= front.len() {
                assert(after[j] == own2[j - front.len()]);
                assert(rows[j] == own[j - front.len()]);
            }
        }
    }
}

/// A row of some roots belongs to one of them.
pub proof fn lemma_row_root(
    roots: Seq<Rooted>,
    expanded: Set<Seq<usize>>,
    cutoff: Cutoff,
    i: int,
) -> (m: (int, Seq<usize>))
    requires
        separate(roots),
        0 <= i < rows_from(roots, expanded, cutoff).len(),
    ensures
        0 <= m.0 < roots.len(),
        in_view(roots[m.0].1, roots[m.0].0, m.1, expanded, cutoff),
        rows_from(roots, expanded, cutoff)[i] == row_at(
            roots[m.0].1,
            roots[m.0].0,
            0,
            m.1,
            expanded,
            cutoff,
        ),
    decreases roots.len(),
{
    let rows = rows_from(roots, expanded, cutoff);
    let front = rows_from(roots.drop_last(), expanded, cutoff);
    let top = roots.last();
    assert(separate(roots.drop_last())) by {
        assert forall|x: int, y: int|
            #![trigger roots.drop_last()[x], roots.drop_last()[y]]
            0 <= x < y < roots.drop_last().len() implies apart(
            roots.drop_last()[x].0,
            roots.drop_last()[y].0,
        ) by {
            assert(apart(roots[x].0, roots[y].0));
        }
        assert forall|x: int| 0 <= x < roots.drop_last().len() implies indexable(
            (#[trigger] roots.drop_last()[x]).1.children,
        ) by {
            assert(indexable(roots[x].1.children));
        }
    }
    if i < front.len() {
        assert(rows[i] == front[i]);
        lemma_row_root(roots.drop_last(), expanded, cutoff, i)
    } else {
        let own = node_rows(top.1, top.0, 0, expanded, cutoff);
        let r = own[i - front.len()];
        assert(rows[i] == r);
        assert(own.contains(r));
        assert(indexable(roots[roots.len() - 1].1.children));
        lemma_node_rows(top.1, top.0, 0, expanded, cutoff, r);
        let q = choose|q: Seq<usize>| #[trigger]
            in_view(top.1, top.0, q, expanded, cutoff) && r == row_at(
                top.1,
                top.0,
                0,
                q,
                expanded,
                cutoff,
            );
        (roots.len() - 1, q)
    }
}

/// What is in view of a root has a row.
pub proof fn lemma_root_row(
    roots: Seq<Rooted>,
    expanded: Set<Seq<usize>>,
    cutoff: Cutoff,
    k: int,
    q: Seq<usize>,
) -> (i: int)
    requires
        separate(roots),
        0 <= k < roots.len(),
        in_view(roots[k].1, roots[k].0, q, expanded, cutoff),
    ensures
        0 <= i < rows_from(roots, expanded, cutoff).len(),
        rows_from(roots, expanded, cutoff)[i] == row_at(
            roots[k].1,
            roots[k].0,
            0,
            q,
            expanded,
            cutoff,
        ),
    decreases roots.len(),
{
    let rows = rows_from(roots, expanded, cutoff);
    let front = rows_from(roots.drop_last(), expanded, cutoff);
    let r = row_at(roots[k].1, roots[k].0, 0, q, expanded, cutoff);
    if k < roots.len() - 1 {
        assert(separate(roots.drop_last())) by {
            assert forall|x: int, y: int|
                #![trigger roots.drop_last()[x], roots.drop_last()[y]]
                0 <= x < y < roots.drop_last().len() implies apart(
                roots.drop_last()[x].0,
                roots.drop_last()[y].0,
            ) by {
                assert(apart(roots[x].0, roots[y].0));
            }
            assert forall|x: int| 0 <= x < roots.drop_last().len() implies indexable(
                (#[trigger] roots.drop_last()[x]).1.children,
            ) by {
                assert(indexable(roots[x].1.children));
            }
        }
        let i = lemma_root_row(roots.drop_last(), expanded, cutoff, k, q);
        assert(rows[i] == front[i]);
        i
    } else {
        assert(indexable(roots[k].1.children));
        lemma_node_rows(roots[k].1, roots[k].0, 0, expanded, cutoff, r);
        let own = node_rows(roots[k].1, roots[k].0, 0, expanded, cutoff);
        assert(own.contains(r));
        let at = choose|at: int| 0 <= at < own.len() && own[at] == r;
        assert(rows[front.len() + at] == own[at]);
        front.len() + at
    }
}

proof fn lemma_rows_from_untouched(
    roots: Seq<Rooted>,
    a: Set<Seq<usize>>,
    b: Set<Seq<usize>>,
    cutoff: Cutoff,
    p: Seq<usize>,
)
    requires
        agree(a, b, p),
        forall|k: int| 0 <= k < roots.len() ==> apart((#[trigger] roots[k]).0, p),
    ensures
        rows_from(roots, a, cutoff) == rows_from(roots, b, cutoff),
    decreases roots.len(),
{
    if roots.len() > 0 {
        assert forall|k: int| 0 <= k < roots.drop_last().len() implies apart(
            (#[trigger] roots.drop_last()[k]).0,
            p,
        ) by {
            assert(apart(roots[k].0, p));
        }
        lemma_rows_from_untouched(roots.drop_last(), a, b, cutoff, p);
        assert(apart(roots[roots.len() - 1].0, p));
        lemma_node_rows_untouched(roots.last().1, roots.last().0, 0, a, b, cutoff, p);
    }
}

proof fn lemma_rows_from_stable(
    roots: Seq<Rooted>,
    a: Set<Seq<usize>>,
    b: Set<Seq<usize>>,
    cutoff: Cutoff,
    p: Seq<usize>,
    i: int,
)
    requires
        separate(roots),
        agree(a, b, p),
        0 <= i < rows_from(roots, a, cutoff).len(),
        rows_from(roots, a, cutoff)[i].path == p,
    ensures
        i < rows_from(roots, b, cutoff).len(),
        rows_from(roots, b, cutoff)[i].path == p,
        forall|j: int|
            0 <= j < i ==> #[trigger] rows_from(roots, b, cutoff)[j] == rows_from(
                roots,
                a,
                cutoff,
            )[j],
    decreases roots.len(),
{
    let rows = rows_from(roots, a, cutoff);
    let after = rows_from(roots, b, cutoff);
    let init = roots.drop_last();
    let front = rows_from(init, a, cutoff);
    let front2 = rows_from(init, b, cutoff);
    let top = roots.last();
    assert(separate(init)) by {
        assert forall|x: int, y: int|
            #![trigger init[x], init[y]]
            0 <= x < y < init.len() implies apart(init[x].0, init[y].0) by {
            assert(apart(roots[x].0, roots[y].0));
        }
        assert forall|x: int| 0 <= x < init.len() implies indexable(
            (#[trigger] init[x]).1.children,
        ) by {
            assert(indexable(roots[x].1.children));
        }
    }
    if i < front.len() {
        assert(rows[i] == front[i]);
        lemma_rows_from_stable(init, a, b, cutoff, p, i);
        assert forall|j: int| 0 <= j < i implies #[trigger] after[j] == rows[j] by {
            assert(after[j] == front2[j]);
            assert(rows[j] == front[j]);
        }
        assert(after[i] == front2[i]);
    } else {
        let own = node_rows(top.1, top.0, 0, a, cutoff);
        let own2 = node_rows(top.1, top.0, 0, b, cutoff);
        let r = own[i - front.len()];
        assert(rows =~= front + own);
        assert(rows[i] == r);
        assert(own.contains(r));
        assert(indexable(roots[roots.len() - 1].1.children));
        lemma_node_rows(top.1, top.0, 0, a, cutoff, r);
        let q = choose|q: Seq<usize>| #[trigger]
            in_view(top.1, top.0, q, a, cutoff) && r == row_at(top.1, top.0, 0, q, a, cutoff);
        assert(p == top.0 + q);
        assert forall|k: int| 0 <= k < init.len() implies apart((#[trigger] init[k]).0, p) by {
            assert(apart(roots[k].0, roots[roots.len() - 1].0));
            lemma_apart_below(init[k].0, top.0, q);
        }
        lemma_rows_from_untouched(init, a, b, cutoff, p);
        lemma_node_rows_stable(top.1, top.0, 0, a, b, cutoff, p, i - front.len());
        assert(after =~= front2 + own2);
        assert forall|j: int| 0 <= j < i implies #[trigger] after[j] == rows[j] by {
            if j >= front.len() {
                assert(after[j] == own2[j - front.len()]);
                assert(rows[j] == own[j - front.len()]);
            }
        }
    }
}

proof fn lemma_apart_below(x: Seq<usize>, path: Seq<usize>, q: Seq<usize>)
    requires
        apart(x, path),
    ensures
        apart(x, path + q),
    decreases q.len(),
{
    if q.len() == 0 {
        assert(path + q =~= path);
    } else {
        lemma_apart_below(x, path, q.drop_last());
        lemma_apart_push(path + q.drop_last(), q.last(), x);
        assert((path + q.drop_last()).push(q.last()) =~= path + q);
    }
}

proof fn lemma_folded_agree(expanded: Set<Seq<usize>>, p: Seq<usize>)
    ensures
        agree(expanded, cleared(expanded, p), p),
        agree(expanded, cleared(expanded, p).insert(p), p),
        agree(expanded, folded(expanded, p), p),
        forall|q: Seq<usize>| is_below(q, p) ==> !#[trigger] cleared(expanded, p).contains(q),
        forall|q: Seq<usize>| p.is_prefix_of(q) ==> !#[trigger] folded(expanded, p).contains(q),
{
    assert(p =~= p.subrange(0, p.len() as int));
    assert forall|q: Seq<usize>| p.is_prefix_of(q) implies !#[trigger] folded(
        expanded,
        p,
    ).contains(q) by {
        if q.len() == p.len() {
            assert(q =~= p);
        }
    }
}

/// A shown row that lies below another belongs to the same root, and every
/// node between is open.
proof fn lemma_between(
    roots: Seq<Rooted>,
    a: Set<Seq<usize>>,
    b: Set<Seq<usize>>,
    cutoff: Cutoff,
    i: int,
    j: int,
    len: int,
)
    requires
        separate(roots),
        0 <= i < rows_from(roots, a, cutoff).len(),
        0 <= j < rows_from(roots, b, cutoff).len(),
        is_below(rows_from(roots, b, cutoff)[j].path, rows_from(roots, a, cutoff)[i].path),
        rows_from(roots, a, cutoff)[i].path.len() <= len < rows_from(roots, b, cutoff)[j].path.len(),
    ensures
        b.contains(rows_from(roots, b, cutoff)[j].path.take(len)),
{
    let p = rows_from(roots, a, cutoff)[i].path;
    let x = rows_from(roots, b, cutoff)[j].path;
    let (k, q) = lemma_row_root(roots, a, cutoff, i);
    let (m, s) = lemma_row_root(roots, b, cutoff, j);
    let root = roots[k].0;
    let other = roots[m].0;
    assert(p == root + q);
    assert(x == other + s);
    if k != m {
        assert forall|t: int| 0 <= t < root.len() implies root[t] == x[t] by {
            assert(p[t] == x.subrange(0, p.len() as int)[t]);
        }
        if root.len() <= other.len() {
            assert(root =~= other.subrange(0, root.len() as int));
        } else {
            assert(other =~= root.subrange(0, other.len() as int));
        }
        if k < m {
            assert(apart(roots[k].0, roots[m].0));
        } else {
            assert(apart(roots[m].0, roots[k].0));
        }
    }
    lemma_listed_below(roots[m].1, other, s, b, cutoff);
    let t = len - other.len();
    assert(is_open(descendant(roots[m].1, s.take(t))->0, other + s.take(t), b, cutoff));
    assert(other + s.take(t) =~= x.take(len));
}

/// Expanding a row leaves the rows before it and keeps the cursor on it; the
/// row is then expanded, and of what lies below it exactly its immediate
/// children show that do not fall below the cutoff, all collapsed.
pub proof fn law_expand_shows_one_level(app: App)
    requires
        app.cursor < shown_rows(app.subject(), app.state()).len(),
        shown_rows(app.subject(), app.state())[app.cursor as int].has_children,
    ensures
        ({
            let rows = shown_rows(app.subject(), app.state());
            let next = after_expand(app.subject(), app.state());
            let after = shown_rows(app.subject(), next);
            let row = rows[app.cursor as int];
            &&& next.cursor == app.cursor < after.len()
            &&& after[app.cursor as int] == (RowView { expanded: true, ..row })
            &&& forall|j: int| 0 <= j < app.cursor ==> #[trigger] after[j] == rows[j]
            &&& forall|j: int|
                0 <= j < after.len() && is_below((#[trigger] after[j]).path, row.path) ==> {
                    &&& after[j].path.len() == row.path.len() + 1
                    &&& after[j].depth == row.depth + 1
                    &&& !after[j].expanded
                }
            &&& node_at(app.tree@, row.path) is Some
            &&& forall|c: int|
                0 <= c < node_at(app.tree@, row.path)->0.children.len() && !app.cutoff.hides(
                    (#[trigger] node_at(app.tree@, row.path)->0.children[c]).total,
                ) ==> exists|j: int|
                    0 <= j < after.len() && (#[trigger] after[j]).path == row.path.push(c as usize)
        }),
{
    let sub = app.subject();
    let st = app.state();
    let rows = shown_rows(sub, st);
    let next = after_expand(sub, st);
    let after = shown_rows(sub, next);
    let i = app.cursor as int;
    let row = rows[i];
    let p = row.path;
    let roots = view_roots(sub, st.focus, st.filter);
    lemma_indexable(app.tree.roots);
    lemma_view_roots_separate(sub, st.focus, st.filter);
    lemma_shown(sub, st);
    lemma_shown(sub, next);
    lemma_folded_agree(st.expanded, p);
    lemma_rows_from_stable(roots, st.expanded, next.expanded, sub.cutoff, p, i);
    lemma_same_row(roots, st.expanded, next.expanded, sub.cutoff, i, i);
    let (k0, q0) = lemma_row_root(roots, st.expanded, sub.cutoff, i);
    lemma_listed_below(roots[k0].1, roots[k0].0, q0, st.expanded, sub.cutoff);
    lemma_view_root_at(app.tree, app.libs@, sub.cutoff, st.focus, st.filter, k0);
    lemma_node_at_below(sub.nodes, roots[k0].0, q0);
    let n = node_at(sub.nodes, p)->0;
    assert forall|c: int|
        0 <= c < n.children.len() && !sub.cutoff.hides(
            (#[trigger] n.children[c]).total,
        ) implies exists|j: int|
        0 <= j < after.len() && (#[trigger] after[j]).path == p.push(c as usize) by {
        lemma_indexable_at(sub.nodes, p);
        lemma_child_in_view(
            roots[k0].1,
            roots[k0].0,
            q0,
            st.expanded,
            next.expanded,
            sub.cutoff,
            c as usize,
        );
        let j = lemma_root_row(roots, next.expanded, sub.cutoff, k0, q0.push(c as usize));
        assert(roots[k0].0 + q0.push(c as usize) =~= p.push(c as usize));
        assert(after[j].path == p.push(c as usize));
    }
    assert forall|j: int|
        0 <= j < after.len() && is_below((#[trigger] after[j]).path, p) implies after[j].path.len()
        == p.len() + 1 && after[j].depth == row.depth + 1 && !after[j].expanded by {
        let x = after[j].path;
        let len = p.len() as int + 1;
        if x.len() > len {
            lemma_between(roots, st.expanded, next.expanded, sub.cutoff, i, j, len);
            assert(p =~= x.take(len).subrange(0, p.len() as int)) by {
                assert forall|t: int| 0 <= t < p.len() implies p[t] == x[t] by {
                    assert(p[t] == x.subrange(0, p.len() as int)[t]);
                }
            }
            assert(is_below(x.take(len), p));
            assert(x.take(len) != p);
        }
        let (k, q) = lemma_row_root(roots, st.expanded, sub.cutoff, i);
        let (m, s) = lemma_row_root(roots, next.expanded, sub.cutoff, j);
        assert(x == roots[m].0 + s);
        assert(p == roots[k].0 + q);
        assert(after[j].expanded == next.expanded.contains(x));
        assert(x != p);
        if k != m {
            let root = roots[k].0;
            let other = roots[m].0;
            assert forall|t: int| 0 <= t < root.len() implies root[t] == x[t] by {
                assert(p[t] == x.subrange(0, p.len() as int)[t]);
            }
            if root.len() <= other.len() {
                assert(root =~= other.subrange(0, root.len() as int));
            } else {
                assert(other =~= root.subrange(0, other.len() as int));
            }
            if k < m {
                assert(apart(roots[k].0, roots[m].0));
            } else {
                assert(apart(roots[m].0, roots[k].0));
            }
        }
    }
}

/// Rows for the same path tell of the same node, at the same depth.
proof fn lemma_same_row(
    roots: Seq<Rooted>,
    a: Set<Seq<usize>>,
    b: Set<Seq<usize>>,
    cutoff: Cutoff,
    i: int,
    j: int,
)
    requires
        separate(roots),
        0 <= i < rows_from(roots, a, cutoff).len(),
        0 <= j < rows_from(roots, b, cutoff).len(),
        rows_from(roots, a, cutoff)[i].path == rows_from(roots, b, cutoff)[j].path,
    ensures
        rows_from(roots, b, cutoff)[j] == (RowView {
            expanded: b.contains(rows_from(roots, a, cutoff)[i].path),
            ..rows_from(roots, a, cutoff)[i]
        }),
        rows_from(roots, a, cutoff)[i].expanded == a.contains(
            rows_from(roots, a, cutoff)[i].path,
        ),
{
    let p = rows_from(roots, a, cutoff)[i].path;
    let (k, q) = lemma_row_root(roots, a, cutoff, i);
    let (m, s) = lemma_row_root(roots, b, cutoff, j);
    let root = roots[k].0;
    let other = roots[m].0;
    assert(p == root + q && p == other + s);
    if k != m {
        assert forall|t: int| 0 <= t < root.len() && t < other.len() implies root[t]
            == other[t] by {
            assert(p[t] == (root + q)[t]);
            assert(p[t] == (other + s)[t]);
        }
        if root.len() <= other.len() {
            assert(root =~= other.subrange(0, root.len() as int));
        } else {
            assert(other =~= root.subrange(0, other.len() as int));
        }
        if k < m {
            assert(apart(roots[k].0, roots[m].0));
        } else {
            assert(apart(roots[m].0, roots[k].0));
        }
    }
    assert(q =~= (root + q).skip(root.len() as int));
    assert(s =~= (other + s).skip(other.len() as int));
    assert(q == s);
}

/// Collapsing an expanded row leaves the rows before it and keeps the cursor on
/// it; the row is then collapsed, and nothing below it shows.
pub proof fn law_collapse_folds_the_row(app: App)
    requires
        app.cursor < shown_rows(app.subject(), app.state()).len(),
        shown_rows(app.subject(), app.state())[app.cursor as int].expanded,
    ensures
        ({
            let rows = shown_rows(app.subject(), app.state());
            let next = after_collapse(app.subject(), app.state());
            let after = shown_rows(app.subject(), next);
            let row = rows[app.cursor as int];
            &&& next.cursor == app.cursor < after.len()
            &&& after[app.cursor as int] == (RowView { expanded: false, ..row })
            &&& forall|j: int| 0 <= j < app.cursor ==> #[trigger] after[j] == rows[j]
            &&& forall|j: int|
                0 <= j < after.len() ==> !is_below((#[trigger] after[j]).path, row.path)
        }),
{
    let sub = app.subject();
    let st = app.state();
    let rows = shown_rows(sub, st);
    let next = after_collapse(sub, st);
    let after = shown_rows(sub, next);
    let i = app.cursor as int;
    let p = rows[i].path;
    let roots = view_roots(sub, st.focus, st.filter);
    lemma_indexable(app.tree.roots);
    lemma_view_roots_separate(sub, st.focus, st.filter);
    lemma_shown(sub, st);
    lemma_shown(sub, next);
    lemma_folded_agree(st.expanded, p);
    lemma_rows_from_stable(roots, st.expanded, next.expanded, sub.cutoff, p, i);
    lemma_same_row(roots, st.expanded, next.expanded, sub.cutoff, i, i);
    assert(p =~= p.subrange(0, p.len() as int));
    assert forall|j: int| 0 <= j < after.len() implies !is_below((#[trigger] after[j]).path, p) by {
        let x = after[j].path;
        if is_below(x, p) {
            lemma_between(roots, st.expanded, next.expanded, sub.cutoff, i, j, p.len() as int);
            assert(x.take(p.len() as int) =~= p);
        }
    }
}

/// Collapsing a row that is collapsed already, below a row shown above it,
/// collapses its parent and moves the cursor there.
pub proof fn law_collapse_moves_to_the_parent(app: App)
    requires
        app.cursor < shown_rows(app.subject(), app.state()).len(),
        !shown_rows(app.subject(), app.state())[app.cursor as int].expanded,
        shown_rows(app.subject(), app.state())[app.cursor as int].depth > 0,
    ensures
        ({
            let row = shown_rows(app.subject(), app.state())[app.cursor as int];
            let next = after_collapse(app.subject(), app.state());
            let after = shown_rows(app.subject(), next);
            &&& next.cursor < after.len()
            &&& after[next.cursor as int].path == row.path.drop_last()
            &&& after[next.cursor as int].depth == row.depth - 1
            &&& !after[next.cursor as int].expanded
        }),
{
    let sub = app.subject();
    let st = app.state();
    let rows = shown_rows(sub, st);
    let i = app.cursor as int;
    let row = rows[i];
    let parent = row.path.drop_last();
    let roots = view_roots(sub, st.focus, st.filter);
    let next = ViewState { expanded: folded(st.expanded, parent), ..st };
    let after = shown_rows(sub, next);
    lemma_indexable(app.tree.roots);
    lemma_view_roots_separate(sub, st.focus, st.filter);
    lemma_shown(sub, st);
    lemma_shown(sub, next);
    lemma_folded_agree(st.expanded, parent);
    let (k, q) = lemma_row_root(roots, st.expanded, sub.cutoff, i);
    let root = roots[k].0;
    let n = roots[k].1;
    let up = q.drop_last();
    assert(row.path == root + q);
    assert(parent =~= root + up);
    lemma_listed_below(n, root, q, st.expanded, sub.cutoff);
    assert(up =~= q.take(q.len() - 1));
    assert forall|t: int| 0 <= t < up.len() implies is_open(
        descendant(n, #[trigger] up.take(t))->0,
        root + up.take(t),
        next.expanded,
        sub.cutoff,
    ) by {
        assert(up.take(t) =~= q.take(t));
        assert(is_open(descendant(n, q.take(t))->0, root + q.take(t), st.expanded, sub.cutoff));
        assert(!parent.is_prefix_of(root + up.take(t)));
    }
    assert forall|t: int| 1 <= t <= up.len() implies !sub.cutoff.hides(
        descendant(n, #[trigger] up.take(t))->0.total,
    ) by {
        assert(up.take(t) =~= q.take(t));
        assert(!sub.cutoff.hides(descendant(n, q.take(t))->0.total));
    }
    lemma_ancestor(n, q);
    assert(listed_below(n, root, up, next.expanded, sub.cutoff));
    lemma_listed_below(n, root, up, next.expanded, sub.cutoff);
    let at = lemma_root_row(roots, next.expanded, sub.cutoff, k, up);
    assert(after[at].path == parent);
    lemma_first_row(after, parent, at);
    let c = choose|c: int| is_first_row(after, parent, c);
    lemma_same_row(roots, next.expanded, next.expanded, sub.cutoff, at, c);
    assert(parent =~= parent.subrange(0, parent.len() as int));
}

proof fn lemma_ancestor(n: NodeView, q: Seq<usize>)
    requires
        descendant(n, q) is Some,
        q.len() > 0,
    ensures
        descendant(n, q.drop_last()) is Some,
    decreases q.len(),
{
    if q.len() > 1 {
        lemma_ancestor(n.children[q[0] as int], q.drop_first());
        assert(q.drop_last().drop_first() =~= q.drop_first().drop_last());
    }
}

proof fn lemma_first_row(rows: Seq<RowView>, path: Seq<usize>, at: int)
    requires
        0 <= at < rows.len(),
        rows[at].path == path,
    ensures
        exists|i: int| is_first_row(rows, path, i),
    decreases at,
{
    if exists|j: int| 0 <= j < at && (#[trigger] rows[j]).path == path {
        let j = choose|j: int| 0 <= j < at && (#[trigger] rows[j]).path == path;
        lemma_first_row(rows, path, j);
    } else {
        assert(is_first_row(rows, path, at));
    }
}

/// Collapsing undoes expanding: where nothing at or below the row was expanded,
/// everything is then as it was.
pub proof fn law_collapse_undoes_expand(app: App, expanded: App)
    requires
        app.cursor < shown_rows(app.subject(), app.state()).len(),
        shown_rows(app.subject(), app.state())[app.cursor as int].has_children,
        forall|p: Seq<usize>| #[trigger]
            app.expanded@.contains(p)
                ==> !shown_rows(app.subject(), app.state())[app.cursor as int].path.is_prefix_of(p),
        expanded.same_subject(app),
        expanded.state() == after_expand(app.subject(), app.state()),
    ensures
        after_collapse(expanded.subject(), expanded.state()) == app.state(),
{
    law_expand_shows_one_level(app);
    let p = shown_rows(app.subject(), app.state())[app.cursor as int].path;
    assert(p =~= p.subrange(0, p.len() as int));
    assert(folded(expanded.expanded@, p) =~= app.expanded@);
}

/// Focusing re-roots the view, where no filter is set: the first row is the
/// focused node at depth zero, expanded if it has children to show.
pub proof fn law_focus_starts_with_the_node(app: App)
    requires
        app.filter@.len() == 0,
        app.cursor < shown_rows(app.subject(), app.state()).len(),
    ensures
        ({
            let row = shown_rows(app.subject(), app.state())[app.cursor as int];
            let next = after_focus(app.subject(), app.state());
            let after = shown_rows(app.subject(), next);
            &&& next.cursor == 0
            &&& after.len() > 0
            &&& after[0].path == row.path
            &&& after[0].depth == 0
            &&& after[0].frame == row.frame
            &&& after[0].total == row.total
            &&& after[0].self_count == row.self_count
            &&& after[0].has_children == row.has_children
            &&& row.has_children ==> after[0].expanded
        }),
{
    let sub = app.subject();
    let st = app.state();
    let i = app.cursor as int;
    let row = shown_rows(sub, st)[i];
    let roots = view_roots(sub, st.focus, st.filter);
    lemma_indexable(app.tree.roots);
    lemma_view_roots_separate(sub, st.focus, st.filter);
    lemma_shown(sub, st);
    let (k, q) = lemma_row_root(roots, st.expanded, sub.cutoff, i);
    lemma_listed_below(roots[k].1, roots[k].0, q, st.expanded, sub.cutoff);
    lemma_view_root_at(app.tree, app.libs@, sub.cutoff, st.focus, st.filter, k);
    lemma_node_at_below(sub.nodes, roots[k].0, q);
}

/// A root of a view is the node at its path.
pub proof fn lemma_view_root_at(
    tree: CallTree,
    libs: Seq<Library>,
    cutoff: Cutoff,
    focus: Option<Seq<usize>>,
    filter: Seq<char>,
    k: int,
)
    requires
        0 <= k < view_roots(Subject { nodes: tree@, libs, cutoff }, focus, filter).len(),
    ensures
        ({
            let m = view_roots(Subject { nodes: tree@, libs, cutoff }, focus, filter)[k];
            node_at(tree@, m.0) == Some(m.1)
        }),
{
    let sub = Subject { nodes: tree@, libs, cutoff };
    let roots = view_roots(sub, focus, filter);
    let m = roots[k];
    assert(roots.contains(m));
    lemma_indexable(tree.roots);
    if filter.len() == 0 {
        if focus is None {
            lemma_visible_root_at(tree@, tree@.len(), cutoff, k);
        }
    } else {
        let says = |f: FrameView| passes(filter, libs, f);
        match focus {
            None => {
                law_filter_roots_are_the_topmost_matches(tree, cutoff, says, m.0, m.1);
            },
            Some(root) => {
                let q = m.0.skip(root.len() as int);
                law_filter_within_subtree(tree, root, cutoff, says, q, m.1);
                assert(root + q =~= m.0);
                if says(node_at(tree@, root)->0.frame) {
                    assert(m.0 =~= root);
                }
            },
        }
    }
}

/// A child of a node in view is in view once the node is expanded.
pub proof fn lemma_child_in_view(
    n: NodeView,
    path: Seq<usize>,
    q: Seq<usize>,
    a: Set<Seq<usize>>,
    b: Set<Seq<usize>>,
    cutoff: Cutoff,
    c: usize,
)
    requires
        in_view(n, path, q, a, cutoff),
        agree(a, b, path + q),
        b.contains(path + q),
        has_visible_child(descendant(n, q)->0, cutoff),
        c < descendant(n, q)->0.children.len(),
        !cutoff.hides(descendant(n, q)->0.children[c as int].total),
    ensures
        in_view(n, path, q.push(c), b, cutoff),
    decreases q.len(),
{
    if q.len() == 0 {
        assert(path + q =~= path);
        assert(q.push(c).drop_first() =~= Seq::empty());
        assert(in_view(n.children[c as int], path.push(c), Seq::empty(), b, cutoff));
    } else {
        let child = n.children[q[0] as int];
        assert(path.push(q[0]) + q.drop_first() =~= path + q);
        assert(q.push(c).drop_first() =~= q.drop_first().push(c));
        assert(!(path + q).is_prefix_of(path));
        assert(a.contains(path) <==> b.contains(path));
        lemma_in_view_node(n, path, q, a, cutoff);
        lemma_child_in_view(child, path.push(q[0]), q.drop_first(), a, b, cutoff, c);
    }
}

proof fn lemma_visible_root_at(nodes: Seq<NodeView>, n: nat, cutoff: Cutoff, k: int)
    requires
        indexable(nodes),
        n <= nodes.len(),
        0 <= k < visible_roots(nodes, n, cutoff).len(),
    ensures
        node_at(nodes, visible_roots(nodes, n, cutoff)[k].0) == Some(
            visible_roots(nodes, n, cutoff)[k].1,
        ),
        !cutoff.hides(visible_roots(nodes, n, cutoff)[k].1.total),
    decreases n,
{
    let front = visible_roots(nodes, (n - 1) as nat, cutoff);
    if k < front.len() {
        lemma_visible_root_at(nodes, (n - 1) as nat, cutoff, k);
    }
}

/// Whether a row is that of the node at `q` below the `m`th of some nodes, listed
/// with it, and as deep as it lies below it.
pub open spec fn hangs_below(
    roots: Seq<(Seq<usize>, NodeView)>,
    expanded: Set<Seq<usize>>,
    cutoff: Cutoff,
    m: int,
    q: Seq<usize>,
    r: RowView,
) -> bool {
    &&& 0 <= m < roots.len()
    &&& listed_below(roots[m].1, roots[m].0, q, expanded, cutoff)
    &&& r == row_at(roots[m].1, roots[m].0, 0, q, expanded, cutoff)
}

/// With a filter, the rows are those of the nodes listed with the topmost
/// matches, and no others: a match at depth zero, and what lies below it as deep
/// as it lies there.
pub proof fn law_filtered_rows_hang_below_matches(app: App, r: RowView)
    requires
        app.filter@.len() > 0,
    ensures
        ({
            let roots = match_roots(
                app.tree@,
                app.state().focus,
                app.cutoff,
                |f: FrameView| passes(app.filter@, app.libs@, f),
            );
            shown_rows(app.subject(), app.state()).contains(r) <==> exists|m: int, q: Seq<usize>|
                #[trigger] hangs_below(roots, app.expanded@, app.cutoff, m, q, r)
        }),
{
    let sub = app.subject();
    let st = app.state();
    let roots = view_roots(sub, st.focus, st.filter);
    lemma_indexable(app.tree.roots);
    lemma_view_roots_separate(sub, st.focus, st.filter);
    lemma_shown(sub, st);
    let rows = shown_rows(sub, st);
    if rows.contains(r) {
        let i = choose|i: int| 0 <= i < rows.len() && rows[i] == r;
        let (m, q) = lemma_row_root(roots, st.expanded, sub.cutoff, i);
        lemma_listed_below(roots[m].1, roots[m].0, q, st.expanded, sub.cutoff);
        assert(hangs_below(roots, st.expanded, sub.cutoff, m, q, r));
    }
    if exists|m: int, q: Seq<usize>| #[trigger]
        hangs_below(roots, st.expanded, sub.cutoff, m, q, r) {
        let (m, q) = choose|m: int, q: Seq<usize>| #[trigger]
            hangs_below(roots, st.expanded, sub.cutoff, m, q, r);
        lemma_listed_below(roots[m].1, roots[m].0, q, st.expanded, sub.cutoff);
        let i = lemma_root_row(roots, st.expanded, sub.cutoff, m, q);
        assert(rows[i] == r);
    }
}

proof fn lemma_topmost_shown(
    nodes: Seq<NodeView>,
    k: nat,
    prefix: Seq<usize>,
    cutoff: Cutoff,
    says: spec_fn(FrameView) -> bool,
)
    requires
        k <= nodes.len(),
    ensures
        forall|i: int|
            0 <= i < topmost(nodes, k, prefix, cutoff, says).len() ==> !cutoff.hides(
                (#[trigger] topmost(nodes, k, prefix, cutoff, says)[i]).1.total,
            ),
    decreases nodes, k,
{
    if k > 0 {
        let n = nodes[k - 1];
        let path = prefix.push((k - 1) as usize);
        lemma_topmost_shown(nodes, (k - 1) as nat, prefix, cutoff, says);
        lemma_topmost_shown(n.children, n.children.len(), path, cutoff, says);
    }
}

/// What falls below the cutoff is hidden: only the node that the view is focused
/// on is shown whatever its weight.
pub proof fn law_what_falls_below_the_cutoff_is_hidden(app: App, i: int)
    requires
        0 <= i < shown_rows(app.subject(), app.state()).len(),
        app.cutoff.hides(shown_rows(app.subject(), app.state())[i].total),
    ensures
        app.state().focus == Some(shown_rows(app.subject(), app.state())[i].path),
{
    let sub = app.subject();
    let st = app.state();
    let roots = view_roots(sub, st.focus, st.filter);
    lemma_indexable(app.tree.roots);
    lemma_view_roots_separate(sub, st.focus, st.filter);
    lemma_shown(sub, st);
    let (m, q) = lemma_row_root(roots, st.expanded, sub.cutoff, i);
    lemma_listed_below(roots[m].1, roots[m].0, q, st.expanded, sub.cutoff);
    if q.len() > 0 {
        assert(q.take(q.len() as int) =~= q);
        assert(!sub.cutoff.hides(descendant(roots[m].1, q.take(q.len() as int))->0.total));
    } else {
        assert(roots[m].0 + q =~= roots[m].0);
        if st.filter.len() == 0 {
            if st.focus is None {
                lemma_visible_root_at(sub.nodes, sub.nodes.len(), sub.cutoff, m);
            }
        } else {
            let filter = st.filter;
            let says = |f: FrameView| passes(filter, sub.libs, f);
            assert(roots == match_roots(sub.nodes, st.focus, sub.cutoff, says));
            match st.focus {
                None => {
                    lemma_topmost_shown(sub.nodes, sub.nodes.len(), Seq::empty(), sub.cutoff, says);
                },
                Some(root) => {
                    if let Some(n) = node_at(sub.nodes, root) {
                        if !says(n.frame) {
                            lemma_topmost_shown(
                                n.children,
                                n.children.len(),
                                root,
                                sub.cutoff,
                                says,
                            );
                        }
                    }
                },
            }
        }
    }
}

/// Clearing the focus shows the whole tree again, where no filter is set.
pub proof fn law_unfocus_shows_the_tree(app: App)
    requires
        app.filter@.len() == 0,
    ensures
        shown_rows(app.subject(), after_unfocus(app.state())) == tree_rows(
            app.tree@,
            app.expanded@,
            app.cutoff,
        ),
{
}

} // verus!
