//! The visible rows of a call tree.

use vstd::prelude::*;

use crate::cutoff::Cutoff;
use crate::paths::{copy_path, PathSet};
use crate::tree::{
    forest, lemma_node_view, node_at, CallTree, FrameKey, FrameView, NodePath, NodeView, TreeNode,
};

verus! {

/// One line of the displayed tree.
#[derive(Debug)]
pub struct VisibleRow {
    pub path: NodePath,
    pub depth: usize,
    pub frame: FrameKey,
    pub total: u64,
    pub self_count: u64,
    pub has_children: bool,
    pub expanded: bool,
}

/// What a [`VisibleRow`] stands for.
pub struct RowView {
    pub path: Seq<usize>,
    pub depth: nat,
    pub frame: FrameView,
    pub total: nat,
    pub self_count: nat,
    pub has_children: bool,
    pub expanded: bool,
}

impl View for VisibleRow {
    type V = RowView;

    open spec fn view(&self) -> RowView {
        RowView {
            path: self.path@,
            depth: self.depth as nat,
            frame: self.frame@,
            total: self.total as nat,
            self_count: self.self_count as nat,
            has_children: self.has_children,
            expanded: self.expanded,
        }
    }
}

/// The rows of a list, each by its view.
pub open spec fn row_views(rows: Seq<VisibleRow>) -> Seq<RowView> {
    Seq::new(rows.len(), |i: int| rows[i]@)
}

/// Whether a node has a child that reaches the cutoff.
pub open spec fn has_visible_child(n: NodeView, cutoff: Cutoff) -> bool {
    exists|i: int| 0 <= i < n.children.len() && cutoff.admits((#[trigger] n.children[i]).total)
}

/// The row of a node.
pub open spec fn row_of(
    n: NodeView,
    path: Seq<usize>,
    depth: nat,
    expanded: Set<Seq<usize>>,
    cutoff: Cutoff,
) -> RowView {
    RowView {
        path,
        depth,
        frame: n.frame,
        total: n.total,
        self_count: n.self_count,
        has_children: has_visible_child(n, cutoff),
        expanded: expanded.contains(path),
    }
}

/// Whether the children of a node are listed below it.
pub open spec fn is_open(
    n: NodeView,
    path: Seq<usize>,
    expanded: Set<Seq<usize>>,
    cutoff: Cutoff,
) -> bool {
    expanded.contains(path) && has_visible_child(n, cutoff)
}

/// The rows of a node and, where it is open, of what lies below it.
pub open spec fn node_rows(
    n: NodeView,
    path: Seq<usize>,
    depth: nat,
    expanded: Set<Seq<usize>>,
    cutoff: Cutoff,
) -> Seq<RowView>
    decreases n, 0nat,
{
    seq![row_of(n, path, depth, expanded, cutoff)] + if is_open(n, path, expanded, cutoff) {
        forest_rows(n.children, n.children.len(), path, depth + 1, expanded, cutoff)
    } else {
        Seq::empty()
    }
}

/// The rows of the first `k` of sibling nodes and of what lies below them,
/// leaving out what falls below the cutoff.
pub open spec fn forest_rows(
    nodes: Seq<NodeView>,
    k: nat,
    prefix: Seq<usize>,
    depth: nat,
    expanded: Set<Seq<usize>>,
    cutoff: Cutoff,
) -> Seq<RowView>
    decreases nodes, k,
{
    if k == 0 || k > nodes.len() {
        Seq::empty()
    } else {
        let n = nodes[k - 1];
        forest_rows(nodes, (k - 1) as nat, prefix, depth, expanded, cutoff) + if cutoff.hides(
            n.total,
        ) {
            Seq::empty()
        } else {
            node_rows(n, prefix.push((k - 1) as usize), depth, expanded, cutoff)
        }
    }
}

/// The rows of a whole tree.
pub open spec fn tree_rows(
    nodes: Seq<NodeView>,
    expanded: Set<Seq<usize>>,
    cutoff: Cutoff,
) -> Seq<RowView> {
    forest_rows(nodes, nodes.len(), Seq::empty(), 0, expanded, cutoff)
}

/// The rows of the subtree at a path, with its root at depth zero and shown
/// whatever its weight; none where the path leads nowhere.
pub open spec fn rooted_rows(
    nodes: Seq<NodeView>,
    root: Seq<usize>,
    expanded: Set<Seq<usize>>,
    cutoff: Cutoff,
) -> Seq<RowView> {
    match node_at(nodes, root) {
        Some(n) => node_rows(n, root, 0, expanded, cutoff),
        None => Seq::empty(),
    }
}

fn visible_child_count(node: &TreeNode, cutoff: &Cutoff) -> (r: usize)
    ensures
        r > 0 <==> has_visible_child(node@, *cutoff),
        r == node@.children.filter(|c: NodeView| cutoff.admits(c.total)).len(),
{
    proof {
        lemma_node_view(*node);
    }
    let ghost admitted = |c: NodeView| cutoff.admits(c.total);
    let ghost children = node@.children;
    let mut count: usize = 0;
    let mut i: usize = 0;
    proof {
        reveal(Seq::filter);
        assert(children.take(0) =~= Seq::empty());
    }
    while i < node.children.len()
        invariant
            i <= node.children@.len(),
            children == forest(node.children@),
            admitted == (|c: NodeView| cutoff.admits(c.total)),
            count == children.take(i as int).filter(admitted).len(),
            count <= i,
            count > 0 <==> exists|k: int| 0 <= k < i && admitted(#[trigger] children[k]),
        decreases node.children@.len() - i,
    {
        proof {
            reveal(Seq::filter);
            lemma_node_view(node.children@[i as int]);
            assert(children.take(i + 1).drop_last() =~= children.take(i as int));
            assert(children.take(i + 1).last() == children[i as int]);
        }
        if cutoff.is_reached(node.children[i].total) {
            count = count + 1;
            assert(admitted(children[i as int]));
        }
        i = i + 1;
    }
    assert(children.take(i as int) =~= children);
    proof {
        if count > 0 {
            let k = choose|k: int| 0 <= k < i && admitted(#[trigger] children[k]);
            assert(cutoff.admits(node@.children[k].total));
        }
    }
    count
}

fn push_subtree(
    node: &TreeNode,
    path: NodePath,
    depth: usize,
    expanded: &PathSet,
    cutoff: &Cutoff,
    force: bool,
    rows: &mut Vec<VisibleRow>,
)
    requires
        depth < path@.len(),
    ensures
        row_views(final(rows)@) == row_views(old(rows)@) + if !force && cutoff.hides(node@.total) {
            Seq::empty()
        } else {
            node_rows(node@, path@, depth as nat, expanded@, *cutoff)
        },
    decreases node, 0nat,
{
    proof {
        lemma_node_view(*node);
    }
    if !force && cutoff.is_below(node.total) {
        assert(row_views(rows@) =~= row_views(rows@) + Seq::<RowView>::empty());
        return ;
    }
    let is_expanded: bool = expanded.contains(path.as_slice());
    let has_children: bool = visible_child_count(node, cutoff) > 0;
    let ghost start = row_views(rows@);
    rows.push(
        VisibleRow {
            path: copy_path(path.as_slice()),
            depth,
            frame: node.frame.clone(),
            total: node.total,
            self_count: node.self_count,
            has_children,
            expanded: is_expanded,
        },
    );
    let ghost row = row_of(node@, path@, depth as nat, expanded@, *cutoff);
    assert(row_views(rows@) =~= start + seq![row]);
    if is_expanded && has_children {
        assert(depth < path.len());
        walk_forest(&node.children, path.as_slice(), depth + 1, expanded, cutoff, rows);
        assert(row_views(rows@) =~= start + node_rows(
            node@,
            path@,
            depth as nat,
            expanded@,
            *cutoff,
        ));
    } else {
        assert(row_views(rows@) =~= start + node_rows(
            node@,
            path@,
            depth as nat,
            expanded@,
            *cutoff,
        ));
    }
}

fn walk_forest(
    children: &Vec<TreeNode>,
    prefix: &[usize],
    depth: usize,
    expanded: &PathSet,
    cutoff: &Cutoff,
    rows: &mut Vec<VisibleRow>,
)
    requires
        depth <= prefix@.len(),
    ensures
        row_views(final(rows)@) == row_views(old(rows)@) + forest_rows(
            forest(children@),
            children@.len(),
            prefix@,
            depth as nat,
            expanded@,
            *cutoff,
        ),
    decreases children, 1nat,
{
    let ghost nodes = forest(children@);
    let ghost start = row_views(rows@);
    let mut i: usize = 0;
    assert(start =~= start + forest_rows(nodes, 0, prefix@, depth as nat, expanded@, *cutoff));
    while i < children.len()
        invariant
            i <= children@.len(),
            depth <= prefix@.len(),
            nodes == forest(children@),
            row_views(rows@) == start + forest_rows(
                nodes,
                i as nat,
                prefix@,
                depth as nat,
                expanded@,
                *cutoff,
            ),
        decreases children@.len() - i,
    {
        let node = &children[i];
        proof {
            lemma_node_view(*node);
        }
        if !cutoff.is_below(node.total) {
            let mut path = copy_path(prefix);
            path.push(i);
            assert(path@ =~= prefix@.push(i));
            push_subtree(node, path, depth, expanded, cutoff, false, rows);
        }
        assert(row_views(rows@) =~= start + forest_rows(
            nodes,
            (i + 1) as nat,
            prefix@,
            depth as nat,
            expanded@,
            *cutoff,
        ));
        i = i + 1;
    }
}

impl CallTree {
    /// The visible rows of the whole tree.
    pub fn flatten(&self, expanded: &PathSet, cutoff: &Cutoff) -> (r: Vec<VisibleRow>)
        ensures
            row_views(r@) == tree_rows(self@, expanded@, *cutoff),
    {
        let mut rows: Vec<VisibleRow> = Vec::new();
        let prefix: Vec<usize> = Vec::new();
        walk_forest(&self.roots, prefix.as_slice(), 0, expanded, cutoff, &mut rows);
        assert(prefix@ =~= Seq::empty());
        assert(row_views(rows@) =~= tree_rows(self@, expanded@, *cutoff));
        rows
    }

    /// The visible rows of a single subtree, re-rooted at visual depth zero.
    /// The root itself is always shown, even if below the cutoff.
    pub fn flatten_rooted(&self, root: &NodePath, expanded: &PathSet, cutoff: &Cutoff) -> (r: Vec<
        VisibleRow,
    >)
        ensures
            row_views(r@) == rooted_rows(self@, root@, expanded@, *cutoff),
    {
        let mut rows: Vec<VisibleRow> = Vec::new();
        match self.get(root.as_slice()) {
            Some(node) => {
                push_subtree(
                    node,
                    copy_path(root.as_slice()),
                    0,
                    expanded,
                    cutoff,
                    true,
                    &mut rows,
                );
            },
            None => {},
        }
        assert(row_views(rows@) =~= rooted_rows(self@, root@, expanded@, *cutoff));
        rows
    }
}

/// Whether `says` is what the test answers for every frame.
pub open spec fn decides<F: Fn(&FrameKey) -> bool>(
    test: F,
    says: spec_fn(FrameView) -> bool,
) -> bool {
    forall|k: &FrameKey, b: bool| #[trigger] call_ensures(test, (k,), b) ==> b == says(k@)
}

/// The topmost matching nodes among the first `k` of sibling nodes and what
/// lies below them: a match below another match is left out, and so is what
/// falls below the cutoff.
pub open spec fn topmost(
    nodes: Seq<NodeView>,
    k: nat,
    prefix: Seq<usize>,
    cutoff: Cutoff,
    says: spec_fn(FrameView) -> bool,
) -> Seq<(Seq<usize>, NodeView)>
    decreases nodes, k,
{
    if k == 0 || k > nodes.len() {
        Seq::empty()
    } else {
        let n = nodes[k - 1];
        let path = prefix.push((k - 1) as usize);
        topmost(nodes, (k - 1) as nat, prefix, cutoff, says) + if cutoff.hides(n.total) {
            Seq::empty()
        } else if says(n.frame) {
            seq![(path, n)]
        } else {
            topmost(n.children, n.children.len(), path, cutoff, says)
        }
    }
}

/// The nodes that a filtered view is rooted at: the topmost matches of the
/// tree, or of the subtree at `within`, whose own root counts whatever its
/// weight.
pub open spec fn match_roots(
    nodes: Seq<NodeView>,
    within: Option<Seq<usize>>,
    cutoff: Cutoff,
    says: spec_fn(FrameView) -> bool,
) -> Seq<(Seq<usize>, NodeView)> {
    match within {
        None => topmost(nodes, nodes.len(), Seq::empty(), cutoff, says),
        Some(root) => match node_at(nodes, root) {
            None => Seq::empty(),
            Some(n) => if says(n.frame) {
                seq![(root, n)]
            } else {
                topmost(n.children, n.children.len(), root, cutoff, says)
            },
        },
    }
}

/// The rows of the subtrees at the given nodes, each re-rooted at depth zero.
pub open spec fn rows_from(
    roots: Seq<(Seq<usize>, NodeView)>,
    expanded: Set<Seq<usize>>,
    cutoff: Cutoff,
) -> Seq<RowView>
    decreases roots.len(),
{
    if roots.len() == 0 {
        Seq::empty()
    } else {
        rows_from(roots.drop_last(), expanded, cutoff) + node_rows(
            roots.last().1,
            roots.last().0,
            0,
            expanded,
            cutoff,
        )
    }
}

/// The rows of a filtered view.
pub open spec fn filtered_rows(
    nodes: Seq<NodeView>,
    expanded: Set<Seq<usize>>,
    within: Option<Seq<usize>>,
    cutoff: Cutoff,
    says: spec_fn(FrameView) -> bool,
) -> Seq<RowView> {
    rows_from(match_roots(nodes, within, cutoff, says), expanded, cutoff)
}

/// Found nodes, each by its view.
spec fn found_views(found: Seq<(NodePath, &TreeNode)>) -> Seq<(Seq<usize>, NodeView)> {
    Seq::new(found.len(), |i: int| (found[i].0@, found[i].1@))
}

fn find_topmost_matches<'a, F: Fn(&FrameKey) -> bool>(
    children: &'a Vec<TreeNode>,
    prefix: &[usize],
    is_match: &F,
    cutoff: &Cutoff,
    out: &mut Vec<(NodePath, &'a TreeNode)>,
)
    requires
        forall|k: &FrameKey| #[trigger] call_requires(*is_match, (k,)),
        forall|i: int| 0 <= i < old(out)@.len() ==> (#[trigger] old(out)@[i]).0@.len() > 0,
    ensures
        forall|i: int| 0 <= i < final(out)@.len() ==> (#[trigger] final(out)@[i]).0@.len() > 0,
        forall|says: spec_fn(FrameView) -> bool| #[trigger]
            decides(*is_match, says) ==> found_views(final(out)@) == found_views(old(out)@)
                + topmost(forest(children@), children@.len(), prefix@, *cutoff, says),
    decreases children,
{
    let ghost nodes = forest(children@);
    let ghost start = found_views(out@);
    let mut i: usize = 0;
    assert(forall|says: spec_fn(FrameView) -> bool| #[trigger]
        decides(*is_match, says) ==> start =~= start + topmost(nodes, 0, prefix@, *cutoff, says));
    while i < children.len()
        invariant
            i <= children@.len(),
            nodes == forest(children@),
            forall|k: &FrameKey| #[trigger] call_requires(*is_match, (k,)),
            forall|i: int| 0 <= i < out@.len() ==> (#[trigger] out@[i]).0@.len() > 0,
            forall|says: spec_fn(FrameView) -> bool| #[trigger]
                decides(*is_match, says) ==> found_views(out@) == start + topmost(
                    nodes,
                    i as nat,
                    prefix@,
                    *cutoff,
                    says,
                ),
        decreases children@.len() - i,
    {
        let node = &children[i];
        proof {
            lemma_node_view(*node);
        }
        let ghost before = found_views(out@);
        if !cutoff.is_below(node.total) {
            let mut path = copy_path(prefix);
            path.push(i);
            assert(path@ =~= prefix@.push(i));
            if is_match(&node.frame) {
                let ghost p = path@;
                out.push((path, node));
                assert(found_views(out@) =~= before + seq![(p, node@)]);
            } else {
                find_topmost_matches(&node.children, path.as_slice(), is_match, cutoff, out);
            }
        }
        proof {
            assert forall|says: spec_fn(FrameView) -> bool| #[trigger]
                decides(*is_match, says) implies found_views(out@) == start + topmost(
                nodes,
                (i + 1) as nat,
                prefix@,
                *cutoff,
                says,
            ) by {
                assert(before == start + topmost(nodes, i as nat, prefix@, *cutoff, says));
                assert(found_views(out@) =~= start + topmost(
                    nodes,
                    (i + 1) as nat,
                    prefix@,
                    *cutoff,
                    says,
                ));
            }
        }
        i = i + 1;
    }
}

/// An optional path by its view.
pub open spec fn path_of(p: Option<&NodePath>) -> Option<Seq<usize>> {
    match p {
        Some(v) => Some(v@),
        None => None,
    }
}

impl CallTree {
    /// The visible rows with matching nodes re-rooted at visual depth zero.
    ///
    /// Only topmost matches become roots (a match under another match is shown
    /// by expanding the ancestor, not as its own root). Children keep relative
    /// indentation from that root.
    ///
    /// When `within` is set, only that subtree is searched; paths stay absolute.
    pub fn flatten_filtered<F: Fn(&FrameKey) -> bool>(
        &self,
        expanded: &PathSet,
        within: Option<&NodePath>,
        cutoff: &Cutoff,
        is_match: F,
    ) -> (r: Vec<VisibleRow>)
        requires
            forall|k: &FrameKey| #[trigger] call_requires(is_match, (k,)),
        ensures
            forall|says: spec_fn(FrameView) -> bool| #[trigger]
                decides(is_match, says) ==> row_views(r@) == filtered_rows(
                    self@,
                    expanded@,
                    path_of(within),
                    *cutoff,
                    says,
                ),
    {
        let mut found: Vec<(NodePath, &TreeNode)> = Vec::new();
        assert(found_views(found@) =~= Seq::empty());
        match within {
            Some(root) => {
                match self.get(root.as_slice()) {
                    None => {},
                    Some(node) => {
                        proof {
                            lemma_node_view(*node);
                        }
                        if is_match(&node.frame) {
                            found.push((copy_path(root.as_slice()), node));
                            assert(found_views(found@) =~= seq![(root@, node@)]);
                        } else {
                            find_topmost_matches(
                                &node.children,
                                root.as_slice(),
                                &is_match,
                                cutoff,
                                &mut found,
                            );
                        }
                    },
                }
            },
            None => {
                let prefix: Vec<usize> = Vec::new();
                find_topmost_matches(
                    &self.roots,
                    prefix.as_slice(),
                    &is_match,
                    cutoff,
                    &mut found,
                );
                assert(prefix@ =~= Seq::empty());
            },
        }
        let ghost roots = found_views(found@);
        proof {
            assert forall|says: spec_fn(FrameView) -> bool| #[trigger]
                decides(is_match, says) implies roots == match_roots(
                self@,
                path_of(within),
                *cutoff,
                says,
            ) by {
                assert(roots =~= match_roots(self@, path_of(within), *cutoff, says));
            }
        }
        let mut rows: Vec<VisibleRow> = Vec::new();
        let mut i: usize = 0;
        assert(row_views(rows@) =~= rows_from(roots.take(0), expanded@, *cutoff));
        while i < found.len()
            invariant
                i <= found@.len(),
                roots == found_views(found@),
                forall|i: int| 0 <= i < found@.len() ==> (#[trigger] found@[i]).0@.len() > 0,
                row_views(rows@) == rows_from(roots.take(i as int), expanded@, *cutoff),
            decreases found@.len() - i,
        {
            let path = copy_path(found[i].0.as_slice());
            push_subtree(found[i].1, path, 0, expanded, cutoff, true, &mut rows);
            proof {
                assert(roots.take(i + 1).drop_last() =~= roots.take(i as int));
                assert(roots.take(i + 1).last() == roots[i as int]);
            }
            i = i + 1;
        }
        assert(roots.take(i as int) =~= roots);
        rows
    }
}

} // verus!
