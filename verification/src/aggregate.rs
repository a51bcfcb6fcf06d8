//! Aggregating weighted call paths into a call tree.

use vstd::prelude::*;

use crate::forest::{
    added, added_forest, balanced, counts_after, counts_at, distinct, fresh, has_frame,
    lemma_added_counts, lemma_added_keeps, lemma_rearranged, lemma_slot, ordered, room, slot,
    total_of,
};
use crate::order::{merge_sort, Ranked};
use crate::tree::{forest, heavier, lemma_node_view, FrameKey, FrameView, NodeView, TreeNode};

verus! {

/// A node while paths are still being added; its children stand in the order
/// in which they were first met.
pub struct BuildNode {
    frame: FrameKey,
    total: u64,
    self_count: u64,
    children: Vec<BuildNode>,
}

impl BuildNode {
    /// The node as one of a finished tree, its children not yet in order.
    pub closed spec fn node_view(self) -> NodeView
        decreases self,
    {
        NodeView {
            frame: self.frame@,
            total: self.total as nat,
            self_count: self.self_count as nat,
            children: Seq::new(
                self.children@.len(),
                |i: int|
                    if 0 <= i < self.children@.len() {
                        self.children@[i].node_view()
                    } else {
                        arbitrary()
                    },
            ),
        }
    }
}

impl View for BuildNode {
    type V = NodeView;

    open spec fn view(&self) -> NodeView {
        self.node_view()
    }
}

/// The nodes of a list, each by its view.
pub open spec fn growing(nodes: Seq<BuildNode>) -> Seq<NodeView> {
    Seq::new(nodes.len(), |i: int| nodes[i]@)
}

/// The frames of a path, each by its view.
pub open spec fn keys_of(path: Seq<FrameKey>) -> Seq<FrameView> {
    Seq::new(path.len(), |i: int| path[i]@)
}

proof fn lemma_build_view(n: BuildNode)
    ensures
        n@.frame == n.frame@,
        n@.total == n.total,
        n@.self_count == n.self_count,
        n@.children == growing(n.children@),
{
    assert(n@.children =~= growing(n.children@));
}

impl BuildNode {
    /// A node that nothing was counted for yet.
    pub fn new(frame: FrameKey) -> (r: Self)
        ensures
            r@ == fresh(frame@),
    {
        let r = BuildNode { frame, total: 0, self_count: 0, children: Vec::new() };
        proof {
            lemma_build_view(r);
            assert(r@.children =~= Seq::empty());
        }
        r
    }

    /// The finished node: what it counts stays, and siblings below it are put
    /// in order.
    pub fn into_tree_node(self) -> (r: TreeNode)
        requires
            distinct(self@.children),
        ensures
            r@.frame == self@.frame,
            r@.total == self@.total,
            r@.self_count == self@.self_count,
            forall|q: Seq<FrameView>| #[trigger]
                counts_at(r@.children, q) == counts_at(self@.children, q),
            total_of(r@.children) == total_of(self@.children),
            distinct(r@.children),
            balanced(self@.children) ==> balanced(r@.children),
            ordered(r@.children),
        decreases self, 0nat,
    {
        proof {
            lemma_build_view(self);
        }
        let children = finish(self.children);
        let r = TreeNode {
            frame: self.frame,
            total: self.total,
            self_count: self.self_count,
            children,
        };
        proof {
            lemma_node_view(r);
        }
        r
    }
}

/// Finishes sibling nodes and puts them in order.
pub(crate) fn finish(siblings: Vec<BuildNode>) -> (r: Vec<TreeNode>)
    requires
        distinct(growing(siblings@)),
    ensures
        forall|q: Seq<FrameView>| #[trigger]
            counts_at(forest(r@), q) == counts_at(growing(siblings@), q),
        total_of(forest(r@)) == total_of(growing(siblings@)),
        distinct(forest(r@)),
        balanced(growing(siblings@)) ==> balanced(forest(r@)),
        ordered(forest(r@)),
    decreases siblings@, 1nat,
{
    let mut nodes = siblings;
    let ghost whole = nodes@;
    let ghost all = growing(siblings@);
    let mut done: Vec<TreeNode> = Vec::with_capacity(nodes.len());
    while nodes.len() > 0
        invariant
            whole == siblings@,
            all == growing(whole),
            distinct(all),
            nodes@ == whole.take(nodes@.len() as int),
            nodes@.len() + done@.len() == whole.len(),
            forall|k: int|
                0 <= k < done@.len() ==> alike((#[trigger] done@[k])@, all[whole.len() - 1 - k]),
        decreases nodes@.len(),
    {
        match nodes.pop() {
            Some(n) => {
                proof {
                    let at = nodes@.len() as int;
                    assert(n == whole[at]);
                    assert(all[at] == n@);
                    assert(distinct(all[at].children));
                    assert(decreases_to!(whole => whole[at]));
                }
                let d = n.into_tree_node();
                done.push(d);
            },
            None => {},
        }
    }
    let r = merge_sort(done);
    proof {
        lemma_alike(done@, all);
        lemma_rearranged(done@, r@);
        let fr = forest(r@);
        assert forall|i: int, j: int|
            #![trigger fr[i], fr[j]]
            0 <= i < j < fr.len() implies heavier(fr[i], fr[j]) by {
            assert(r@[i].ranks(&r@[j]));
        }
        assert forall|i: int| 0 <= i < fr.len() implies ordered((#[trigger] fr[i]).children) by {
            assert(r@.contains(r@[i]));
            let k = choose|k: int| 0 <= k < done@.len() && done@[k] == r@[i];
            assert(alike(done@[k]@, all[whole.len() - 1 - k]));
        }
    }
    r
}

/// Whether `b` is `a` with the siblings below it put in order.
spec fn alike(b: NodeView, a: NodeView) -> bool {
    &&& b.frame == a.frame
    &&& b.total == a.total
    &&& b.self_count == a.self_count
    &&& forall|q: Seq<FrameView>| #[trigger]
        counts_at(b.children, q) == counts_at(a.children, q)
    &&& total_of(b.children) == total_of(a.children)
    &&& distinct(b.children)
    &&& balanced(a.children) ==> balanced(b.children)
    &&& ordered(b.children)
}

/// What finishing siblings one by one, last first, keeps.
proof fn lemma_alike(done: Seq<TreeNode>, all: Seq<NodeView>)
    requires
        distinct(all),
        done.len() == all.len(),
        forall|k: int|
            0 <= k < done.len() ==> alike((#[trigger] done[k])@, all[all.len() - 1 - k]),
    ensures
        distinct(forest(done)),
        forall|q: Seq<FrameView>| #[trigger] counts_at(forest(done), q) == counts_at(all, q),
        total_of(forest(done)) == total_of(all),
        balanced(all) ==> balanced(forest(done)),
{
    let fd = forest(done);
    let n = all.len() as int;
    assert forall|i: int| 0 <= i < n implies alike(#[trigger] fd[i], all[n - 1 - i]) by {
        assert(alike(done[i]@, all[n - 1 - i]));
    }
    assert forall|i: int, j: int|
        #![trigger fd[i], fd[j]]
        0 <= i < j < fd.len() implies fd[i].frame != fd[j].frame by {
        assert(all[n - 1 - j].frame != all[n - 1 - i].frame);
    }
    assert(distinct(fd));
    assert forall|q: Seq<FrameView>| #[trigger] counts_at(fd, q) == counts_at(all, q) by {
        if q.len() > 0 {
            if has_frame(all, q[0]) {
                let a = slot(all, q[0]);
                assert(all[a].frame == q[0]);
                lemma_slot(all, a);
                assert(fd[n - 1 - a].frame == q[0]);
                lemma_slot(fd, n - 1 - a);
                assert(alike(fd[n - 1 - a], all[a]));
                if q.len() > 1 {
                    assert(counts_at(fd[n - 1 - a].children, q.drop_first()) == counts_at(
                        all[a].children,
                        q.drop_first(),
                    ));
                }
            } else if has_frame(fd, q[0]) {
                let i = slot(fd, q[0]);
                assert(fd[i].frame == q[0]);
                assert(all[n - 1 - i].frame == q[0]);
            }
        }
    }
    lemma_total_reversed(fd, all);
    if balanced(all) {
        assert forall|i: int| 0 <= i < fd.len() implies (#[trigger] fd[i]).total
            == fd[i].self_count + total_of(fd[i].children) && balanced(fd[i].children) by {
            assert(all[n - 1 - i].total == all[n - 1 - i].self_count + total_of(
                all[n - 1 - i].children,
            ));
        }
    }
}

proof fn lemma_total_first(nodes: Seq<NodeView>)
    requires
        nodes.len() > 0,
    ensures
        total_of(nodes) == nodes[0].total + total_of(nodes.drop_first()),
    decreases nodes.len(),
{
    if nodes.len() == 1 {
        assert(nodes.drop_last() =~= Seq::empty());
        assert(nodes.drop_first() =~= Seq::empty());
    } else {
        lemma_total_first(nodes.drop_last());
        assert(nodes.drop_last().drop_first() =~= nodes.drop_first().drop_last());
    }
}

proof fn lemma_total_reversed(a: Seq<NodeView>, b: Seq<NodeView>)
    requires
        a.len() == b.len(),
        forall|i: int| 0 <= i < a.len() ==> (#[trigger] a[i]).total == b[b.len() - 1 - i].total,
    ensures
        total_of(a) == total_of(b),
    decreases a.len(),
{
    if a.len() > 0 {
        lemma_total_first(b);
        assert forall|i: int| 0 <= i < a.drop_last().len() implies (#[trigger] a.drop_last()[i]).total
            == b.drop_first()[b.drop_first().len() - 1 - i].total by {
            assert(a.drop_last()[i] == a[i]);
        }
        assert(a[a.len() - 1].total == b[0].total);
        lemma_total_reversed(a.drop_last(), b.drop_first());
    }
}

/// Where the node for a frame stands, or the number of nodes if none does.
fn position(nodes: &Vec<BuildNode>, frame: &FrameKey) -> (r: usize)
    ensures
        r <= nodes@.len(),
        r < nodes@.len() ==> growing(nodes@)[r as int].frame == frame@,
        r == nodes@.len() ==> !has_frame(growing(nodes@), frame@),
{
    let mut i: usize = 0;
    while i < nodes.len()
        invariant
            i <= nodes@.len(),
            forall|k: int|
                0 <= k < i ==> (#[trigger] growing(nodes@)[k]).frame != frame@,
        decreases nodes@.len() - i,
    {
        proof {
            lemma_build_view(nodes@[i as int]);
        }
        if nodes[i].frame.same(frame) {
            return i;
        }
        i = i + 1;
    }
    i
}

/// Adds what follows `at` in a path below a node that it goes through.
fn descend(node: &mut BuildNode, path: &[FrameKey], at: usize, weight: u64)
    requires
        at <= path@.len(),
        distinct(old(node)@.children),
        old(node)@.total + weight <= u64::MAX,
        at == path@.len() ==> old(node)@.self_count + weight <= u64::MAX,
        room(old(node)@.children, keys_of(path@).skip(at as int), weight as nat),
    ensures
        final(node)@ == added(old(node)@, keys_of(path@).skip(at as int), weight as nat),
    decreases path@.len() - at, 1nat,
{
    proof {
        lemma_build_view(*node);
    }
    node.total = node.total + weight;
    if at == path.len() {
        node.self_count = node.self_count + weight;
    } else {
        place(&mut node.children, path, at, weight);
    }
    proof {
        lemma_build_view(*node);
    }
}

/// Adds a path from `at` on to sibling nodes.
fn place(nodes: &mut Vec<BuildNode>, path: &[FrameKey], at: usize, weight: u64)
    requires
        at < path@.len(),
        distinct(growing(old(nodes)@)),
        room(growing(old(nodes)@), keys_of(path@).skip(at as int), weight as nat),
    ensures
        growing(final(nodes)@) == added_forest(
            growing(old(nodes)@),
            keys_of(path@).skip(at as int),
            weight as nat,
        ),
    decreases path@.len() - at, 0nat,
{
    let ghost start = growing(nodes@);
    let ghost keys = keys_of(path@).skip(at as int);
    proof {
        assert(keys[0] == path@[at as int]@);
        assert(keys.drop_first() =~= keys_of(path@).skip(at + 1));
    }
    let i: usize = position(nodes, &path[at]);
    if i == nodes.len() {
        nodes.push(BuildNode::new(path[at].clone()));
        assert(growing(nodes@) =~= start.push(fresh(keys[0])));
    } else {
        proof {
            lemma_slot(start, i as int);
        }
    }
    let ghost ready = growing(nodes@);
    assert(ready[i as int] == nodes@[i as int]@);
    assert(distinct(ready[i as int].children));
    descend(&mut nodes[i], path, at + 1, weight);
    proof {
        assert(growing(nodes@) =~= ready.update(
            i as int,
            added(ready[i as int], keys.drop_first(), weight as nat),
        ));
        assert(growing(nodes@) =~= added_forest(start, keys, weight as nat));
    }
}

/// Adds a weighted path to a forest: the path's prefixes count `weight` more,
/// the path itself also as its own, and nothing else changes.
pub fn add_path(roots: &mut Vec<BuildNode>, path: &[FrameKey], weight: u64)
    requires
        distinct(growing(old(roots)@)),
        room(growing(old(roots)@), keys_of(path@), weight as nat),
    ensures
        forall|q: Seq<FrameView>| #[trigger]
            counts_at(growing(final(roots)@), q) == counts_after(
                growing(old(roots)@),
                keys_of(path@),
                weight as nat,
                q,
            ),
        distinct(growing(final(roots)@)),
        balanced(growing(old(roots)@)) ==> balanced(growing(final(roots)@)),
        total_of(growing(final(roots)@)) == total_of(growing(old(roots)@)) + if path@.len() == 0 {
            0
        } else {
            weight as nat
        },
{
    let ghost start = growing(roots@);
    let ghost keys = keys_of(path@);
    assert(keys.skip(0) =~= keys);
    if path.len() > 0 {
        place(roots, path, 0, weight);
    }
    proof {
        lemma_added_keeps(start, keys, weight as nat);
        assert forall|q: Seq<FrameView>| #[trigger]
            counts_at(growing(roots@), q) == counts_after(start, keys, weight as nat, q) by {
            lemma_added_counts(start, keys, weight as nat, q);
        }
    }
}

} // verus!
