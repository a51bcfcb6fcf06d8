//! Frames, nodes, and call trees.

use vstd::prelude::*;
use vstd::string::*;

use crate::order::Ranked;
use crate::profile::Library;
use crate::text::{text_le, text_not_after, lemma_text_le_total, lemma_text_le_transitive};

verus! {

/// Identity of a stack frame after symbolication: library and function name.
#[derive(Debug, PartialEq, Eq, Hash)]
pub struct FrameKey {
    pub lib_index: Option<u32>,
    pub name: String,
}

/// What a [`FrameKey`] stands for.
pub struct FrameView {
    pub lib_index: Option<u32>,
    pub name: Seq<char>,
}

impl View for FrameKey {
    type V = FrameView;

    open spec fn view(&self) -> FrameView {
        FrameView { lib_index: self.lib_index, name: self.name@ }
    }
}

impl Clone for FrameKey {
    fn clone(&self) -> (r: Self)
        ensures
            r == *self,
    {
        FrameKey { lib_index: self.lib_index, name: self.name.clone() }
    }
}

impl FrameKey {
    /// Whether two keys name the same frame.
    pub fn same(&self, other: &FrameKey) -> (r: bool)
        ensures
            r == (self@ == other@),
    {
        self.lib_index == other.lib_index && self.name == other.name
    }
}

/// A frame before symbolication.
#[derive(Debug, Clone, Copy, PartialEq, Eq, Hash)]
pub struct AddressFrame {
    pub lib_index: Option<u32>,
    pub address: u64,
}

/// A function in the call tree, below its callers.
#[derive(Debug)]
pub struct TreeNode {
    pub frame: FrameKey,
    pub total: u64,
    pub self_count: u64,
    pub children: Vec<TreeNode>,
}

/// A top-down call tree: the outermost functions and what they called.
#[derive(Debug)]
pub struct CallTree {
    pub roots: Vec<TreeNode>,
    pub total_samples: u64,
}

/// What a node of a call tree stands for.
pub struct NodeView {
    pub frame: FrameView,
    pub total: nat,
    pub self_count: nat,
    pub children: Seq<NodeView>,
}

impl TreeNode {
    /// What the node stands for, with all below it.
    pub open spec fn node_view(self) -> NodeView
        decreases self,
    {
        NodeView {
            frame: self.frame@,
            total: self.total as nat,
            self_count: self.self_count as nat,
            children: Seq::new(
                self.children@.len(),
                |i: int|
                    if 0 <= i < self.children@.len() {
                        self.children@[i].node_view()
                    } else {
                        arbitrary()
                    },
            ),
        }
    }
}

impl View for TreeNode {
    type V = NodeView;

    open spec fn view(&self) -> NodeView {
        self.node_view()
    }
}

/// The nodes of a list, each by its view.
pub open spec fn forest(nodes: Seq<TreeNode>) -> Seq<NodeView> {
    Seq::new(nodes.len(), |i: int| nodes[i]@)
}

/// The node that a path of child indices leads to.
pub open spec fn node_at(nodes: Seq<NodeView>, path: Seq<usize>) -> Option<NodeView>
    decreases path.len(),
{
    if path.len() == 0 || path[0] >= nodes.len() {
        None
    } else if path.len() == 1 {
        Some(nodes[path[0] as int])
    } else {
        node_at(nodes[path[0] as int].children, path.drop_first())
    }
}

/// Path of child indices from the forest roots, used as a stable node id.
pub type NodePath = Vec<usize>;

/// A node's view, field by field.
pub proof fn lemma_node_view(n: TreeNode)
    ensures
        n@.frame == n.frame@,
        n@.total == n.total,
        n@.self_count == n.self_count,
        n@.children == forest(n.children@),
{
    assert(n@.children =~= forest(n.children@));
}

/// Going one child further down a path.
pub proof fn lemma_node_at_step(nodes: Seq<NodeView>, path: Seq<usize>, i: usize)
    requires
        path.len() > 0,
    ensures
        node_at(nodes, path.push(i)) == (match node_at(nodes, path) {
            Some(n) => if i < n.children.len() {
                Some(n.children[i as int])
            } else {
                None
            },
            None => None,
        }),
    decreases path.len(),
{
    assert(path.push(i)[0] == path[0]);
    assert(path.push(i).drop_first() =~= path.drop_first().push(i));
    if path[0] < nodes.len() {
        let below = nodes[path[0] as int].children;
        if path.len() == 1 {
            assert(path.drop_first().push(i) =~= seq![i]);
            assert(node_at(below, seq![i]) == if i < below.len() {
                Some(below[i as int])
            } else {
                None
            });
        } else {
            lemma_node_at_step(below, path.drop_first(), i);
        }
    }
}

impl CallTree {
    /// The roots, each by its view.
    pub open spec fn view(self) -> Seq<NodeView> {
        forest(self.roots@)
    }

    /// The node that a path of child indices leads to.
    pub fn get(&self, path: &[usize]) -> (r: Option<&TreeNode>)
        ensures
            match r {
                Some(n) => node_at(self@, path@) == Some(n@),
                None => node_at(self@, path@) is None,
            },
    {
        if path.len() == 0 {
            return None;
        }
        let first: usize = path[0];
        if first >= self.roots.len() {
            return None;
        }
        let mut node = &self.roots[first];
        let mut k: usize = 1;
        assert(path@.take(1) =~= seq![first]);
        while k < path.len()
            invariant
                1 <= k <= path@.len(),
                node_at(self@, path@.take(k as int)) == Some(node@),
            decreases path@.len() - k,
        {
            let i: usize = path[k];
            proof {
                assert(path@.take(k + 1) =~= path@.take(k as int).push(i));
                lemma_node_at_step(self@, path@.take(k as int), i);
                lemma_node_view(*node);
                if i >= node.children@.len() {
                    lemma_node_at_missing(self@, path@, k + 1);
                }
            }
            if i >= node.children.len() {
                return None;
            }
            node = &node.children[i];
            k = k + 1;
        }
        assert(path@.take(k as int) =~= path@);
        Some(node)
    }
}

/// Below a missing node there is no node.
pub proof fn lemma_node_at_missing(nodes: Seq<NodeView>, path: Seq<usize>, k: int)
    requires
        1 <= k <= path.len(),
        node_at(nodes, path.take(k)) is None,
    ensures
        node_at(nodes, path) is None,
    decreases path.len() - k,
{
    if k < path.len() {
        assert(path.take(k + 1) =~= path.take(k).push(path[k]));
        lemma_node_at_step(nodes, path.take(k), path[k]);
        lemma_node_at_missing(nodes, path, k + 1);
    } else {
        assert(path.take(k) =~= path);
    }
}

/// The text shown for a library index: the library's name, or `???`.
pub open spec fn lib_text(lib_index: Option<u32>, libs: Seq<Library>) -> Seq<char> {
    match lib_index {
        Some(i) => if i < libs.len() {
            libs[i as int].name@
        } else {
            "???"@
        },
        None => "???"@,
    }
}

/// The text shown for a frame.
pub open spec fn frame_text(frame: FrameView, libs: Seq<Library>) -> Seq<char> {
    frame.name + "  ["@ + lib_text(frame.lib_index, libs) + "]"@
}

/// The function name followed by the library name in brackets.
pub fn format_frame(frame: &FrameKey, libs: &[Library]) -> (r: String)
    ensures
        r@ == frame_text(frame@, libs@),
{
    let mut out = frame.name.clone();
    out.append("  [");
    match frame.lib_index {
        Some(i) => {
            let at: usize = i as usize;
            if at < libs.len() {
                out.append(libs[at].name.as_str());
            } else {
                out.append("???");
            }
        },
        None => out.append("???"),
    }
    out.append("]");
    out
}

/// Heavier nodes come first, and nodes of equal weight by name.
pub open spec fn heavier(a: NodeView, b: NodeView) -> bool {
    a.total > b.total || (a.total == b.total && text_le(a.frame.name, b.frame.name))
}

impl Ranked for TreeNode {
    open spec fn ranks(&self, other: &Self) -> bool {
        heavier(self@, other@)
    }

    proof fn ranks_total(a: Self, b: Self) {
        lemma_text_le_total(a@.frame.name, b@.frame.name);
    }

    proof fn ranks_transitive(a: Self, b: Self, c: Self) {
        if a@.total == c@.total {
            lemma_text_le_transitive(a@.frame.name, b@.frame.name, c@.frame.name);
        }
    }

    fn may_precede(&self, other: &Self) -> (r: bool) {
        proof {
            lemma_node_view(*self);
            lemma_node_view(*other);
        }
        self.total > other.total || (self.total == other.total && text_not_after(
            self.frame.name.as_str(),
            other.frame.name.as_str(),
        ))
    }
}

} // verus!
