//! The mathematics of call forests: what a forest counts for each call path,
//! and how adding one weighted path changes that.

use vstd::prelude::*;
use vstd::seq_lib::*;

use crate::tree::{forest, heavier, FrameView, NodeView, TreeNode};

verus! {

/// Whether one of the nodes is for the given frame.
pub open spec fn has_frame(nodes: Seq<NodeView>, frame: FrameView) -> bool {
    exists|i: int| 0 <= i < nodes.len() && (#[trigger] nodes[i]).frame == frame
}

/// Where the node for the given frame stands.
pub open spec fn slot(nodes: Seq<NodeView>, frame: FrameView) -> int {
    choose|i: int| 0 <= i < nodes.len() && (#[trigger] nodes[i]).frame == frame
}

/// What a forest counts for a call path: the samples at or below its end, and
/// the samples that stop there. `None` where no node stands for the path.
pub open spec fn counts_at(nodes: Seq<NodeView>, keys: Seq<FrameView>) -> Option<(nat, nat)>
    decreases keys.len(),
{
    if keys.len() == 0 || !has_frame(nodes, keys[0]) {
        None
    } else {
        let n = nodes[slot(nodes, keys[0])];
        if keys.len() == 1 {
            Some((n.total, n.self_count))
        } else {
            counts_at(n.children, keys.drop_first())
        }
    }
}

/// No two siblings anywhere in the forest are for the same frame.
pub open spec fn distinct(nodes: Seq<NodeView>) -> bool
    decreases nodes,
{
    &&& forall|i: int, j: int|
        #![trigger nodes[i], nodes[j]]
        0 <= i < j < nodes.len() ==> nodes[i].frame != nodes[j].frame
    &&& forall|i: int| 0 <= i < nodes.len() ==> distinct((#[trigger] nodes[i]).children)
}

/// The samples that a list of siblings accounts for.
pub open spec fn total_of(nodes: Seq<NodeView>) -> nat
    decreases nodes.len(),
{
    if nodes.len() == 0 {
        0
    } else {
        total_of(nodes.drop_last()) + nodes.last().total
    }
}

/// Everywhere in the forest a node's total is its own count and what its
/// children account for.
pub open spec fn balanced(nodes: Seq<NodeView>) -> bool
    decreases nodes,
{
    forall|i: int|
        0 <= i < nodes.len() ==> {
            &&& (#[trigger] nodes[i]).total == nodes[i].self_count + total_of(nodes[i].children)
            &&& balanced(nodes[i].children)
        }
}

/// Everywhere in the forest siblings stand with the heavier first, and those
/// of equal weight by name.
pub open spec fn ordered(nodes: Seq<NodeView>) -> bool
    decreases nodes,
{
    &&& forall|i: int, j: int|
        #![trigger nodes[i], nodes[j]]
        0 <= i < j < nodes.len() ==> heavier(nodes[i], nodes[j])
    &&& forall|i: int| 0 <= i < nodes.len() ==> ordered((#[trigger] nodes[i]).children)
}

/// A node for a frame that was not met yet.
pub open spec fn fresh(frame: FrameView) -> NodeView {
    NodeView { frame, total: 0, self_count: 0, children: Seq::empty() }
}

/// A node after a path that goes through it was added.
pub open spec fn added(n: NodeView, keys: Seq<FrameView>, weight: nat) -> NodeView
    decreases keys.len(), 1nat,
{
    NodeView {
        frame: n.frame,
        total: n.total + weight,
        self_count: if keys.len() == 0 {
            n.self_count + weight
        } else {
            n.self_count
        },
        children: added_forest(n.children, keys, weight),
    }
}

/// A forest after a path was added.
pub open spec fn added_forest(nodes: Seq<NodeView>, keys: Seq<FrameView>, weight: nat) -> Seq<
    NodeView,
>
    decreases keys.len(), 0nat,
{
    if keys.len() == 0 {
        nodes
    } else if has_frame(nodes, keys[0]) {
        let at = slot(nodes, keys[0]);
        nodes.update(at, added(nodes[at], keys.drop_first(), weight))
    } else {
        nodes.push(added(fresh(keys[0]), keys.drop_first(), weight))
    }
}

/// Whether the counts along a path leave room for the weight.
pub open spec fn room(nodes: Seq<NodeView>, keys: Seq<FrameView>, weight: nat) -> bool
    decreases keys.len(),
{
    if keys.len() == 0 || !has_frame(nodes, keys[0]) {
        true
    } else {
        let n = nodes[slot(nodes, keys[0])];
        &&& n.total + weight <= u64::MAX
        &&& keys.len() == 1 ==> n.self_count + weight <= u64::MAX
        &&& room(n.children, keys.drop_first(), weight)
    }
}

/// The counts of a path once another path was added.
pub open spec fn counts_after(
    nodes: Seq<NodeView>,
    keys: Seq<FrameView>,
    weight: nat,
    q: Seq<FrameView>,
) -> Option<(nat, nat)> {
    if q.len() > 0 && q.is_prefix_of(keys) {
        let (total, own) = match counts_at(nodes, q) {
            Some(c) => c,
            None => (0, 0),
        };
        Some((total + weight, if q.len() == keys.len() {
            own + weight
        } else {
            own
        }))
    } else {
        counts_at(nodes, q)
    }
}

/// With distinct siblings a frame stands in one slot only.
pub proof fn lemma_slot(nodes: Seq<NodeView>, i: int)
    requires
        distinct(nodes),
        0 <= i < nodes.len(),
    ensures
        has_frame(nodes, nodes[i].frame),
        slot(nodes, nodes[i].frame) == i,
{
    let at = slot(nodes, nodes[i].frame);
    assert(nodes[at].frame == nodes[i].frame);
}

/// Adding a path leaves the siblings that it does not go through.
pub proof fn lemma_added_frame(nodes: Seq<NodeView>, keys: Seq<FrameView>, weight: nat, f: FrameView)
    requires
        keys.len() > 0,
        distinct(nodes),
    ensures
        f != keys[0] ==> (has_frame(added_forest(nodes, keys, weight), f) == has_frame(nodes, f)),
        f != keys[0] && has_frame(nodes, f) ==> {
            &&& distinct(added_forest(nodes, keys, weight)) ==> added_forest(nodes, keys, weight)[slot(
                added_forest(nodes, keys, weight),
                f,
            )] == nodes[slot(nodes, f)]
        },
        has_frame(added_forest(nodes, keys, weight), keys[0]),
        distinct(added_forest(nodes, keys, weight)) ==> added_forest(nodes, keys, weight)[slot(
            added_forest(nodes, keys, weight),
            keys[0],
        )] == added(
            if has_frame(nodes, keys[0]) {
                nodes[slot(nodes, keys[0])]
            } else {
                fresh(keys[0])
            },
            keys.drop_first(),
            weight,
        ),
{
    let after = added_forest(nodes, keys, weight);
    let at = if has_frame(nodes, keys[0]) {
        slot(nodes, keys[0])
    } else {
        nodes.len() as int
    };
    assert(after[at].frame == keys[0]);
    assert forall|i: int| 0 <= i < nodes.len() && i != at implies after[i] == nodes[i] by {}
    if distinct(after) {
        lemma_slot(after, at);
    }
    if f != keys[0] {
        if has_frame(nodes, f) {
            let s = slot(nodes, f);
            assert(nodes[s].frame == f);
            assert(after[s] == nodes[s]);
            if distinct(after) {
                lemma_slot(after, s);
            }
        }
        if has_frame(after, f) {
            let s = slot(after, f);
            assert(after[s].frame == f);
            assert(s != at);
            assert(nodes[s] == after[s]);
        }
    }
}

/// Adding a path keeps siblings distinct and counts balanced, and adds its
/// weight to what the forest accounts for.
pub proof fn lemma_added_keeps(nodes: Seq<NodeView>, keys: Seq<FrameView>, weight: nat)
    requires
        distinct(nodes),
    ensures
        distinct(added_forest(nodes, keys, weight)),
        balanced(nodes) ==> balanced(added_forest(nodes, keys, weight)),
        total_of(added_forest(nodes, keys, weight)) == total_of(nodes) + if keys.len() == 0 {
            0
        } else {
            weight
        },
    decreases keys.len(),
{
    if keys.len() > 0 {
        let after = added_forest(nodes, keys, weight);
        let rest = keys.drop_first();
        let known = has_frame(nodes, keys[0]);
        let at = if known {
            slot(nodes, keys[0])
        } else {
            nodes.len() as int
        };
        let base = if known {
            nodes[at]
        } else {
            fresh(keys[0])
        };
        assert(after[at] == added(base, rest, weight));
        assert(distinct(base.children));
        lemma_added_keeps(base.children, rest, weight);
        assert forall|i: int, j: int|
            #![trigger after[i], after[j]]
            0 <= i < j < after.len() implies after[i].frame != after[j].frame by {
            if !known && j == at {
                assert(nodes[i].frame != keys[0]);
            } else {
                assert(nodes[i].frame != nodes[j].frame);
            }
        }
        assert forall|i: int| 0 <= i < after.len() implies distinct((#[trigger] after[i]).children) by {
            if i != at {
                assert(after[i] == nodes[i]);
            }
        }
        if balanced(nodes) {
            assert(total_of(Seq::<NodeView>::empty()) == 0);
            assert forall|i: int| 0 <= i < after.len() implies (#[trigger] after[i]).total
                == after[i].self_count + total_of(after[i].children) && balanced(
                after[i].children,
            ) by {
                if i != at {
                    assert(after[i] == nodes[i]);
                } else if known {
                    assert(nodes[i].total == nodes[i].self_count + total_of(nodes[i].children));
                }
            }
        }
        if known {
            lemma_total_update(nodes, at, after[at]);
        } else {
            assert(after.drop_last() =~= nodes);
        }
    }
}

/// Exchanging a node changes the siblings' total by the difference.
pub proof fn lemma_total_update(nodes: Seq<NodeView>, at: int, n: NodeView)
    requires
        0 <= at < nodes.len(),
    ensures
        total_of(nodes.update(at, n)) + nodes[at].total == total_of(nodes) + n.total,
    decreases nodes.len(),
{
    let after = nodes.update(at, n);
    if at == nodes.len() - 1 {
        assert(after.drop_last() =~= nodes.drop_last());
    } else {
        assert(after.drop_last() =~= nodes.drop_last().update(at, n));
        lemma_total_update(nodes.drop_last(), at, n);
    }
}

/// Adding a path changes the counts of its prefixes and of nothing else.
pub proof fn lemma_added_counts(
    nodes: Seq<NodeView>,
    keys: Seq<FrameView>,
    weight: nat,
    q: Seq<FrameView>,
)
    requires
        distinct(nodes),
    ensures
        counts_at(added_forest(nodes, keys, weight), q) == counts_after(nodes, keys, weight, q),
    decreases keys.len(),
{
    let after = added_forest(nodes, keys, weight);
    if q.len() > 0 && keys.len() > 0 {
        lemma_added_keeps(nodes, keys, weight);
        lemma_added_frame(nodes, keys, weight, q[0]);
        if q[0] == keys[0] {
            let known = has_frame(nodes, keys[0]);
            let base = if known {
                nodes[slot(nodes, keys[0])]
            } else {
                fresh(keys[0])
            };
            let rest = keys.drop_first();
            let qr = q.drop_first();
            assert(after[slot(after, q[0])] == added(base, rest, weight));
            assert(distinct(base.children));
            if q.len() > 1 {
                lemma_added_counts(base.children, rest, weight, qr);
                assert(counts_at(after, q) == counts_at(added_forest(base.children, rest, weight), qr));
                if !known {
                    assert(counts_at(base.children, qr) is None);
                }
                if q.is_prefix_of(keys) {
                    assert(qr =~= q.subrange(1, q.len() as int));
                    assert(qr =~= rest.subrange(0, qr.len() as int));
                    assert(qr.is_prefix_of(rest));
                } else if qr.is_prefix_of(rest) {
                    assert(q =~= seq![q[0]] + qr);
                    assert forall|i: int| 0 <= i < q.len() implies q[i] == keys[i] by {
                        if i > 0 {
                            assert(qr[i - 1] == rest[i - 1]);
                        }
                    }
                    assert(q =~= keys.subrange(0, q.len() as int));
                }
            } else {
                assert(q =~= keys.subrange(0, 1));
                assert(q.is_prefix_of(keys));
            }
        } else {
            if q.is_prefix_of(keys) {
                assert(q[0] == keys[0]);
            }
        }
    }
}

/// Whether counts leave room for the weight.
pub open spec fn fits(counts: Option<(nat, nat)>, weight: nat) -> bool {
    match counts {
        Some((total, own)) => total + weight <= u64::MAX && own + weight <= u64::MAX,
        None => true,
    }
}

/// Where every count is small enough, a path can be added.
pub proof fn lemma_room(nodes: Seq<NodeView>, keys: Seq<FrameView>, weight: nat)
    requires
        forall|q: Seq<FrameView>| fits(#[trigger] counts_at(nodes, q), weight),
    ensures
        room(nodes, keys, weight),
    decreases keys.len(),
{
    if keys.len() > 0 && has_frame(nodes, keys[0]) {
        let n = nodes[slot(nodes, keys[0])];
        assert(counts_at(nodes, seq![keys[0]]) == Some((n.total, n.self_count)));
        assert forall|q: Seq<FrameView>| fits(#[trigger] counts_at(n.children, q), weight) by {
            let whole = seq![keys[0]] + q;
            assert(whole.drop_first() =~= q);
            if q.len() > 0 {
                assert(counts_at(nodes, whole) == counts_at(n.children, q));
            }
        }
        lemma_room(n.children, keys.drop_first(), weight);
    }
}

proof fn lemma_total_fold(nodes: Seq<TreeNode>)
    ensures
        total_of(forest(nodes)) == nodes.fold_left(0nat, |acc: nat, n: TreeNode| acc + n@.total),
    decreases nodes.len(),
{
    let f = |acc: nat, n: TreeNode| acc + n@.total;
    if nodes.len() > 0 {
        lemma_total_fold(nodes.drop_last());
        assert(forest(nodes).drop_last() =~= forest(nodes.drop_last()));
        assert(nodes.fold_left(0nat, f) == f(nodes.drop_last().fold_left(0nat, f), nodes.last()));
    }
}

/// Putting siblings in another order changes neither what the forest counts
/// nor that siblings are distinct and counts balanced.
pub proof fn lemma_rearranged(c: Seq<TreeNode>, r: Seq<TreeNode>)
    requires
        c.to_multiset() == r.to_multiset(),
        distinct(forest(c)),
    ensures
        distinct(forest(r)),
        forall|q: Seq<FrameView>| #[trigger]
            counts_at(forest(r), q) == counts_at(forest(c), q),
        total_of(forest(r)) == total_of(forest(c)),
        balanced(forest(c)) ==> balanced(forest(r)),
        forall|x: TreeNode| #[trigger] r.contains(x) ==> c.contains(x),
{
    let fc = forest(c);
    let fr = forest(r);
    c.to_multiset_ensures();
    r.to_multiset_ensures();
    assert forall|x: TreeNode| #[trigger] r.contains(x) implies c.contains(x) by {
        assert(r.to_multiset().count(x) > 0);
    }
    assert forall|x: TreeNode| #[trigger] c.contains(x) implies r.contains(x) by {
        assert(c.to_multiset().count(x) > 0);
    }
    assert(c.no_duplicates()) by {
        assert forall|i: int, j: int| 0 <= i < c.len() && 0 <= j < c.len() && i != j implies c[i]
            != c[j] by {
            if i < j {
                assert(fc[i].frame != fc[j].frame);
            } else {
                assert(fc[j].frame != fc[i].frame);
            }
        }
    }
    c.lemma_multiset_has_no_duplicates();
    r.lemma_multiset_has_no_duplicates_conv();
    assert forall|i: int, j: int|
        #![trigger fr[i], fr[j]]
        0 <= i < j < fr.len() implies fr[i].frame != fr[j].frame by {
        assert(r.contains(r[i]) && r.contains(r[j]));
        let a = choose|a: int| 0 <= a < c.len() && c[a] == r[i];
        let b = choose|b: int| 0 <= b < c.len() && c[b] == r[j];
        if a < b {
            assert(fc[a].frame != fc[b].frame);
        } else if b < a {
            assert(fc[b].frame != fc[a].frame);
        }
    }
    assert forall|i: int| 0 <= i < fr.len() implies distinct((#[trigger] fr[i]).children) by {
        assert(r.contains(r[i]));
        let a = choose|a: int| 0 <= a < c.len() && c[a] == r[i];
        assert(distinct(fc[a].children));
    }
    assert(distinct(fr));
    assert forall|q: Seq<FrameView>| #[trigger] counts_at(fr, q) == counts_at(fc, q) by {
        if q.len() > 0 {
            if has_frame(fc, q[0]) {
                let a = slot(fc, q[0]);
                assert(fc[a].frame == q[0]);
                assert(c.contains(c[a]));
                let i = choose|i: int| 0 <= i < r.len() && r[i] == c[a];
                lemma_slot(fr, i);
                assert(fr[i] == fc[a]);
            } else if has_frame(fr, q[0]) {
                let i = slot(fr, q[0]);
                assert(fr[i].frame == q[0]);
                assert(r.contains(r[i]));
                let a = choose|a: int| 0 <= a < c.len() && c[a] == r[i];
                assert(fc[a].frame == q[0]);
            }
        }
    }
    if balanced(fc) {
        assert forall|i: int| 0 <= i < fr.len() implies (#[trigger] fr[i]).total
            == fr[i].self_count + total_of(fr[i].children) && balanced(fr[i].children) by {
            assert(r.contains(r[i]));
            let a = choose|a: int| 0 <= a < c.len() && c[a] == r[i];
            assert(fc[a] == fr[i]);
        }
    }
    lemma_total_fold(c);
    lemma_total_fold(r);
    let f = |acc: nat, n: TreeNode| acc + n@.total;
    assert(commutative_foldl(f));
    lemma_fold_left_permutation(c, r, f, 0nat);
}

} // verus!
