//! What holds of every call tree that is built from a thread's samples.

use vstd::prelude::*;
use vstd::seq_lib::*;

use crate::error::SampleError;
use crate::forest::{counts_at, distinct, lemma_slot};
use crate::profile::Thread;
use crate::samples::{
    collapse, expected, is_tree_of, key_view, lemma_weights, path_keys, weight_at, weight_total,
    weight_under, WeightedPath,
};
use crate::symbolicate::SymbolView;
use crate::tree::{lemma_node_at_step, node_at, AddressFrame, CallTree, FrameView, NodeView};

verus! {

/// No frame is followed by itself.
pub open spec fn no_repeats(keys: Seq<FrameView>) -> bool {
    forall|i: int, j: int|
        #![trigger keys[i], keys[j]]
        0 <= i && j == i + 1 && j < keys.len() ==> keys[i] != keys[j]
}

proof fn lemma_collapse_no_repeats(keys: Seq<FrameView>)
    ensures
        no_repeats(collapse(keys)),
    decreases keys.len(),
{
    if keys.len() > 0 {
        lemma_collapse_no_repeats(keys.drop_last());
        let front = collapse(keys.drop_last());
        let all = collapse(keys);
        assert forall|i: int, j: int|
            #![trigger all[i], all[j]]
            0 <= i && j == i + 1 && j < all.len() implies all[i] != all[j] by {
            if j < front.len() {
                assert(front[i] == all[i] && front[j] == all[j]);
            }
        }
    }
}

proof fn lemma_paths_no_repeats(
    t: Thread,
    symbols: Map<AddressFrame, SymbolView>,
    n: nat,
    list: Seq<WeightedPath>,
)
    requires
        t.weighted(symbols, n) == Some(Ok::<Seq<WeightedPath>, SampleError>(list)),
    ensures
        forall|k: int| 0 <= k < list.len() ==> no_repeats((#[trigger] list[k]).0),
    decreases n,
{
    if n > 0 {
        let before = t.weighted(symbols, (n - 1) as nat)->0->Ok_0;
        lemma_paths_no_repeats(t, symbols, (n - 1) as nat, before);
        if list.len() > before.len() {
            if let Some(stack) = t.samples.stack@[n - 1] {
                if let Some(Ok(addrs)) = t.stack_outcome(stack) {
                    lemma_collapse_no_repeats(path_keys(addrs, symbols));
                }
            }
            assert forall|k: int| 0 <= k < list.len() implies no_repeats((#[trigger] list[k]).0) by {
                if k < before.len() {
                    assert(list[k] == before[k]);
                }
            }
        }
    }
}

/// Samples under a call path come from one that begins with it.
pub proof fn lemma_under_witness(list: Seq<WeightedPath>, q: Seq<FrameView>)
    requires
        weight_under(list, q) > 0,
    ensures
        exists|k: int| 0 <= k < list.len() && q.is_prefix_of((#[trigger] list[k]).0),
    decreases list.len(),
{
    if q.is_prefix_of(list.last().0) {
        assert(q.is_prefix_of(list[list.len() - 1].0));
    } else {
        lemma_under_witness(list.drop_last(), q);
        let k = choose|k: int|
            0 <= k < list.drop_last().len() && q.is_prefix_of((#[trigger] list.drop_last()[k]).0);
        assert(q.is_prefix_of(list[k].0));
    }
}

/// Recursion is shown as one node: along no call path of the tree does a frame
/// follow itself.
pub proof fn law_no_frame_follows_itself(
    thread: Thread,
    symbols: Map<AddressFrame, SymbolView>,
    list: Seq<WeightedPath>,
    tree: CallTree,
    q: Seq<FrameView>,
)
    requires
        thread.weighted_paths(symbols) == Some(Ok::<Seq<WeightedPath>, SampleError>(list)),
        is_tree_of(tree, list),
        counts_at(tree@, q) is Some,
    ensures
        no_repeats(q),
{
    assert(counts_at(tree@, q) == expected(list, q));
    lemma_paths_no_repeats(thread, symbols, thread.samples.length as nat, list);
    lemma_under_witness(list, q);
    let k = choose|k: int| 0 <= k < list.len() && q.is_prefix_of((#[trigger] list[k]).0);
    let p = list[k].0;
    assert forall|i: int, j: int|
        #![trigger q[i], q[j]]
        0 <= i && j == i + 1 && j < q.len() implies q[i] != q[j] by {
        assert(q[i] == p.subrange(0, q.len() as int)[i]);
        assert(q[j] == p.subrange(0, q.len() as int)[j]);
        assert(p[i] != p[j]);
    }
}

/// A callee counts no more than its caller, and no call path more than all
/// samples.
pub proof fn law_totals_shrink_downwards(
    list: Seq<WeightedPath>,
    tree: CallTree,
    q: Seq<FrameView>,
    callee: FrameView,
)
    requires
        is_tree_of(tree, list),
        q.len() > 0,
        counts_at(tree@, q.push(callee)) is Some,
    ensures
        counts_at(tree@, q) is Some,
        ({
            let (caller_total, _) = counts_at(tree@, q)->0;
            let (callee_total, _) = counts_at(tree@, q.push(callee))->0;
            callee_total <= caller_total <= tree.total_samples
        }),
{
    assert(counts_at(tree@, q) == expected(list, q));
    assert(counts_at(tree@, q.push(callee)) == expected(list, q.push(callee)));
    lemma_under_shrinks(list, q, callee);
    lemma_weights(list, q);
}

proof fn lemma_under_shrinks(list: Seq<WeightedPath>, q: Seq<FrameView>, callee: FrameView)
    ensures
        weight_under(list, q.push(callee)) <= weight_under(list, q),
    decreases list.len(),
{
    if list.len() > 0 {
        lemma_under_shrinks(list.drop_last(), q, callee);
        let p = list.last().0;
        let longer = q.push(callee);
        if longer.is_prefix_of(p) {
            assert(q =~= p.subrange(0, q.len() as int)) by {
                assert forall|i: int| 0 <= i < q.len() implies q[i] == p[i] by {
                    assert(longer[i] == p.subrange(0, longer.len() as int)[i]);
                }
            }
        }
    }
}

proof fn lemma_weight_total_fold(list: Seq<WeightedPath>)
    ensures
        weight_total(list) == list.fold_left(0nat, |acc: nat, w: WeightedPath| acc + w.1),
    decreases list.len(),
{
    let f = |acc: nat, w: WeightedPath| acc + w.1;
    if list.len() > 0 {
        lemma_weight_total_fold(list.drop_last());
        assert(list.fold_left(0nat, f) == f(list.drop_last().fold_left(0nat, f), list.last()));
    }
}

proof fn lemma_weight_under_fold(list: Seq<WeightedPath>, q: Seq<FrameView>)
    ensures
        weight_under(list, q) == list.fold_left(0nat, under_fold(q)),
    decreases list.len(),
{
    let f = under_fold(q);
    if list.len() > 0 {
        lemma_weight_under_fold(list.drop_last(), q);
        assert(list.fold_left(0nat, f) == f(list.drop_last().fold_left(0nat, f), list.last()));
    }
}

spec fn under_fold(q: Seq<FrameView>) -> spec_fn(nat, WeightedPath) -> nat {
    |acc: nat, w: WeightedPath|
        acc + if q.is_prefix_of(w.0) {
            w.1
        } else {
            0
        }
}

proof fn lemma_weight_at_fold(list: Seq<WeightedPath>, q: Seq<FrameView>)
    ensures
        weight_at(list, q) == list.fold_left(0nat, at_fold(q)),
    decreases list.len(),
{
    let f = at_fold(q);
    if list.len() > 0 {
        lemma_weight_at_fold(list.drop_last(), q);
        assert(list.fold_left(0nat, f) == f(list.drop_last().fold_left(0nat, f), list.last()));
    }
}

spec fn at_fold(q: Seq<FrameView>) -> spec_fn(nat, WeightedPath) -> nat {
    |acc: nat, w: WeightedPath|
        acc + if q == w.0 {
            w.1
        } else {
            0
        }
}

proof fn lemma_same_expected(a: Seq<WeightedPath>, b: Seq<WeightedPath>, q: Seq<FrameView>)
    requires
        a.to_multiset() == b.to_multiset(),
    ensures
        expected(a, q) == expected(b, q),
{
    lemma_weight_under_fold(a, q);
    lemma_weight_under_fold(b, q);
    lemma_weight_at_fold(a, q);
    lemma_weight_at_fold(b, q);
    assert(commutative_foldl(under_fold(q)));
    assert(commutative_foldl(at_fold(q)));
    lemma_fold_left_permutation(a, b, under_fold(q), 0nat);
    lemma_fold_left_permutation(a, b, at_fold(q), 0nat);
}

/// The order of the samples does not matter: a call tree of some weighted paths
/// is one of the same paths in any other order.
pub proof fn law_sample_order_is_irrelevant(
    tree: CallTree,
    a: Seq<WeightedPath>,
    b: Seq<WeightedPath>,
)
    requires
        a.to_multiset() == b.to_multiset(),
        is_tree_of(tree, a),
    ensures
        is_tree_of(tree, b),
{
    let f = |acc: nat, w: WeightedPath| acc + w.1;
    lemma_weight_total_fold(a);
    lemma_weight_total_fold(b);
    assert(commutative_foldl(f));
    lemma_fold_left_permutation(a, b, f, 0nat);
    assert forall|q: Seq<FrameView>| #[trigger] counts_at(tree@, q) == expected(b, q) by {
        assert(counts_at(tree@, q) == expected(a, q));
        lemma_same_expected(a, b, q);
    }
}

/// Whether two symbol tables say the same of a frame.
pub open spec fn same_symbol(
    a: Map<AddressFrame, SymbolView>,
    b: Map<AddressFrame, SymbolView>,
    f: AddressFrame,
) -> bool {
    key_view(f, a) == key_view(f, b)
}

proof fn lemma_collected_suffice(
    t: Thread,
    a: Map<AddressFrame, SymbolView>,
    b: Map<AddressFrame, SymbolView>,
    n: nat,
    all: Seq<AddressFrame>,
)
    requires
        t.frames(n) matches Some(Ok(out)) && forall|f: AddressFrame| #[trigger]
            out.contains(f) ==> all.contains(f),
        forall|f: AddressFrame| #[trigger] all.contains(f) ==> same_symbol(a, b, f),
    ensures
        t.weighted(a, n) == t.weighted(b, n),
        !(t.weighted(a, n) matches Some(Err(_))),
    decreases n,
{
    if n > 0 {
        let out = t.frames(n)->0->Ok_0;
        let before = t.frames((n - 1) as nat);
        assert(before matches Some(Ok(_)));
        let front = before->0->Ok_0;
        assert forall|f: AddressFrame| #[trigger] front.contains(f) implies all.contains(f) by {
            let i = choose|i: int| 0 <= i < front.len() && front[i] == f;
            assert(out[i] == f);
            assert(out.contains(f));
        }
        lemma_collected_suffice(t, a, b, (n - 1) as nat, all);
        if let Some(stack) = t.samples.stack@[n - 1] {
            let addrs = t.stack_outcome(stack)->0->Ok_0;
            assert(out == front + addrs);
            assert forall|i: int| 0 <= i < addrs.len() implies key_view(#[trigger] addrs[i], a)
                == key_view(addrs[i], b) by {
                assert(out[front.len() + i] == addrs[i]);
                assert(out.contains(addrs[i]));
                assert(same_symbol(a, b, addrs[i]));
            }
            assert(path_keys(addrs, a) =~= path_keys(addrs, b));
        }
    }
}

/// The collected frames are all that matter: where collecting them succeeds, no
/// sample fails to resolve, and two symbol tables that name each collected
/// frame alike give the same weighted paths.
pub proof fn law_collected_frames_suffice(
    thread: Thread,
    a: Map<AddressFrame, SymbolView>,
    b: Map<AddressFrame, SymbolView>,
    all: Seq<AddressFrame>,
)
    requires
        thread.all_frames() matches Some(Ok(frames)) && frames == all,
        forall|f: AddressFrame| #[trigger] all.contains(f) ==> same_symbol(a, b, f),
    ensures
        thread.weighted_paths(a) == thread.weighted_paths(b),
        !(thread.weighted_paths(a) matches Some(Err(_))),
{
    lemma_collected_suffice(thread, a, b, thread.samples.length as nat, all);
}

/// Paths go from child to child: one step leads to a root, each further one to a
/// child of where the steps before it led, and no step nowhere.
pub proof fn law_paths_go_from_child_to_child(nodes: Seq<NodeView>, path: Seq<usize>, i: usize)
    ensures
        node_at(nodes, Seq::empty()) is None,
        i < nodes.len() ==> node_at(nodes, seq![i]) == Some(nodes[i as int]),
        i >= nodes.len() ==> node_at(nodes, seq![i]) is None,
        path.len() > 0 && node_at(nodes, path) is None ==> node_at(nodes, path.push(i)) is None,
        path.len() > 0 && node_at(nodes, path) is Some ==> {
            let below = node_at(nodes, path)->0.children;
            &&& i < below.len() ==> node_at(nodes, path.push(i)) == Some(below[i as int])
            &&& i >= below.len() ==> node_at(nodes, path.push(i)) is None
        },
{
    if path.len() > 0 {
        lemma_node_at_step(nodes, path, i);
    }
}

/// The frames along a path of child indices.
pub open spec fn frames_along(nodes: Seq<NodeView>, path: Seq<usize>) -> Seq<FrameView>
    decreases path.len(),
{
    if path.len() == 0 {
        Seq::empty()
    } else {
        seq![nodes[path[0] as int].frame] + frames_along(
            nodes[path[0] as int].children,
            path.drop_first(),
        )
    }
}

/// A node is what its forest counts for the frames down to it.
pub proof fn lemma_node_counts(nodes: Seq<NodeView>, path: Seq<usize>)
    requires
        distinct(nodes),
        node_at(nodes, path) is Some,
    ensures
        counts_at(nodes, frames_along(nodes, path)) == Some(
            (node_at(nodes, path)->0.total, node_at(nodes, path)->0.self_count),
        ),
        frames_along(nodes, path).len() == path.len(),
    decreases path.len(),
{
    let i = path[0] as int;
    let n = nodes[i];
    let keys = frames_along(nodes, path);
    lemma_slot(nodes, i);
    assert(keys[0] == n.frame);
    assert(keys.drop_first() =~= frames_along(n.children, path.drop_first()));
    if path.len() > 1 {
        lemma_node_counts(n.children, path.drop_first());
    } else {
        assert(frames_along(n.children, path.drop_first()) =~= Seq::empty());
    }
}

/// Every node of a call tree counts as its total the samples whose call path
/// begins with the frames down to the node, and as its own those whose call
/// path ends there.
pub proof fn law_every_node_counts_its_samples(
    list: Seq<WeightedPath>,
    tree: CallTree,
    path: Seq<usize>,
)
    requires
        is_tree_of(tree, list),
        node_at(tree@, path) is Some,
    ensures
        node_at(tree@, path)->0.total == weight_under(list, frames_along(tree@, path)),
        node_at(tree@, path)->0.self_count == weight_at(list, frames_along(tree@, path)),
{
    lemma_node_counts(tree@, path);
    let keys = frames_along(tree@, path);
    assert(counts_at(tree@, keys) == expected(list, keys));
}

} // verus!
