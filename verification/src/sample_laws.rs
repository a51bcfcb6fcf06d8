//! What becomes of a thread's samples on their way into the call tree.

use vstd::prelude::*;

use crate::error::{SampleError, TableError};
use crate::forest::{balanced, counts_at, distinct, has_frame, ordered, slot, total_of};
use crate::listing::{indexable, lemma_indexable};
use crate::profile::{as_index, Thread};
use crate::samples::{
    collapse, expected, is_tree_of, key_view, path_keys, unique_frames, weight_at,
    weight_total, weight_under, WeightedPath,
};
use crate::symbolicate::{address_label, SymbolView};
use crate::text::text_le;
use crate::tree::{node_at, AddressFrame, CallTree, FrameView, NodeView};
use crate::tree_laws::{
    frames_along, law_every_node_counts_its_samples, lemma_node_counts, lemma_under_witness,
};

verus! {

/// A further frame lengthens a call path, unless it is the frame just before.
pub proof fn law_only_a_repeated_frame_is_dropped(keys: Seq<FrameView>, next: FrameView)
    ensures
        collapse(Seq::empty()) == Seq::<FrameView>::empty(),
        collapse(keys.push(next)) == if keys.len() > 0 && keys[keys.len() - 1] == next {
            collapse(keys)
        } else {
            collapse(keys).push(next)
        },
    decreases keys.len(),
{
    let more = keys.push(next);
    assert(more.drop_last() =~= keys);
    if keys.len() > 0 {
        law_only_a_repeated_frame_is_dropped(keys.drop_last(), keys.last());
        assert(keys.drop_last().push(keys.last()) =~= keys);
        lemma_collapse_last(keys);
    }
}

proof fn lemma_collapse_last(keys: Seq<FrameView>)
    requires
        keys.len() > 0,
    ensures
        collapse(keys).len() > 0,
        collapse(keys).last() == keys.last(),
{
}

/// A stack in which no frame directly follows itself stays as it is, however
/// often its frames come back later.
pub proof fn law_a_stack_without_repeats_stays(keys: Seq<FrameView>)
    requires
        forall|i: int| 0 < i < keys.len() ==> #[trigger] keys[i] != keys[i - 1],
    ensures
        collapse(keys) == keys,
    decreases keys.len(),
{
    if keys.len() > 0 {
        let front = keys.drop_last();
        assert forall|i: int| 0 < i < front.len() implies #[trigger] front[i] != front[i - 1] by {
            assert(keys[i] != keys[i - 1]);
        }
        law_a_stack_without_repeats_stays(front);
        law_only_a_repeated_frame_is_dropped(front, keys.last());
        assert(front.push(keys.last()) =~= keys);
        if front.len() > 0 {
            assert(keys[keys.len() - 1] != keys[keys.len() - 2]);
        }
    }
}

/// Where two stacks are put together, only the frame at the seam can be taken
/// for a repetition.
pub proof fn law_stacks_collapse_piece_by_piece(a: Seq<FrameView>, b: Seq<FrameView>)
    requires
        a.len() > 0,
        b.len() > 0,
    ensures
        a.last() != b[0] ==> collapse(a + b) == collapse(a) + collapse(b),
        a.last() == b[0] ==> collapse(a + b) == collapse(a) + collapse(b).drop_first(),
        collapse(b)[0] == b[0],
    decreases b.len(),
{
    let last = b.last();
    let front = b.drop_last();
    assert(front.push(last) =~= b);
    assert(a + b =~= (a + front).push(last));
    law_only_a_repeated_frame_is_dropped(a + front, last);
    law_only_a_repeated_frame_is_dropped(front, last);
    if front.len() > 0 {
        law_stacks_collapse_piece_by_piece(a, front);
        lemma_collapse_last(front);
        assert((a + front)[a.len() + front.len() - 1] == front[front.len() - 1]);
        if collapse(front).len() > 0 {
            assert(collapse(front).push(last).drop_first() =~= collapse(front).drop_first().push(
                last,
            ));
        }
        assert(collapse(a) + collapse(front).push(last) =~= (collapse(a) + collapse(front)).push(
            last,
        ));
        assert(collapse(a) + collapse(front).drop_first().push(last) =~= (collapse(a) + collapse(
            front,
        ).drop_first()).push(last));
    } else {
        assert(a + front =~= a);
        assert(front =~= Seq::empty());
        assert(collapse(b) =~= seq![last]);
        assert(collapse(b).drop_first() =~= Seq::empty());
        assert(collapse(a) + Seq::empty() =~= collapse(a));
        assert(collapse(a) + seq![last] =~= collapse(a).push(last));
    }
}

/// No frame is lost: what occurs in a stack occurs in its call path, and nothing
/// else does.
pub proof fn law_no_frame_is_lost(keys: Seq<FrameView>, f: FrameView)
    ensures
        collapse(keys).contains(f) <==> keys.contains(f),
    decreases keys.len(),
{
    if keys.len() > 0 {
        let front = keys.drop_last();
        let last = keys.last();
        assert(front.push(last) =~= keys);
        law_no_frame_is_lost(front, f);
        law_only_a_repeated_frame_is_dropped(front, last);
        lemma_push_contains(front, last, f);
        lemma_push_contains(collapse(front), last, f);
        if front.len() > 0 && front[front.len() - 1] == last && f == last {
            assert(front.contains(f));
        }
    }
}

proof fn lemma_push_contains(s: Seq<FrameView>, last: FrameView, f: FrameView)
    ensures
        s.push(last).contains(f) <==> s.contains(f) || f == last,
{
    let more = s.push(last);
    assert(more[s.len() as int] == last);
    if s.contains(f) {
        let i = choose|i: int| 0 <= i < s.len() && s[i] == f;
        assert(more[i] == f);
    }
    if more.contains(f) {
        let i = choose|i: int| 0 <= i < more.len() && more[i] == f;
        if i < s.len() {
            assert(s[i] == f);
        }
    }
}

/// The key of a frame has the frame's library. Its name is the symbol's where
/// there is one, whatever the address; else it tells the address.
pub proof fn law_key_of_a_frame(
    f: AddressFrame,
    g: AddressFrame,
    symbols: Map<AddressFrame, SymbolView>,
)
    ensures
        key_view(f, symbols).lib_index == f.lib_index,
        symbols.contains_key(f) ==> key_view(f, symbols).name == symbols[f].name,
        !symbols.contains_key(f) ==> key_view(f, symbols).name == address_label(f.address),
        symbols.contains_key(f) && symbols.contains_key(g) ==> (key_view(f, symbols) == key_view(
            g,
            symbols,
        ) <==> f.lib_index == g.lib_index && symbols[f].name == symbols[g].name),
{
}

/// The keys of a stack are those of its frames, one for each, in their order.
pub proof fn law_keys_of_a_stack(
    addrs: Seq<AddressFrame>,
    symbols: Map<AddressFrame, SymbolView>,
    i: int,
)
    requires
        0 <= i < addrs.len(),
    ensures
        path_keys(addrs, symbols).len() == addrs.len(),
        path_keys(addrs, symbols)[i] == key_view(addrs[i], symbols),
{
}

/// The samples of a list of call paths are those of its parts together.
pub proof fn law_weights_add_up(a: Seq<WeightedPath>, b: Seq<WeightedPath>, q: Seq<FrameView>)
    ensures
        weight_total(a + b) == weight_total(a) + weight_total(b),
        weight_under(a + b, q) == weight_under(a, q) + weight_under(b, q),
        weight_at(a + b, q) == weight_at(a, q) + weight_at(b, q),
    decreases b.len(),
{
    if b.len() > 0 {
        assert((a + b).drop_last() =~= a + b.drop_last());
        assert((a + b).last() == b.last());
        law_weights_add_up(a, b.drop_last(), q);
    } else {
        assert(a + b =~= a);
    }
}

/// A single call path counts its weight for itself and for each call path that
/// it begins with, and nothing for any other.
pub proof fn law_weight_of_one_path(p: Seq<FrameView>, w: nat, q: Seq<FrameView>)
    ensures
        weight_total(seq![(p, w)]) == w,
        q.len() <= p.len() && p.take(q.len() as int) == q ==> weight_under(seq![(p, w)], q) == w,
        !(q.len() <= p.len() && p.take(q.len() as int) == q) ==> weight_under(seq![(p, w)], q)
            == 0,
        weight_at(seq![(p, w)], q) == if p == q {
            w
        } else {
            0
        },
{
    let one: Seq<WeightedPath> = seq![(p, w)];
    assert(one.drop_last() =~= Seq::empty());
    assert(one.last() == (p, w));
    reveal_with_fuel(weight_total, 2);
    reveal_with_fuel(weight_under, 2);
    reveal_with_fuel(weight_at, 2);
    if q.len() <= p.len() {
        assert(p.take(q.len() as int) =~= p.subrange(0, q.len() as int));
    }
}

/// Whether `more` is the same thread with one sample more.
pub open spec fn one_sample_more(t: Thread, more: Thread) -> bool {
    &&& more.stack_table == t.stack_table
    &&& more.frame_table == t.frame_table
    &&& more.func_table == t.func_table
    &&& more.resource_table == t.resource_table
    &&& more.samples.stack == t.samples.stack
    &&& more.samples.weight == t.samples.weight
    &&& more.samples.length == t.samples.length + 1
}

proof fn lemma_same_walk(t: Thread, more: Thread, stack: Option<i32>, fuel: nat)
    requires
        one_sample_more(t, more),
    ensures
        t.walk(stack, fuel) == more.walk(stack, fuel),
    decreases fuel,
{
    if fuel > 0 {
        match stack {
            Some(i) => {
                let at = as_index(i);
                if at < t.stack_table.prefix@.len() {
                    lemma_same_walk(
                        t,
                        more,
                        t.stack_table.prefix@[at as int],
                        (fuel - 1) as nat,
                    );
                }
            },
            None => {},
        }
    }
}

proof fn lemma_same_outcome(t: Thread, more: Thread, stack: i32)
    requires
        one_sample_more(t, more),
    ensures
        t.stack_outcome(stack) == more.stack_outcome(stack),
{
    lemma_same_walk(t, more, Some(stack), t.stack_table.length as nat + 1);
}

proof fn lemma_same_weighted(
    t: Thread,
    more: Thread,
    symbols: Map<AddressFrame, SymbolView>,
    n: nat,
)
    requires
        one_sample_more(t, more),
    ensures
        t.weighted(symbols, n) == more.weighted(symbols, n),
        t.frames(n) == more.frames(n),
    decreases n,
{
    if n > 0 {
        lemma_same_weighted(t, more, symbols, (n - 1) as nat);
        if n - 1 < t.samples.stack@.len() {
            match t.samples.stack@[n - 1] {
                Some(stack) => {
                    lemma_same_outcome(t, more, stack);
                },
                None => {},
            }
        }
    }
}

/// Without samples there are no call paths and no frames.
pub proof fn law_no_samples(t: Thread, symbols: Map<AddressFrame, SymbolView>)
    requires
        t.samples.length == 0,
    ensures
        t.weighted_paths(symbols) == Some(
            Ok::<Seq<WeightedPath>, SampleError>(Seq::<WeightedPath>::empty()),
        ),
        t.all_frames() == Some(Ok::<Seq<AddressFrame>, TableError>(Seq::<AddressFrame>::empty())),
{
}

/// One sample more adds its collapsed stack, with its weight, to the call paths.
/// Without a stack or without weight it adds nothing; a sample counts once where
/// no weight is given for it; and the first sample that fails is told, whatever
/// comes after it.
pub proof fn law_one_more_sample(
    t: Thread,
    more: Thread,
    symbols: Map<AddressFrame, SymbolView>,
)
    requires
        one_sample_more(t, more),
    ensures
        match t.weighted_paths(symbols) {
            Some(Ok(list)) => {
                let n = t.samples.length as int;
                let weight: u64 = if t.samples.weight is Some && n < t.samples.weight->0@.len() {
                    t.samples.weight->0@[n]
                } else {
                    1
                };
                if n >= t.samples.stack@.len() {
                    more.weighted_paths(symbols) is None
                } else if t.samples.stack@[n] is None || weight == 0 {
                    more.weighted_paths(symbols) == t.weighted_paths(symbols)
                } else if weight_total(list) + weight > u64::MAX {
                    more.weighted_paths(symbols) is None
                } else {
                    match t.stack_outcome(t.samples.stack@[n]->0) {
                        None => more.weighted_paths(symbols) is None,
                        Some(Err(cause)) => more.weighted_paths(symbols) == Some(
                            Err::<Seq<WeightedPath>, SampleError>(
                                SampleError {
                                    sample: n as usize,
                                    stack: t.samples.stack@[n]->0,
                                    cause,
                                },
                            ),
                        ),
                        Some(Ok(addrs)) => more.weighted_paths(symbols) == Some(
                            Ok::<Seq<WeightedPath>, SampleError>(
                                list + seq![(collapse(path_keys(addrs, symbols)), weight as nat)],
                            ),
                        ),
                    }
                }
            },
            failed => more.weighted_paths(symbols) == failed,
        },
{
    let n = t.samples.length as nat;
    lemma_same_weighted(t, more, symbols, n);
    if n < t.samples.stack@.len() {
        match t.samples.stack@[n as int] {
            Some(stack) => {
                lemma_same_outcome(t, more, stack);
                if let Some(Ok(list)) = t.weighted_paths(symbols) {
                    if let Some(Ok(addrs)) = t.stack_outcome(stack) {
                        let w = t.samples.weight_of(n as int) as nat;
                        let own = (collapse(path_keys(addrs, symbols)), w);
                        assert(list.push(own) =~= list + seq![own]);
                    }
                }
            },
            None => {},
        }
    }
}

/// One sample more adds the frames of its stack to the collected ones, whatever
/// its weight; and the first stack that fails is told.
pub proof fn law_one_more_sample_collected(t: Thread, more: Thread)
    requires
        one_sample_more(t, more),
    ensures
        match t.all_frames() {
            Some(Ok(all)) => {
                let n = t.samples.length as int;
                if n >= t.samples.stack@.len() {
                    more.all_frames() is None
                } else {
                    match t.samples.stack@[n] {
                        None => more.all_frames() == t.all_frames(),
                        Some(stack) => match t.stack_outcome(stack) {
                            Some(Ok(addrs)) => more.all_frames() == Some(
                                Ok::<Seq<AddressFrame>, TableError>(all + addrs),
                            ),
                            failed => more.all_frames() == failed,
                        },
                    }
                }
            },
            failed => more.all_frames() == failed,
        },
{
    let n = t.samples.length as nat;
    lemma_same_weighted(t, more, Map::empty(), n);
    if n < t.samples.stack@.len() {
        match t.samples.stack@[n as int] {
            Some(stack) => {
                lemma_same_outcome(t, more, stack);
            },
            None => {},
        }
    }
}

/// Collected frames are those of the stacks, each once: first those of no
/// library, then by library, then by address.
pub proof fn law_collected_frames_in_order(
    unique: Seq<AddressFrame>,
    all: Seq<AddressFrame>,
    i: int,
    j: int,
    f: AddressFrame,
)
    requires
        unique_frames(unique, all),
        0 <= i < j < unique.len(),
    ensures
        unique.contains(f) <==> all.contains(f),
        unique[j].lib_index is None ==> unique[i].lib_index is None,
        unique[i].lib_index == unique[j].lib_index ==> unique[i].address < unique[j].address,
        unique[i].lib_index is Some && unique[i].lib_index != unique[j].lib_index ==> {
            &&& unique[j].lib_index is Some
            &&& unique[i].lib_index->0 < unique[j].lib_index->0
        },
{
    assert(unique[i] != unique[j]);
}

/// Where a forest counts a call path, a node stands for it.
proof fn lemma_node_of_path(nodes: Seq<NodeView>, keys: Seq<FrameView>) -> (path: Seq<usize>)
    requires
        counts_at(nodes, keys) is Some,
        indexable(nodes),
    ensures
        node_at(nodes, path) is Some,
        frames_along(nodes, path) == keys,
        path.len() == keys.len(),
    decreases keys.len(),
{
    let at = slot(nodes, keys[0]);
    assert(has_frame(nodes, keys[0]));
    let n = nodes[at];
    if keys.len() == 1 {
        let path = seq![at as usize];
        reveal_with_fuel(frames_along, 2);
        assert(path.drop_first() =~= Seq::empty());
        assert(frames_along(nodes, path) =~= keys);
        path
    } else {
        let rest = lemma_node_of_path(n.children, keys.drop_first());
        let path = seq![at as usize] + rest;
        assert(path.drop_first() =~= rest);
        assert(frames_along(nodes, path) =~= keys);
        path
    }
}

/// Every sampled call path has its node, frame by frame from the root; it counts
/// at least the path's samples, in all and as its own.
pub proof fn law_every_sampled_path_has_its_node(
    list: Seq<WeightedPath>,
    tree: CallTree,
    k: int,
) -> (path: Seq<usize>)
    requires
        is_tree_of(tree, list),
        0 <= k < list.len(),
        list[k].0.len() > 0,
        list[k].1 > 0,
    ensures
        path.len() == list[k].0.len(),
        node_at(tree@, path) is Some,
        frames_along(tree@, path) == list[k].0,
        node_at(tree@, path)->0.total >= list[k].1,
        node_at(tree@, path)->0.self_count >= list[k].1,
{
    let keys = list[k].0;
    let one: Seq<WeightedPath> = seq![list[k]];
    let a = list.take(k);
    let b = list.skip(k + 1);
    assert(list =~= a + one + b);
    law_weights_add_up(a + one, b, keys);
    law_weights_add_up(a, one, keys);
    law_weight_of_one_path(keys, list[k].1, keys);
    assert(one =~= seq![(keys, list[k].1)]);
    assert(keys.take(keys.len() as int) =~= keys);
    assert(counts_at(tree@, keys) == expected(list, keys));
    lemma_indexable(tree.roots);
    let path = lemma_node_of_path(tree@, keys);
    law_every_node_counts_its_samples(list, tree, path);
    path
}

/// No node stands in a call tree without a sample: some sampled call path begins
/// with the frames down to it.
pub proof fn law_every_node_was_sampled(list: Seq<WeightedPath>, tree: CallTree, path: Seq<usize>)
    requires
        is_tree_of(tree, list),
        node_at(tree@, path) is Some,
    ensures
        node_at(tree@, path)->0.total > 0,
        exists|k: int|
            0 <= k < list.len() && frames_along(tree@, path).is_prefix_of(
                (#[trigger] list[k]).0,
            ),
{
    let keys = frames_along(tree@, path);
    lemma_node_counts(tree@, path);
    assert(counts_at(tree@, keys) == expected(list, keys));
    lemma_under_witness(list, keys);
}

/// The frames along a path are those of the nodes on the way.
pub proof fn law_frames_along_a_path(tree: CallTree, path: Seq<usize>, k: int)
    requires
        node_at(tree@, path) is Some,
        1 <= k <= path.len(),
    ensures
        frames_along(tree@, path).len() == path.len(),
        node_at(tree@, path.take(k)) is Some,
        frames_along(tree@, path)[k - 1] == node_at(tree@, path.take(k))->0.frame,
{
    lemma_frames_along(tree@, path, k);
}

proof fn lemma_frames_along(nodes: Seq<NodeView>, path: Seq<usize>, k: int)
    requires
        node_at(nodes, path) is Some,
        1 <= k <= path.len(),
    ensures
        frames_along(nodes, path).len() == path.len(),
        node_at(nodes, path.take(k)) is Some,
        frames_along(nodes, path)[k - 1] == node_at(nodes, path.take(k))->0.frame,
    decreases path.len(),
{
    let n = nodes[path[0] as int];
    let rest = path.drop_first();
    if path.len() > 1 {
        lemma_frames_along(n.children, rest, if k > 1 {
            k - 1
        } else {
            1
        });
        if k > 1 {
            assert(path.take(k).drop_first() =~= rest.take(k - 1));
        }
    } else {
        assert(rest =~= Seq::empty());
        reveal_with_fuel(frames_along, 2);
    }
}

/// The children of a node, or the roots by the empty path.
pub open spec fn siblings_at(nodes: Seq<NodeView>, path: Seq<usize>) -> Seq<NodeView> {
    if path.len() == 0 {
        nodes
    } else {
        node_at(nodes, path)->0.children
    }
}

proof fn lemma_everywhere(nodes: Seq<NodeView>, path: Seq<usize>)
    requires
        path.len() == 0 || node_at(nodes, path) is Some,
    ensures
        ordered(nodes) ==> ordered(siblings_at(nodes, path)),
        distinct(nodes) ==> distinct(siblings_at(nodes, path)),
        balanced(nodes) ==> balanced(siblings_at(nodes, path)),
        balanced(nodes) && path.len() > 0 ==> node_at(nodes, path)->0.total == node_at(
            nodes,
            path,
        )->0.self_count + total_of(node_at(nodes, path)->0.children),
    decreases path.len(),
{
    if path.len() > 0 {
        let n = nodes[path[0] as int];
        let rest = path.drop_first();
        lemma_everywhere(n.children, rest);
        if path.len() > 1 {
            assert(siblings_at(n.children, rest) == siblings_at(nodes, path));
        }
    }
}

/// Everywhere in a call tree siblings stand for different frames, with the
/// heavier first; of equally heavy ones, none stands before one whose name comes
/// earlier: where two names differ first, the one before has the lesser
/// character, or ends there.
pub proof fn law_siblings_are_in_order(
    list: Seq<WeightedPath>,
    tree: CallTree,
    path: Seq<usize>,
    i: int,
    j: int,
    k: int,
)
    requires
        is_tree_of(tree, list),
        path.len() == 0 || node_at(tree@, path) is Some,
        0 <= i < j < siblings_at(tree@, path).len(),
    ensures
        ({
            let a = siblings_at(tree@, path)[i];
            let b = siblings_at(tree@, path)[j];
            &&& a.frame != b.frame
            &&& a.total >= b.total
            &&& a.total == b.total && 0 <= k < b.frame.name.len() && k <= a.frame.name.len()
                && a.frame.name.take(k) == b.frame.name.take(k) && (k == a.frame.name.len()
                || a.frame.name[k] != b.frame.name[k]) ==> k == a.frame.name.len()
                || (a.frame.name[k] as int) < (b.frame.name[k] as int)
            &&& a.total == b.total && b.frame.name.len() <= a.frame.name.len()
                && a.frame.name.take(b.frame.name.len() as int) == b.frame.name ==> a.frame.name
                == b.frame.name
        }),
{
    lemma_everywhere(tree@, path);
    let a = siblings_at(tree@, path)[i].frame.name;
    let b = siblings_at(tree@, path)[j].frame.name;
    if 0 <= k < b.len() && k < a.len() && a.take(k) == b.take(k) && a[k] != b[k] {
        lemma_first_difference(a, b, k);
    }
    if b.len() <= a.len() && a.take(b.len() as int) == b {
        lemma_longer_comes_later(a, b);
    }
}

proof fn lemma_first_difference(a: Seq<char>, b: Seq<char>, k: int)
    requires
        0 <= k < a.len(),
        k < b.len(),
        a.take(k) == b.take(k),
        a[k] != b[k],
    ensures
        text_le(a, b) <==> (a[k] as int) < (b[k] as int),
    decreases k,
{
    if k > 0 {
        assert(a[0] == a.take(k)[0] && b[0] == b.take(k)[0]);
        assert(a.drop_first().take(k - 1) =~= a.take(k).drop_first());
        assert(b.drop_first().take(k - 1) =~= b.take(k).drop_first());
        lemma_first_difference(a.drop_first(), b.drop_first(), k - 1);
    }
}

proof fn lemma_longer_comes_later(a: Seq<char>, b: Seq<char>)
    requires
        b.len() <= a.len(),
        a.take(b.len() as int) == b,
    ensures
        text_le(a, b) <==> a == b,
    decreases b.len(),
{
    if b.len() > 0 {
        assert(a[0] == a.take(b.len() as int)[0]);
        assert(a.drop_first().take(b.len() - 1) =~= a.take(b.len() as int).drop_first());
        lemma_longer_comes_later(a.drop_first(), b.drop_first());
        if a.drop_first() == b.drop_first() {
            assert(a =~= seq![a[0]] + a.drop_first());
            assert(b =~= seq![b[0]] + b.drop_first());
        }
    } else if a.len() == 0 {
        assert(a =~= b);
    }
}

/// Every node counts its own samples and those of its children, and the roots
/// count all samples.
pub proof fn law_totals_add_up(list: Seq<WeightedPath>, tree: CallTree, path: Seq<usize>)
    requires
        is_tree_of(tree, list),
        node_at(tree@, path) is Some,
    ensures
        node_at(tree@, path)->0.total == node_at(tree@, path)->0.self_count + total_of(
            node_at(tree@, path)->0.children,
        ),
        total_of(tree@) == tree.total_samples == weight_total(list),
{
    lemma_everywhere(tree@, path);
}

/// Siblings account for what each of them does.
pub proof fn law_total_of_siblings(a: Seq<NodeView>, b: Seq<NodeView>, n: NodeView)
    ensures
        total_of(a + b) == total_of(a) + total_of(b),
        total_of(seq![n]) == n.total,
    decreases b.len(),
{
    reveal_with_fuel(total_of, 2);
    assert(seq![n].drop_last() =~= Seq::empty());
    if b.len() > 0 {
        assert((a + b).drop_last() =~= a + b.drop_last());
        law_total_of_siblings(a, b.drop_last(), n);
    } else {
        assert(a + b =~= a);
    }
}

} // verus!
