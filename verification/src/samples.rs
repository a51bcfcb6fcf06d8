//! From a thread's samples to frames, weighted call paths, and the call tree.

use std::collections::HashMap;
use vstd::prelude::*;

use crate::aggregate::{add_path, finish, growing, keys_of, BuildNode};
use crate::error::{SampleError, TableError};
use crate::forest::{
    balanced, counts_after, counts_at, distinct, fits, lemma_room, ordered, total_of,
};
use crate::order::{merge_sort, sorted, Ranked};
use crate::profile::{Library, Samples, Thread};
use crate::symbolicate::{
    address_label, code_of, fallback_label, frame_code, lemma_frame_code, SymbolTable, SymbolView,
};
use crate::tree::{forest, AddressFrame, CallTree, FrameKey, FrameView, NodeView};

verus! {

/// The key of a frame: its library, and its symbol's name or else its address.
pub open spec fn key_view(addr: AddressFrame, symbols: Map<AddressFrame, SymbolView>) -> FrameView {
    FrameView {
        lib_index: addr.lib_index,
        name: if symbols.contains_key(addr) {
            symbols[addr].name
        } else {
            address_label(addr.address)
        },
    }
}

/// The key of a frame: its library, and its symbol's name or else its address.
pub fn frame_key_for(addr: AddressFrame, symbols: &SymbolTable, libs: &[Library]) -> (r: FrameKey)
    ensures
        r@ == key_view(addr, symbols@),
{
    let name = match symbols.get(&addr) {
        Some(sym) => sym.name.clone(),
        None => fallback_label(libs, addr),
    };
    FrameKey { lib_index: addr.lib_index, name }
}

/// The keys of a path of frames.
pub open spec fn path_keys(
    addrs: Seq<AddressFrame>,
    symbols: Map<AddressFrame, SymbolView>,
) -> Seq<FrameView> {
    Seq::new(addrs.len(), |i: int| key_view(addrs[i], symbols))
}

/// A path with each run of the same frame taken as one.
pub open spec fn collapse(keys: Seq<FrameView>) -> Seq<FrameView>
    decreases keys.len(),
{
    if keys.len() == 0 {
        Seq::empty()
    } else {
        let front = collapse(keys.drop_last());
        if front.len() > 0 && front.last() == keys.last() {
            front
        } else {
            front.push(keys.last())
        }
    }
}

/// A call path and the samples it counts for.
pub type WeightedPath = (Seq<FrameView>, nat);

/// The samples of all paths.
pub open spec fn weight_total(list: Seq<WeightedPath>) -> nat
    decreases list.len(),
{
    if list.len() == 0 {
        0
    } else {
        weight_total(list.drop_last()) + list.last().1
    }
}

/// The samples of the paths that begin with `q`.
pub open spec fn weight_under(list: Seq<WeightedPath>, q: Seq<FrameView>) -> nat
    decreases list.len(),
{
    if list.len() == 0 {
        0
    } else {
        weight_under(list.drop_last(), q) + if q.is_prefix_of(list.last().0) {
            list.last().1
        } else {
            0
        }
    }
}

/// The samples of the paths that are `q`.
pub open spec fn weight_at(list: Seq<WeightedPath>, q: Seq<FrameView>) -> nat
    decreases list.len(),
{
    if list.len() == 0 {
        0
    } else {
        weight_at(list.drop_last(), q) + if q == list.last().0 {
            list.last().1
        } else {
            0
        }
    }
}

/// What a call tree counts for a call path: the samples that begin with it and
/// those that are it; nothing where no sample begins with it.
pub open spec fn expected(list: Seq<WeightedPath>, q: Seq<FrameView>) -> Option<(nat, nat)> {
    if q.len() == 0 || weight_under(list, q) == 0 {
        None
    } else {
        Some((weight_under(list, q), weight_at(list, q)))
    }
}

/// Whether a tree is the call tree of the weighted paths: it counts them, no
/// two siblings are for the same frame, siblings are in order, and every total
/// is accounted for.
pub open spec fn is_tree_of(tree: CallTree, list: Seq<WeightedPath>) -> bool {
    &&& tree.total_samples == weight_total(list)
    &&& forall|q: Seq<FrameView>| #[trigger] counts_at(tree@, q) == expected(list, q)
    &&& distinct(tree@)
    &&& ordered(tree@)
    &&& balanced(tree@)
    &&& total_of(tree@) == weight_total(list)
}

impl Samples {
    /// How many samples the `i`th counts for: one, unless a weight says else.
    pub open spec fn weight_of(self, i: int) -> u64 {
        match self.weight {
            Some(w) => if i < w@.len() {
                w@[i]
            } else {
                1
            },
            None => 1,
        }
    }

    /// How many samples the `i`th counts for.
    pub fn weight_at(&self, i: usize) -> (r: u64)
        ensures
            r == self.weight_of(i as int),
    {
        match &self.weight {
            Some(w) => if i < w.len() {
                w[i]
            } else {
                1
            },
            None => 1,
        }
    }
}

impl Thread {
    /// The weighted call paths of the first `n` samples, leaving out those
    /// without a stack or without weight; or the first sample whose stack does
    /// not resolve. `None` where a table lacks an entry that it claims, where a
    /// stack lies upon itself, or where the weights exceed what can be counted.
    pub open spec fn weighted(self, symbols: Map<AddressFrame, SymbolView>, n: nat) -> Option<
        Result<Seq<WeightedPath>, SampleError>,
    >
        decreases n,
    {
        if n == 0 {
            Some(Ok(Seq::empty()))
        } else {
            match self.weighted(symbols, (n - 1) as nat) {
                Some(Ok(list)) => {
                    if n - 1 >= self.samples.stack@.len() {
                        None
                    } else {
                        match self.samples.stack@[n - 1] {
                            None => Some(Ok(list)),
                            Some(stack) => {
                                let weight = self.samples.weight_of(n - 1);
                                if weight == 0 {
                                    Some(Ok(list))
                                } else if weight_total(list) + weight > u64::MAX {
                                    None
                                } else {
                                    match self.stack_outcome(stack) {
                                        None => None,
                                        Some(Err(cause)) => Some(
                                            Err(
                                                SampleError {
                                                    sample: (n - 1) as usize,
                                                    stack,
                                                    cause,
                                                },
                                            ),
                                        ),
                                        Some(Ok(addrs)) => Some(
                                            Ok(
                                                list.push(
                                                    (
                                                        collapse(path_keys(addrs, symbols)),
                                                        weight as nat,
                                                    ),
                                                ),
                                            ),
                                        ),
                                    }
                                }
                            },
                        }
                    }
                },
                other => other,
            }
        }
    }

    /// The weighted call paths of all samples.
    pub open spec fn weighted_paths(self, symbols: Map<AddressFrame, SymbolView>) -> Option<
        Result<Seq<WeightedPath>, SampleError>,
    > {
        self.weighted(symbols, self.samples.length as nat)
    }

    /// The frames of the stacks of the first `n` samples, one after the other;
    /// or the first index that leads nowhere. `None` as for a stack.
    pub open spec fn frames(self, n: nat) -> Option<Result<Seq<AddressFrame>, TableError>>
        decreases n,
    {
        if n == 0 {
            Some(Ok(Seq::empty()))
        } else {
            match self.frames((n - 1) as nat) {
                Some(Ok(out)) => {
                    if n - 1 >= self.samples.stack@.len() {
                        None
                    } else {
                        match self.samples.stack@[n - 1] {
                            None => Some(Ok(out)),
                            Some(stack) => match self.stack_outcome(stack) {
                                Some(Ok(addrs)) => Some(Ok(out + addrs)),
                                other => other,
                            },
                        }
                    }
                },
                other => other,
            }
        }
    }

    /// The frames of the stacks of all samples.
    pub open spec fn all_frames(self) -> Option<Result<Seq<AddressFrame>, TableError>> {
        self.frames(self.samples.length as nat)
    }
}

proof fn lemma_weighted_stays(
    t: Thread,
    symbols: Map<AddressFrame, SymbolView>,
    k: nat,
    n: nat,
)
    requires
        k <= n,
        !(t.weighted(symbols, k) matches Some(Ok(_))),
    ensures
        t.weighted(symbols, n) == t.weighted(symbols, k),
    decreases n - k,
{
    if k < n {
        lemma_weighted_stays(t, symbols, k, (n - 1) as nat);
    }
}

proof fn lemma_frames_stay(t: Thread, k: nat, n: nat)
    requires
        k <= n,
        !(t.frames(k) matches Some(Ok(_))),
    ensures
        t.frames(n) == t.frames(k),
    decreases n - k,
{
    if k < n {
        lemma_frames_stay(t, k, (n - 1) as nat);
    }
}

/// The samples at a path are among those under it, and those among all.
pub proof fn lemma_weights(list: Seq<WeightedPath>, q: Seq<FrameView>)
    ensures
        weight_at(list, q) <= weight_under(list, q) <= weight_total(list),
    decreases list.len(),
{
    if list.len() > 0 {
        lemma_weights(list.drop_last(), q);
        if q == list.last().0 {
            assert(q =~= q.subrange(0, q.len() as int));
        }
    }
}

/// Adding a path to a forest that counts a list makes it count one path more.
proof fn lemma_expected_step(
    nodes: Seq<NodeView>,
    list: Seq<WeightedPath>,
    path: Seq<FrameView>,
    weight: nat,
    q: Seq<FrameView>,
)
    requires
        counts_at(nodes, q) == expected(list, q),
        weight > 0,
    ensures
        counts_after(nodes, path, weight, q) == expected(list.push((path, weight)), q),
{
    let more = list.push((path, weight));
    assert(more.drop_last() =~= list);
    lemma_weights(list, q);
    if q.is_prefix_of(path) {
        if q.len() == path.len() {
            assert(q =~= path);
        }
    } else {
        if q == path {
            assert(q =~= path.subrange(0, q.len() as int));
        }
    }
}

proof fn lemma_collapse_nonempty(keys: Seq<FrameView>)
    ensures
        keys.len() > 0 ==> collapse(keys).len() > 0,
        collapse(keys).len() > 0 ==> collapse(keys).last() == keys.last(),
{
}

/// A key from the cache, or worked out and kept there.
fn cached_key(
    cache: &mut HashMap<u128, FrameKey>,
    addr: AddressFrame,
    symbols: &SymbolTable,
    libs: &[Library],
) -> (r: FrameKey)
    requires
        cache_holds(old(cache)@, symbols@),
    ensures
        cache_holds(final(cache)@, symbols@),
        r@ == key_view(addr, symbols@),
{
    broadcast use vstd::std_specs::hash::group_hash_axioms;

    let code: u128 = code_of(addr);
    if let Some(key) = cache.get(&code) {
        return key.clone();
    }
    let key = frame_key_for(addr, symbols, libs);
    cache.insert(code, key.clone());
    proof {
        assert forall|f: AddressFrame|
            cache@.contains_key(#[trigger] frame_code(f)) implies cache@[frame_code(f)]@ == key_view(
            f,
            symbols@,
        ) by {
            if frame_code(f) == code {
                lemma_frame_code(f, addr);
            }
        }
    }
    key
}

/// Every key in the cache is that of its frame.
spec fn cache_holds(cache: Map<u128, FrameKey>, symbols: Map<AddressFrame, SymbolView>) -> bool {
    forall|f: AddressFrame|
        cache.contains_key(#[trigger] frame_code(f)) ==> cache[frame_code(f)]@ == key_view(
            f,
            symbols,
        )
}

/// The keys of a path of frames, each run of the same key taken as one.
fn collapsed_path(
    cache: &mut HashMap<u128, FrameKey>,
    addrs: &Vec<AddressFrame>,
    symbols: &SymbolTable,
    libs: &[Library],
) -> (r: Vec<FrameKey>)
    requires
        cache_holds(old(cache)@, symbols@),
    ensures
        cache_holds(final(cache)@, symbols@),
        keys_of(r@) == collapse(path_keys(addrs@, symbols@)),
{
    let mut path: Vec<FrameKey> = Vec::with_capacity(addrs.len());
    let ghost keys = path_keys(addrs@, symbols@);
    let mut i: usize = 0;
    assert(keys.take(0) =~= Seq::empty());
    assert(keys_of(path@) =~= Seq::empty());
    while i < addrs.len()
        invariant
            i <= addrs@.len(),
            keys == path_keys(addrs@, symbols@),
            cache_holds(cache@, symbols@),
            keys_of(path@) == collapse(keys.take(i as int)),
        decreases addrs@.len() - i,
    {
        let key = cached_key(cache, addrs[i], symbols, libs);
        let ghost before = path@;
        proof {
            assert(keys.take(i + 1).drop_last() =~= keys.take(i as int));
            assert(keys.take(i + 1).last() == key@);
        }
        let repeats: bool = if path.len() > 0 {
            path[path.len() - 1].same(&key)
        } else {
            false
        };
        if !repeats {
            path.push(key);
            assert(keys_of(path@) =~= keys_of(before).push(key@));
        }
        i = i + 1;
    }
    assert(keys.take(i as int) =~= keys);
    path
}

impl CallTree {
    /// Builds the call tree of a thread's samples, keyed by resolved symbol
    /// name, if the tables hold the entries they claim, the stacks end, and the
    /// weights can be counted.
    pub fn try_from_thread(thread: &Thread, symbols: &SymbolTable, libs: &[Library]) -> (r: Option<
        Result<CallTree, SampleError>,
    >)
        ensures
            match r {
                None => thread.weighted_paths(symbols@) is None,
                Some(Err(e)) => thread.weighted_paths(symbols@) == Some(
                    Err::<Seq<WeightedPath>, SampleError>(e),
                ),
                Some(Ok(tree)) => thread.weighted_paths(symbols@) matches Some(Ok(list))
                    && is_tree_of(tree, list),
            },
    {
        let mut roots: Vec<BuildNode> = Vec::new();
        let mut total_samples: u64 = 0;
        let mut cache: HashMap<u128, FrameKey> = HashMap::new();
        let mut i: usize = 0;
        let ghost mut list: Seq<WeightedPath> = Seq::empty();
        proof {
            assert(growing(roots@) =~= Seq::empty());
            assert(total_of(Seq::<NodeView>::empty()) == 0);
            assert forall|q: Seq<FrameView>| #[trigger] counts_at(growing(roots@), q) == expected(
                list,
                q,
            ) by {
                assert(weight_under(list, q) == 0);
            }
        }
        while i < thread.samples.length
            invariant
                i <= thread.samples.length,
                thread.weighted(symbols@, i as nat) == Some(
                    Ok::<Seq<WeightedPath>, SampleError>(list),
                ),
                total_samples == weight_total(list),
                cache_holds(cache@, symbols@),
                distinct(growing(roots@)),
                balanced(growing(roots@)),
                total_of(growing(roots@)) == weight_total(list),
                forall|q: Seq<FrameView>| #[trigger]
                    counts_at(growing(roots@), q) == expected(list, q),
            decreases thread.samples.length - i,
        {
            let ghost next = thread.weighted(symbols@, (i + 1) as nat);
            proof {
                if !(next matches Some(Ok(_))) {
                    lemma_weighted_stays(
                        *thread,
                        symbols@,
                        (i + 1) as nat,
                        thread.samples.length as nat,
                    );
                }
            }
            if i >= thread.samples.stack.len() {
                return None;
            }
            if let Some(stack) = thread.samples.stack[i] {
                let weight: u64 = thread.samples.weight_at(i);
                if weight != 0 {
                    if weight > u64::MAX - total_samples {
                        return None;
                    }
                    match thread.try_address_stack(stack) {
                        None => {
                            return None;
                        },
                        Some(Err(cause)) => {
                            return Some(Err(SampleError { sample: i, stack, cause }));
                        },
                        Some(Ok(addrs)) => {
                            let path = collapsed_path(&mut cache, &addrs, symbols, libs);
                            let ghost before = growing(roots@);
                            let ghost keys = keys_of(path@);
                            proof {
                                assert forall|q: Seq<FrameView>| fits(
                                    #[trigger] counts_at(before, q),
                                    weight as nat,
                                ) by {
                                    lemma_weights(list, q);
                                }
                                lemma_room(before, keys, weight as nat);
                            }
                            add_path(&mut roots, path.as_slice(), weight);
                            total_samples = total_samples + weight;
                            proof {
                                let more = list.push((keys, weight as nat));
                                assert forall|q: Seq<FrameView>| #[trigger]
                                    counts_at(growing(roots@), q) == expected(more, q) by {
                                    assert(counts_at(before, q) == expected(list, q));
                                    lemma_expected_step(before, list, keys, weight as nat, q);
                                }
                                assert(more.drop_last() =~= list);
                                lemma_collapse_nonempty(path_keys(addrs@, symbols@));
                                assert(addrs@.len() > 0);
                                list = more;
                            }
                        },
                    }
                }
            }
            i = i + 1;
        }
        let roots = finish(roots);
        Some(Ok(CallTree { roots, total_samples }))
    }

    /// Builds the call tree of a thread's samples, keyed by resolved symbol
    /// name.
    pub fn from_thread(thread: &Thread, symbols: &SymbolTable, libs: &[Library]) -> (r: Result<
        CallTree,
        SampleError,
    >)
        requires
            thread.weighted_paths(symbols@) is Some,
        ensures
            match r {
                Err(e) => thread.weighted_paths(symbols@) == Some(
                    Err::<Seq<WeightedPath>, SampleError>(e),
                ),
                Ok(tree) => thread.weighted_paths(symbols@) matches Some(Ok(list)) && is_tree_of(
                    tree,
                    list,
                ),
            },
    {
        CallTree::try_from_thread(thread, symbols, libs).unwrap()
    }
}

/// Frames outside any library come first, then those of each library in turn,
/// and within one by address.
pub open spec fn frame_le(a: AddressFrame, b: AddressFrame) -> bool {
    match (a.lib_index, b.lib_index) {
        (None, None) => a.address <= b.address,
        (None, Some(_)) => true,
        (Some(_), None) => false,
        (Some(i), Some(j)) => i < j || (i == j && a.address <= b.address),
    }
}

impl Ranked for AddressFrame {
    open spec fn ranks(&self, other: &Self) -> bool {
        frame_le(*self, *other)
    }

    proof fn ranks_total(a: Self, b: Self) {
    }

    proof fn ranks_transitive(a: Self, b: Self, c: Self) {
    }

    fn may_precede(&self, other: &Self) -> (r: bool) {
        match (self.lib_index, other.lib_index) {
            (None, None) => self.address <= other.address,
            (None, Some(_)) => true,
            (Some(_), None) => false,
            (Some(i), Some(j)) => i < j || (i == j && self.address <= other.address),
        }
    }
}

/// Frames in order, none twice.
pub open spec fn strictly_sorted(frames: Seq<AddressFrame>) -> bool {
    forall|i: int, j: int|
        #![trigger frames[i], frames[j]]
        0 <= i < j < frames.len() ==> frame_le(frames[i], frames[j]) && frames[i] != frames[j]
}

/// Leaves out each frame that equals the one before it.
fn dedup(frames: &Vec<AddressFrame>) -> (r: Vec<AddressFrame>)
    requires
        sorted(frames@),
    ensures
        strictly_sorted(r@),
        forall|f: AddressFrame| #[trigger] r@.contains(f) <==> frames@.contains(f),
{
    let mut out: Vec<AddressFrame> = Vec::new();
    let mut i: usize = 0;
    while i < frames.len()
        invariant
            i <= frames@.len(),
            sorted(frames@),
            strictly_sorted(out@),
            out@.len() > 0 <==> i > 0,
            out@.len() > 0 ==> out@.last() == frames@[i - 1],
            forall|k: int| 0 <= k < out@.len() ==> frames@.contains(#[trigger] out@[k]),
            forall|k: int| 0 <= k < i ==> out@.contains(#[trigger] frames@[k]),
        decreases frames@.len() - i,
    {
        let f: AddressFrame = frames[i];
        let ghost before = out@;
        let repeats: bool = if out.len() > 0 {
            let last: AddressFrame = out[out.len() - 1];
            last.address == f.address && last.lib_index == f.lib_index
        } else {
            false
        };
        if !repeats {
            out.push(f);
            proof {
                assert forall|a: int, b: int|
                    #![trigger out@[a], out@[b]]
                    0 <= a < b < out@.len() implies frame_le(out@[a], out@[b]) && out@[a]
                    != out@[b] by {
                    if b == out@.len() - 1 {
                        assert(frames@[i - 1].ranks(&frames@[i as int]));
                        if a < before.len() - 1 {
                            assert(frame_le(before[a], before[before.len() - 1]));
                            assert(before[a] != before[before.len() - 1]);
                        }
                    } else {
                        assert(before[a] == out@[a] && before[b] == out@[b]);
                    }
                }
                assert(out@[out@.len() - 1] == f);
                assert forall|k: int| 0 <= k < i + 1 implies out@.contains(
                    #[trigger] frames@[k],
                ) by {
                    if k < i {
                        let at = choose|at: int| 0 <= at < before.len() && before[at] == frames@[k];
                        assert(out@[at] == frames@[k]);
                    }
                }
            }
        } else {
            assert(out@[out@.len() - 1] == f);
        }
        i = i + 1;
    }
    proof {
        assert forall|f: AddressFrame| #[trigger] out@.contains(f) implies frames@.contains(f) by {
            let k = choose|k: int| 0 <= k < out@.len() && out@[k] == f;
            assert(frames@.contains(out@[k]));
        }
        assert forall|f: AddressFrame| #[trigger] frames@.contains(f) implies out@.contains(f) by {
            let k = choose|k: int| 0 <= k < frames@.len() && frames@[k] == f;
            assert(out@.contains(frames@[k]));
        }
    }
    out
}

/// Whether `unique` holds the frames of `all`, each once and in order.
pub open spec fn unique_frames(unique: Seq<AddressFrame>, all: Seq<AddressFrame>) -> bool {
    &&& strictly_sorted(unique)
    &&& forall|f: AddressFrame| #[trigger] unique.contains(f) <==> all.contains(f)
}

/// Sorts frames and drops repetitions.
pub fn sort_unique(frames: Vec<AddressFrame>) -> (r: Vec<AddressFrame>)
    ensures
        unique_frames(r@, frames@),
{
    let ghost all = frames@;
    let in_order = merge_sort(frames);
    let unique = dedup(&in_order);
    proof {
        all.to_multiset_ensures();
        in_order@.to_multiset_ensures();
        assert forall|f: AddressFrame| #[trigger] unique@.contains(f) <==> all.contains(f) by {
            assert(in_order@.contains(f) <==> in_order@.to_multiset().count(f) > 0);
            assert(all.contains(f) <==> all.to_multiset().count(f) > 0);
        }
    }
    unique
}

impl CallTree {
    /// Collects every frame that the thread's samples refer to, if the tables
    /// hold the entries they claim and the stacks end.
    pub fn try_collect_addresses(thread: &Thread) -> (r: Option<
        Result<Vec<AddressFrame>, TableError>,
    >)
        ensures
            match r {
                None => thread.all_frames() is None,
                Some(Err(e)) => thread.all_frames() == Some(Err::<Seq<AddressFrame>, TableError>(e)),
                Some(Ok(v)) => thread.all_frames() matches Some(Ok(all)) && unique_frames(v@, all),
            },
    {
        let mut out: Vec<AddressFrame> = Vec::new();
        let mut i: usize = 0;
        while i < thread.samples.length
            invariant
                i <= thread.samples.length,
                thread.frames(i as nat) == Some(Ok::<Seq<AddressFrame>, TableError>(out@)),
            decreases thread.samples.length - i,
        {
            proof {
                if !(thread.frames((i + 1) as nat) matches Some(Ok(_))) {
                    lemma_frames_stay(*thread, (i + 1) as nat, thread.samples.length as nat);
                }
            }
            if i >= thread.samples.stack.len() {
                return None;
            }
            if let Some(stack) = thread.samples.stack[i] {
                match thread.try_address_stack(stack) {
                    None => {
                        return None;
                    },
                    Some(Err(e)) => {
                        return Some(Err(e));
                    },
                    Some(Ok(addrs)) => {
                        let mut addrs = addrs;
                        out.append(&mut addrs);
                    },
                }
            }
            i = i + 1;
        }
        Some(Ok(sort_unique(out)))
    }

    /// Collects every frame that the thread's samples refer to.
    pub fn collect_addresses(thread: &Thread) -> (r: Result<Vec<AddressFrame>, TableError>)
        requires
            thread.all_frames() is Some,
        ensures
            match r {
                Err(e) => thread.all_frames() == Some(Err::<Seq<AddressFrame>, TableError>(e)),
                Ok(v) => thread.all_frames() matches Some(Ok(all)) && unique_frames(v@, all),
            },
    {
        CallTree::try_collect_addresses(thread).unwrap()
    }
}

} // verus!
