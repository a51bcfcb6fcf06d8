//! Chains of stacks: a chain that ends at all ends within the table's length.

use vstd::prelude::*;

use crate::profile::{as_index, Thread};

verus! {

/// Whether the stack at `at` resolves to a frame and lies on another stack.
spec fn goes_on(t: Thread, at: usize) -> bool {
    &&& at < t.stack_table.length
    &&& at < t.stack_table.frame@.len()
    &&& t.frame_outcome(as_index(t.stack_table.frame@[at as int])) matches Some(Ok(_))
    &&& at < t.stack_table.prefix@.len()
    &&& t.stack_table.prefix@[at as int] is Some
}

spec fn below(t: Thread, at: usize) -> i32 {
    t.stack_table.prefix@[at as int]->0
}

/// The stack that is reached from `i` after `k` steps.
spec fn reached(t: Thread, i: i32, k: nat) -> i32
    decreases k,
{
    if k == 0 {
        i
    } else {
        below(t, as_index(reached(t, i, (k - 1) as nat)))
    }
}

proof fn lemma_reached_step(t: Thread, i: i32, k: nat)
    ensures
        reached(t, below(t, as_index(i)), k) == reached(t, i, k + 1),
    decreases k,
{
    if k == 0 {
        assert(reached(t, i, 1) == below(t, as_index(reached(t, i, 0))));
    } else {
        lemma_reached_step(t, i, (k - 1) as nat);
    }
}

/// While the chain goes on, `fuel` stacks are not enough.
proof fn lemma_goes_on(t: Thread, i: i32, fuel: nat)
    requires
        forall|k: nat| k < fuel ==> goes_on(t, as_index(#[trigger] reached(t, i, k))),
    ensures
        t.walk(Some(i), fuel) is None,
    decreases fuel,
{
    if fuel > 0 {
        assert(goes_on(t, as_index(reached(t, i, 0))));
        let n = below(t, as_index(i));
        assert forall|k: nat| k < fuel - 1 implies goes_on(
            t,
            as_index(#[trigger] reached(t, n, k)),
        ) by {
            lemma_reached_step(t, i, k);
        }
        lemma_goes_on(t, n, (fuel - 1) as nat);
    }
}

/// Where the chain stops after `k` steps, more fuel changes nothing.
proof fn lemma_stops(t: Thread, i: i32, k: nat, f: nat, g: nat)
    requires
        k < f,
        k < g,
        !goes_on(t, as_index(reached(t, i, k))),
        forall|m: nat| m < k ==> goes_on(t, as_index(#[trigger] reached(t, i, m))),
    ensures
        t.walk(Some(i), f) == t.walk(Some(i), g),
    decreases k,
{
    let at = as_index(i);
    assert(reached(t, i, 0) == i);
    if k == 0 {
        assert(t.walk(None, (f - 1) as nat) == t.walk(None, (g - 1) as nat));
    } else {
        let n = below(t, at);
        assert(goes_on(t, as_index(reached(t, i, 0))));
        lemma_reached_step(t, i, (k - 1) as nat);
        assert forall|m: nat| m < k - 1 implies goes_on(
            t,
            as_index(#[trigger] reached(t, n, m)),
        ) by {
            lemma_reached_step(t, i, m);
        }
        lemma_stops(t, n, (k - 1) as nat, (f - 1) as nat, (g - 1) as nat);
    }
}

/// From equal places the chain goes on equally.
proof fn lemma_repeats(t: Thread, i: i32, a: nat, b: nat, m: nat)
    requires
        as_index(reached(t, i, a)) == as_index(reached(t, i, b)),
    ensures
        as_index(reached(t, i, a + m)) == as_index(reached(t, i, b + m)),
    decreases m,
{
    if m > 0 {
        lemma_repeats(t, i, a, b, (m - 1) as nat);
    }
}

/// A chain visits each stack once before it stops.
proof fn lemma_steps_bounded(t: Thread, i: i32, k: nat)
    requires
        !goes_on(t, as_index(reached(t, i, k))),
        forall|m: nat| m < k ==> goes_on(t, as_index(#[trigger] reached(t, i, m))),
    ensures
        k <= t.stack_table.length,
{
    let visited = Seq::new(k, |m: int| as_index(reached(t, i, m as nat)) as int);
    assert(visited.no_duplicates()) by {
        assert forall|a: int, b: int|
            0 <= a < visited.len() && 0 <= b < visited.len() && a != b implies visited[a]
            != visited[b] by {
            if visited[a] == visited[b] {
                let (lo, hi) = if a < b {
                    (a as nat, b as nat)
                } else {
                    (b as nat, a as nat)
                };
                lemma_repeats(t, i, lo, hi, (k - hi) as nat);
                assert(goes_on(t, as_index(reached(t, i, (lo + (k - hi)) as nat))));
                assert(hi + (k - hi) == k);
            }
        }
    }
    let range = vstd::set_lib::set_int_range(0, t.stack_table.length as int);
    vstd::set_lib::lemma_int_range(0, t.stack_table.length as int);
    visited.unique_seq_to_set();
    assert(visited.to_set().subset_of(range)) by {
        assert forall|x: int| visited.to_set().contains(x) implies range.contains(x) by {
            let m = choose|m: int| 0 <= m < visited.len() && visited[m] == x;
            assert(goes_on(t, as_index(reached(t, i, m as nat))));
        }
    }
    vstd::set_lib::lemma_len_subset(visited.to_set(), range);
}

/// A stack that resolves within any number of steps resolves within one step
/// more than the table has stacks, and to the same: what takes longer lies
/// upon itself and never ends.
pub proof fn law_stack_ends_within_table(t: Thread, stack_idx: i32, fuel: nat)
    requires
        t.walk(Some(stack_idx), fuel) is Some,
    ensures
        t.stack_outcome(stack_idx) == t.walk(Some(stack_idx), fuel),
{
    if forall|k: nat| k < fuel ==> goes_on(t, as_index(#[trigger] reached(t, stack_idx, k))) {
        lemma_goes_on(t, stack_idx, fuel);
    }
    let k = choose|k: nat|
        k < fuel && !goes_on(t, as_index(#[trigger] reached(t, stack_idx, k)));
    lemma_first_stop(t, stack_idx, k);
    let first = choose|m: nat|
        m <= k && !goes_on(t, as_index(#[trigger] reached(t, stack_idx, m))) && forall|l: nat|
            l < m ==> goes_on(t, as_index(#[trigger] reached(t, stack_idx, l)));
    lemma_steps_bounded(t, stack_idx, first);
    lemma_stops(t, stack_idx, first, fuel, t.stack_table.length as nat + 1);
}

proof fn lemma_first_stop(t: Thread, i: i32, k: nat)
    requires
        !goes_on(t, as_index(reached(t, i, k))),
    ensures
        exists|m: nat|
            m <= k && !goes_on(t, as_index(#[trigger] reached(t, i, m))) && forall|l: nat|
                l < m ==> goes_on(t, as_index(#[trigger] reached(t, i, l))),
    decreases k,
{
    if exists|l: nat| l < k && !goes_on(t, as_index(#[trigger] reached(t, i, l))) {
        let l = choose|l: nat| l < k && !goes_on(t, as_index(#[trigger] reached(t, i, l)));
        lemma_first_stop(t, i, l);
    }
}

} // verus!
