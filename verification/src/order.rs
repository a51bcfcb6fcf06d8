//! Sorting by a total preorder.

use vstd::prelude::*;
use vstd::seq_lib::*;

verus! {

/// A type whose values are put in order by a total preorder.
pub trait Ranked: Sized {
    /// Whether `self` may stand before `other` in sorted order.
    spec fn ranks(&self, other: &Self) -> bool;

    proof fn ranks_total(a: Self, b: Self)
        ensures
            a.ranks(&b) || b.ranks(&a),
    ;

    proof fn ranks_transitive(a: Self, b: Self, c: Self)
        requires
            a.ranks(&b),
            b.ranks(&c),
        ensures
            a.ranks(&c),
    ;

    fn may_precede(&self, other: &Self) -> (r: bool)
        ensures
            r == self.ranks(other),
    ;
}

/// Every element may stand before every later one.
pub open spec fn sorted<T: Ranked>(s: Seq<T>) -> bool {
    forall|i: int, j: int| #![trigger s[i], s[j]] 0 <= i < j < s.len() ==> s[i].ranks(&s[j])
}

/// Reads a vector from back to front.
fn reversed<T>(v: Vec<T>) -> (r: Vec<T>)
    ensures
        r@ == v@.reverse(),
        r@.to_multiset() == v@.to_multiset(),
{
    broadcast use group_to_multiset_ensures;

    let mut v = v;
    let mut r: Vec<T> = Vec::with_capacity(v.len());
    let ghost whole = v@;
    assert(v@.to_multiset().add(r@.to_multiset()) =~= whole.to_multiset());
    while v.len() > 0
        invariant
            v@.len() + r@.len() == whole.len(),
            v@ == whole.take(v@.len() as int),
            forall|k: int| 0 <= k < r@.len() ==> r@[k] == whole[whole.len() - 1 - k],
            v@.to_multiset().add(r@.to_multiset()) == whole.to_multiset(),
        decreases v@.len(),
    {
        let ghost before = v@;
        let ghost r0 = r@;
        match v.pop() {
            Some(x) => {
                r.push(x);
                proof {
                    assert(before =~= v@.push(x));
                    v@.to_multiset_ensures();
                    r0.to_multiset_ensures();
                    assert(before.to_multiset() == v@.push(x).to_multiset());
                    assert(r@.to_multiset() == r0.push(x).to_multiset());
                }
                assert(v@.to_multiset().add(r@.to_multiset()) =~= before.to_multiset().add(
                    r0.to_multiset(),
                ));
            },
            None => {},
        }
    }
    assert(v@.to_multiset().add(r@.to_multiset()) =~= r@.to_multiset());
    assert(r@ =~= whole.reverse());
    r
}

/// Merges two sorted vectors.
fn merge<T: Ranked>(a: Vec<T>, b: Vec<T>) -> (r: Vec<T>)
    requires
        sorted(a@),
        sorted(b@),
    ensures
        sorted(r@),
        r@.to_multiset() == a@.to_multiset().add(b@.to_multiset()),
{
    broadcast use group_to_multiset_ensures;

    let mut a = a;
    let mut b = b;
    let ghost whole = a@.to_multiset().add(b@.to_multiset());
    let mut down: Vec<T> = Vec::with_capacity(0);
    assert(whole =~= a@.to_multiset().add(b@.to_multiset()).add(down@.to_multiset()));
    while a.len() > 0 || b.len() > 0
        invariant
            sorted(a@),
            sorted(b@),
            whole == a@.to_multiset().add(b@.to_multiset()).add(down@.to_multiset()),
            forall|i: int, j: int|
                #![trigger down@[i], down@[j]]
                0 <= i < j < down@.len() ==> down@[j].ranks(&down@[i]),
            forall|i: int, j: int|
                #![trigger a@[i], down@[j]]
                0 <= i < a@.len() && 0 <= j < down@.len() ==> a@[i].ranks(&down@[j]),
            forall|i: int, j: int|
                #![trigger b@[i], down@[j]]
                0 <= i < b@.len() && 0 <= j < down@.len() ==> b@[i].ranks(&down@[j]),
        decreases a@.len() + b@.len(),
    {
        let ghost a0 = a@;
        let ghost b0 = b@;
        let ghost d0 = down@;
        let from_b: bool = if a.len() == 0 {
            true
        } else if b.len() == 0 {
            false
        } else {
            a[a.len() - 1].may_precede(&b[b.len() - 1])
        };
        let next = if from_b {
            b.pop()
        } else {
            a.pop()
        };
        match next {
            Some(x) => {
                proof {
                    if from_b {
                        assert(b0 =~= b@.push(x));
                        b@.to_multiset_ensures();
                        assert(b0.to_multiset() == b@.push(x).to_multiset());
                        assert forall|i: int| 0 <= i < a@.len() implies (#[trigger] a@[i]).ranks(&x) by {
                            if i < a0.len() - 1 {
                                T::ranks_transitive(a0[i], a0[a0.len() - 1], x);
                            }
                        }
                        assert(forall|i: int| 0 <= i < b@.len() ==> b@[i] == b0[i]);
                    } else {
                        assert(a0 =~= a@.push(x));
                        a@.to_multiset_ensures();
                        assert(a0.to_multiset() == a@.push(x).to_multiset());
                        if b0.len() > 0 {
                            T::ranks_total(x, b0[b0.len() - 1]);
                        }
                        assert forall|i: int| 0 <= i < b@.len() implies (#[trigger] b@[i]).ranks(&x) by {
                            if i < b0.len() - 1 {
                                T::ranks_transitive(b0[i], b0[b0.len() - 1], x);
                            }
                        }
                        assert(forall|i: int| 0 <= i < a@.len() ==> a@[i] == a0[i]);
                    }
                }
                down.push(x);
                proof {
                    d0.to_multiset_ensures();
                    assert(down@.to_multiset() == d0.push(x).to_multiset());
                }
                assert(a@.to_multiset().add(b@.to_multiset()).add(down@.to_multiset())
                    =~= a0.to_multiset().add(b0.to_multiset()).add(d0.to_multiset()));
            },
            None => {},
        }
    }
    assert(whole =~= down@.to_multiset());
    reversed(down)
}

/// Sorts a vector; the elements stay the same.
pub fn merge_sort<T: Ranked>(v: Vec<T>) -> (r: Vec<T>)
    ensures
        sorted(r@),
        r@.to_multiset() == v@.to_multiset(),
    decreases v@.len(),
{
    let mut v = v;
    if v.len() < 2 {
        return v;
    }
    let ghost whole = v@;
    let mid: usize = v.len() / 2;
    let right = v.split_off(mid);
    proof {
        assert(whole =~= v@ + right@);
        lemma_multiset_commutative(v@, right@);
    }
    let left = merge_sort(v);
    let right = merge_sort(right);
    merge(left, right)
}

} // verus!
