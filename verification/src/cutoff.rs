//! The share of samples below which a node is not shown, as a sample count.

use vstd::prelude::*;

verus! {

/// A least percentage, told in samples of one tree.
///
/// The percentage of a count grows with the count, so the counts that reach a
/// percentage are those from some count on.
#[derive(Debug, Clone, Copy, PartialEq, Eq)]
pub enum Cutoff {
    /// Counts from this one on reach the percentage.
    AtLeast(u64),
    /// No count reaches the percentage.
    Unreachable,
    /// The percentage is not a number: no count reaches it, and none falls
    /// below it either.
    NotANumber,
}

/// Whether `says` is what the test answers for every count.
pub open spec fn answers<F: Fn(u64) -> bool>(test: F, says: spec_fn(u64) -> bool) -> bool {
    forall|t: u64, b: bool| #[trigger] call_ensures(test, (t,), b) ==> b == says(t)
}

/// What holds of a count holds of every larger one.
pub open spec fn upward(says: spec_fn(u64) -> bool) -> bool {
    forall|s: u64, t: u64| #![trigger says(s), says(t)] s <= t && says(s) ==> says(t)
}

impl Cutoff {
    /// Whether a count falls below the percentage.
    pub open spec fn hides(self, total: nat) -> bool {
        match self {
            Cutoff::AtLeast(m) => total < m,
            Cutoff::Unreachable => true,
            Cutoff::NotANumber => false,
        }
    }

    /// Whether a count reaches the percentage.
    pub open spec fn admits(self, total: nat) -> bool {
        match self {
            Cutoff::AtLeast(m) => total >= m,
            Cutoff::Unreachable => false,
            Cutoff::NotANumber => false,
        }
    }

    /// Whether a count falls below the percentage.
    pub fn is_below(&self, total: u64) -> (r: bool)
        ensures
            r == self.hides(total as nat),
    {
        match *self {
            Cutoff::AtLeast(m) => total < m,
            Cutoff::Unreachable => true,
            Cutoff::NotANumber => false,
        }
    }

    /// Whether a count reaches the percentage.
    pub fn is_reached(&self, total: u64) -> (r: bool)
        ensures
            r == self.admits(total as nat),
    {
        match *self {
            Cutoff::AtLeast(m) => total >= m,
            Cutoff::Unreachable => false,
            Cutoff::NotANumber => false,
        }
    }

    /// Finds the least count that passes the test. For a test that every count
    /// above a passing one passes too, the cutoff says of each count what the
    /// test says.
    pub fn find<F: Fn(u64) -> bool>(test: F) -> (r: Cutoff)
        requires
            forall|t: u64| #[trigger] call_requires(test, (t,)),
        ensures
            match r {
                Cutoff::AtLeast(m) => {
                    &&& call_ensures(test, (m,), true)
                    &&& m > 0 ==> call_ensures(test, ((m - 1) as u64,), false)
                },
                Cutoff::Unreachable => call_ensures(test, (u64::MAX,), false),
                Cutoff::NotANumber => false,
            },
            forall|says: spec_fn(u64) -> bool| #[trigger]
                answers(test, says) && upward(says) ==> forall|t: u64| #[trigger]
                    says(t) == r.admits(t as nat) && says(t) == !r.hides(t as nat),
    {
        if !test(u64::MAX) {
            proof {
                assert forall|says: spec_fn(u64) -> bool| #[trigger]
                    answers(test, says) && upward(says) implies forall|t: u64| !#[trigger] says(
                    t,
                ) by {
                    assert(!says(u64::MAX));
                }
            }
            return Cutoff::Unreachable;
        }
        let mut lo: u64 = 0;
        let mut hi: u64 = u64::MAX;
        while lo < hi
            invariant
                lo <= hi,
                forall|t: u64| #[trigger] call_requires(test, (t,)),
                call_ensures(test, (hi,), true),
                lo > 0 ==> call_ensures(test, ((lo - 1) as u64,), false),
            decreases hi - lo,
        {
            let mid: u64 = lo + (hi - lo) / 2;
            if test(mid) {
                hi = mid;
            } else {
                lo = mid + 1;
            }
        }
        proof {
            assert forall|says: spec_fn(u64) -> bool| #[trigger]
                answers(test, says) && upward(says) implies forall|t: u64| #[trigger]
                says(t) == (t >= lo) by {
                assert(says(lo));
                if lo > 0 {
                    assert(!says((lo - 1) as u64));
                }
            }
        }
        Cutoff::AtLeast(lo)
    }
}

} // verus!
