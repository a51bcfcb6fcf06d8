//! Sets of node paths.

use vstd::prelude::*;

use crate::tree::NodePath;

verus! {

/// Copies a path.
pub fn copy_path(path: &[usize]) -> (r: NodePath)
    ensures
        r@ == path@,
{
    let mut r: Vec<usize> = Vec::with_capacity(path.len());
    let mut i: usize = 0;
    while i < path.len()
        invariant
            i <= path@.len(),
            r@ == path@.take(i as int),
        decreases path@.len() - i,
    {
        r.push(path[i]);
        i = i + 1;
        assert(r@ =~= path@.take(i as int));
    }
    assert(r@ =~= path@);
    r
}

/// Whether two paths are the same.
pub fn same_path(a: &[usize], b: &[usize]) -> (r: bool)
    ensures
        r == (a@ == b@),
{
    if a.len() != b.len() {
        return false;
    }
    starts_with(a, b)
}

/// Whether the first path goes through the end of the second.
pub fn starts_with(a: &[usize], b: &[usize]) -> (r: bool)
    ensures
        r == b@.is_prefix_of(a@),
        a@.len() == b@.len() ==> r == (a@ == b@),
{
    if a.len() < b.len() {
        return false;
    }
    let mut i: usize = 0;
    while i < b.len()
        invariant
            i <= b@.len() <= a@.len(),
            forall|k: int| 0 <= k < i ==> a@[k] == b@[k],
        decreases b@.len() - i,
    {
        if a[i] != b[i] {
            assert(a@.subrange(0, b@.len() as int)[i as int] != b@[i as int]);
            return false;
        }
        i = i + 1;
    }
    assert(b@ =~= a@.subrange(0, b@.len() as int));
    assert(a@.len() == b@.len() ==> a@ =~= b@);
    true
}

/// Whether `p` leads to a node below the one that `above` leads to.
pub open spec fn is_below(p: Seq<usize>, above: Seq<usize>) -> bool {
    above.is_prefix_of(p) && p.len() > above.len()
}

/// A set of node paths.
#[derive(Debug)]
pub struct PathSet {
    paths: Vec<NodePath>,
}

impl View for PathSet {
    type V = Set<Seq<usize>>;

    closed spec fn view(&self) -> Set<Seq<usize>> {
        Set::new(|p: Seq<usize>| holds(self.paths@, p))
    }
}

impl PathSet {
    /// The empty set.
    pub fn new() -> (r: Self)
        ensures
            r@ == Set::<Seq<usize>>::empty(),
    {
        let r = PathSet { paths: Vec::new() };
        assert(r@ =~= Set::empty());
        r
    }

    /// Whether the set holds a path.
    pub fn contains(&self, path: &[usize]) -> (r: bool)
        ensures
            r == self@.contains(path@),
    {
        let mut i: usize = 0;
        while i < self.paths.len()
            invariant
                i <= self.paths@.len(),
                forall|k: int| 0 <= k < i ==> (#[trigger] self.paths@[k])@ != path@,
            decreases self.paths@.len() - i,
        {
            if same_path(self.paths[i].as_slice(), path) {
                return true;
            }
            i = i + 1;
        }
        false
    }

    /// Puts a path into the set.
    pub fn insert(&mut self, path: NodePath)
        ensures
            final(self)@ == old(self)@.insert(path@),
    {
        if !self.contains(path.as_slice()) {
            let ghost before = self.paths@;
            let ghost p = path@;
            self.paths.push(path);
            assert forall|q: Seq<usize>| self@.contains(q) <==> old(self)@.insert(p).contains(q) by {
                if old(self)@.contains(q) {
                    let i = choose|i: int| 0 <= i < before.len() && before[i]@ == q;
                    assert(self.paths@[i]@ == q);
                }
                if q == p {
                    assert(self.paths@[before.len() as int]@ == q);
                }
            }
        }
        assert(self@ =~= old(self)@.insert(path@));
    }

    /// Takes a path out of the set.
    pub fn remove(&mut self, path: &[usize])
        ensures
            final(self)@ == old(self)@.remove(path@),
    {
        let mut kept: Vec<NodePath> = Vec::new();
        let mut i: usize = 0;
        while i < self.paths.len()
            invariant
                i <= self.paths@.len(),
                self.paths@ == old(self).paths@,
                forall|q: Seq<usize>|
                    holds(kept@, q) <==> #[trigger] holds(self.paths@.take(i as int), q) && q
                        != path@,
            decreases self.paths@.len() - i,
        {
            let ghost before = kept@;
            proof {
                lemma_holds_step(self.paths@, i as int);
            }
            if !same_path(self.paths[i].as_slice(), path) {
                kept.push(copy_path(self.paths[i].as_slice()));
                proof {
                    lemma_holds_push(before, kept@[before.len() as int]);
                    assert(kept@ =~= before.push(kept@[before.len() as int]));
                }
            }
            proof {
                assert forall|q: Seq<usize>|
                    holds(kept@, q) <==> #[trigger] holds(self.paths@.take(i + 1), q) && q != path@ by {
                    let had = holds(self.paths@.take(i as int), q);
                    assert(holds(before, q) <==> had && q != path@);
                }
            }
            i = i + 1;
        }
        assert(self.paths@.take(i as int) =~= self.paths@);
        assert forall|q: Seq<usize>| holds(kept@, q) <==> old(self)@.remove(path@).contains(q) by {
            assert(holds(self.paths@, q) <==> old(self)@.contains(q));
        }
        self.paths = kept;
        assert(self@ =~= old(self)@.remove(path@));
    }

    /// Takes out every path to a node below the one that `path` leads to.
    pub fn clear_below(&mut self, path: &[usize])
        ensures
            final(self)@ == old(self)@.filter(|p: Seq<usize>| !is_below(p, path@)),
    {
        let ghost keeps = |p: Seq<usize>| !is_below(p, path@);
        let mut kept: Vec<NodePath> = Vec::new();
        let mut i: usize = 0;
        while i < self.paths.len()
            invariant
                i <= self.paths@.len(),
                self.paths@ == old(self).paths@,
                forall|q: Seq<usize>|
                    holds(kept@, q) <==> #[trigger] holds(self.paths@.take(i as int), q)
                        && !is_below(q, path@),
            decreases self.paths@.len() - i,
        {
            let ghost before = kept@;
            proof {
                lemma_holds_step(self.paths@, i as int);
            }
            let below: bool = starts_with(self.paths[i].as_slice(), path) && self.paths[i].len()
                > path.len();
            if !below {
                kept.push(copy_path(self.paths[i].as_slice()));
                proof {
                    lemma_holds_push(before, kept@[before.len() as int]);
                    assert(kept@ =~= before.push(kept@[before.len() as int]));
                }
            }
            proof {
                assert forall|q: Seq<usize>|
                    holds(kept@, q) <==> #[trigger] holds(self.paths@.take(i + 1), q)
                        && !is_below(q, path@) by {
                    let had = holds(self.paths@.take(i as int), q);
                    assert(holds(before, q) <==> had && !is_below(q, path@));
                }
            }
            i = i + 1;
        }
        assert(self.paths@.take(i as int) =~= self.paths@);
        assert forall|q: Seq<usize>| holds(kept@, q) <==> old(self)@.filter(keeps).contains(q) by {
            assert(holds(self.paths@, q) <==> old(self)@.contains(q));
        }
        self.paths = kept;
        assert(self@ =~= old(self)@.filter(keeps));
    }
}

/// Whether a list holds a path.
spec fn holds(paths: Seq<NodePath>, q: Seq<usize>) -> bool {
    exists|i: int| 0 <= i < paths.len() && (#[trigger] paths[i])@ == q
}

proof fn lemma_holds_push(paths: Seq<NodePath>, p: NodePath)
    ensures
        forall|q: Seq<usize>| #[trigger] holds(paths.push(p), q) <==> holds(paths, q) || p@ == q,
{
    let more = paths.push(p);
    assert forall|q: Seq<usize>| #[trigger] holds(more, q) <==> holds(paths, q) || p@ == q by {
        if holds(paths, q) {
            let i = choose|i: int| 0 <= i < paths.len() && (#[trigger] paths[i])@ == q;
            assert(more[i]@ == q);
        }
        if p@ == q {
            assert(more[paths.len() as int]@ == q);
        }
        if holds(more, q) && p@ != q {
            let i = choose|i: int| 0 <= i < more.len() && (#[trigger] more[i])@ == q;
            assert(paths[i]@ == q);
        }
    }
}

proof fn lemma_holds_step(paths: Seq<NodePath>, i: int)
    requires
        0 <= i < paths.len(),
    ensures
        forall|q: Seq<usize>| #[trigger]
            holds(paths.take(i + 1), q) <==> holds(paths.take(i), q) || paths[i]@ == q,
{
    lemma_holds_push(paths.take(i), paths[i]);
    assert(paths.take(i + 1) =~= paths.take(i).push(paths[i]));
}

} // verus!
