//! A task's capability space: the capabilities it holds, each under the
//! number user code names it by.
use vstd::prelude::*;
use std::collections::BTreeMap;
use vstd::std_specs::btree::increasing_seq;
use vstd::std_specs::cmp::OrdSpec;

verus! {

broadcast use {vstd::std_specs::btree::group_btree_axioms, vstd::laws_cmp::group_laws_cmp};

/// Minting under a number that is already taken fails.
#[derive(Debug, Clone, Copy, PartialEq, Eq, Structural)]
pub struct Occupied;

/// The capabilities of a task, each under its number.
pub struct CapabilitySpace<C> {
    inner: BTreeMap<u64, C>,
}

/// In a sequence of numbers that `increasing_seq` holds of, an earlier
/// number is smaller.
pub proof fn lemma_increasing_u64(ks: Seq<u64>, i: int, j: int)
    requires
        increasing_seq(ks),
        0 <= i < j < ks.len(),
    ensures
        ks[i] < ks[j],
{
    assert(OrdSpec::cmp_spec(&ks[i], &ks[j]) is Less);
}

impl<C> View for CapabilitySpace<C> {
    type V = Map<u64, C>;

    closed spec fn view(&self) -> Map<u64, C> {
        self.inner@
    }
}

impl<C> CapabilitySpace<C> {
    /// A space that holds nothing.
    pub fn new() -> (r: Self)
        ensures
            r@ == Map::<u64, C>::empty(),
    {
        CapabilitySpace { inner: BTreeMap::new() }
    }

    /// Puts `capability` under `cptr`, unless that number is taken.
    pub fn mint_with_id(&mut self, cptr: u64, capability: C) -> (r: Result<(), Occupied>)
        ensures
            old(self)@.contains_key(cptr) ==> r == Err::<(), Occupied>(Occupied) && final(self)@ == old(self)@,
            !old(self)@.contains_key(cptr) ==> r == Ok::<(), Occupied>(()) && final(self)@ == old(self)@.insert(
                cptr,
                capability,
            ),
    {
        if self.inner.contains_key(&cptr) {
            Err(Occupied)
        } else {
            self.inner.insert(cptr, capability);
            Ok(())
        }
    }

    /// The largest number in use plus one, or 0 for an empty space.
    fn fresh_number(&self) -> (r: u64)
        requires
            !self@.contains_key(u64::MAX),
        ensures
            !self@.contains_key(r),
            forall|k: u64| self@.contains_key(k) ==> k < r,
    {
        let mut max: Option<u64> = None;
        for k in it: self.inner.keys()
            invariant
                !self@.contains_key(u64::MAX),
                forall|key: u64|
                    self@.contains_key(key) ==> exists|j: int| 0 <= j < it.seq().len() && *it.seq()[j] == key,
                match max {
                    None => it.index() == 0,
                    Some(m) => {
                        &&& self@.contains_key(m)
                        &&& forall|j: int| 0 <= j < it.index() ==> *it.seq()[j] <= m
                    },
                },
        {
            proof {
                assert(it.seq().unref().to_set().contains(*k));
            }
            max = match max {
                None => Some(*k),
                Some(m) => if *k > m { Some(*k) } else { Some(m) },
            };
        }
        match max {
            None => 0,
            Some(m) => m + 1,
        }
    }

    /// Puts `capability` under a new number: the largest in use plus one,
    /// or 0 for an empty space.
    pub fn mint(&mut self, capability: C) -> (r: u64)
        requires
            !old(self)@.contains_key(u64::MAX),
        ensures
            !old(self)@.contains_key(r),
            forall|k: u64| old(self)@.contains_key(k) ==> k < r,
            final(self)@ == old(self)@.insert(r, capability),
    {
        let cptr = self.fresh_number();
        self.inner.insert(cptr, capability);
        cptr
    }

    /// Puts the capability `f` makes for the new number under it: the
    /// largest number in use plus one, or 0 for an empty space.
    pub fn mint_with<F: FnOnce(u64) -> C>(&mut self, f: F) -> (r: u64)
        requires
            !old(self)@.contains_key(u64::MAX),
            forall|c: u64| f.requires((c,)),
        ensures
            !old(self)@.contains_key(r),
            forall|k: u64| old(self)@.contains_key(k) ==> k < r,
            exists|c: C| f.ensures((r,), c) && final(self)@ == old(self)@.insert(r, c),
    {
        let cptr = self.fresh_number();
        let capability = f(cptr);
        self.inner.insert(cptr, capability);
        cptr
    }

    /// Every number in use with its capability, in increasing order.
    pub fn all(&self) -> (r: Vec<(u64, &C)>)
        ensures
            r@.len() == self@.dom().len(),
            forall|i: int| 0 <= i < r@.len() ==> #[trigger] self@.contains_key(r@[i].0) && *r@[i].1 == self@[r@[i].0],
            forall|i: int, j: int| 0 <= i < j < r@.len() ==> r@[i].0 < r@[j].0,
            forall|k: u64| self@.contains_key(k) ==> exists|i: int| 0 <= i < r@.len() && r@[i].0 == k,
    {
        let mut out: Vec<(u64, &C)> = Vec::new();
        for entry in it: self.inner.iter()
            invariant
                out@.len() == it.index(),
                forall|i: int| 0 <= i < it.index() ==> out@[i].0 == *it.seq()[i].0 && out@[i].1 == it.seq()[i].1,
                increasing_seq(it.seq().map_values(|kv: (&u64, &C)| *kv.0)),
                forall|i: int, j: int| 0 <= i < j < it.index() ==> out@[i].0 < out@[j].0,
        {
            proof {
                let ks = it.seq().map_values(|kv: (&u64, &C)| *kv.0);
                let n = it.index();
                assert forall|i: int| 0 <= i < n implies out@[i].0 < *entry.0 by {
                    assert(ks[i] == out@[i].0);
                    assert(ks[n] == *entry.0);
                    lemma_increasing_u64(ks, i, n);
                }
            }
            out.push((*entry.0, entry.1));
        }
        out
    }

    /// The capability under `cptr`, if any.
    pub fn resolve(&self, cptr: u64) -> (r: Option<&C>)
        ensures
            match r {
                Some(c) => self@.contains_key(cptr) && *c == self@[cptr],
                None => !self@.contains_key(cptr),
            },
    {
        self.inner.get(&cptr)
    }

    /// Takes out the capability under `cptr`, if any.
    pub fn remove(&mut self, cptr: u64) -> (r: Option<C>)
        ensures
            final(self)@ == old(self)@.remove(cptr),
            match r {
                Some(c) => old(self)@.contains_key(cptr) && c == old(self)@[cptr],
                None => !old(self)@.contains_key(cptr),
            },
    {
        self.inner.remove(&cptr)
    }
}


/// What `mint` or `mint_with_id` puts under a number, `resolve` finds there,
/// and `remove` takes back out, leaving the space as it was before when the
/// number was new.
pub proof fn lemma_mint_resolve_remove<C>(before: Map<u64, C>, cptr: u64, capability: C)
    ensures
        before.insert(cptr, capability).contains_key(cptr),
        before.insert(cptr, capability)[cptr] == capability,
        !before.contains_key(cptr) ==> before.insert(cptr, capability).remove(cptr) == before,
{
    if !before.contains_key(cptr) {
        assert(before.insert(cptr, capability).remove(cptr) =~= before);
    }
}

} // verus!
