//! The kernel's list of tasks, each under the id it was given when it was
//! added: ids count up from 1 and are never given twice.
use vstd::prelude::*;
use std::collections::BTreeMap;

verus! {

broadcast use {vstd::std_specs::btree::group_btree_axioms, vstd::laws_cmp::group_laws_cmp};

/// The tasks by id, and the id the next task gets.
pub struct TaskList<T> {
    map: BTreeMap<u64, T>,
    next_id: u64,
}

impl<T> TaskList<T> {
    /// The tasks by id.
    pub closed spec fn tasks(&self) -> Map<u64, T> {
        self.map@
    }

    /// The id the next task gets.
    pub closed spec fn next(&self) -> u64 {
        self.next_id
    }

    /// Every id in use is below the next one, and ids start at 1.
    pub closed spec fn wf(&self) -> bool {
        &&& self.next_id >= 1
        &&& forall|k: u64| self.map@.contains_key(k) ==> 1 <= k < self.next_id
    }

    /// A list with no task, whose first id is 1.
    pub fn new() -> (r: Self)
        ensures
            r.wf(),
            r.tasks() == Map::<u64, T>::empty(),
            r.next() == 1,
    {
        TaskList { map: BTreeMap::new(), next_id: 1 }
    }

    /// Adds `task` under the next id, which it returns.
    pub fn insert(&mut self, task: T) -> (r: u64)
        requires
            old(self).wf(),
            old(self).next() < u64::MAX,
        ensures
            final(self).wf(),
            r == old(self).next(),
            !old(self).tasks().contains_key(r),
            final(self).tasks() == old(self).tasks().insert(r, task),
            final(self).next() == old(self).next() + 1,
    {
        let tid = self.next_id;
        self.next_id = self.next_id + 1;
        self.map.insert(tid, task);
        tid
    }

    /// Adds the task `f` makes for the next id, under that id, which it
    /// returns.
    pub fn insert_with<F: FnOnce(u64) -> T>(&mut self, f: F) -> (r: u64)
        requires
            old(self).wf(),
            old(self).next() < u64::MAX,
            f.requires((old(self).next(),)),
        ensures
            final(self).wf(),
            r == old(self).next(),
            !old(self).tasks().contains_key(r),
            exists|task: T| f.ensures((r,), task) && final(self).tasks() == old(self).tasks().insert(r, task),
            final(self).next() == old(self).next() + 1,
    {
        let tid = self.next_id;
        self.next_id = self.next_id + 1;
        let task = f(tid);
        self.map.insert(tid, task);
        tid
    }

    /// Takes out the task with id `tid`, if there is one.
    pub fn remove(&mut self, tid: u64) -> (r: Option<T>)
        requires
            old(self).wf(),
        ensures
            final(self).wf(),
            final(self).next() == old(self).next(),
            final(self).tasks() == old(self).tasks().remove(tid),
            match r {
                Some(t) => old(self).tasks().contains_key(tid) && t == old(self).tasks()[tid],
                None => !old(self).tasks().contains_key(tid),
            },
    {
        self.map.remove(&tid)
    }

    /// The task with id `tid`, if there is one.
    pub fn get(&self, tid: u64) -> (r: Option<&T>)
        ensures
            match r {
                Some(t) => self.tasks().contains_key(tid) && *t == self.tasks()[tid],
                None => !self.tasks().contains_key(tid),
            },
    {
        self.map.get(&tid)
    }
}

/// Ids are never given twice: after any run of inserts and removes, the
/// next id is above every id in use, so the next insert gets a fresh one.
pub proof fn lemma_ids_are_fresh<T>(list: TaskList<T>)
    requires
        list.wf(),
    ensures
        !list.tasks().contains_key(list.next()),
        forall|k: u64| list.tasks().contains_key(k) ==> k < list.next(),
{
}

} // verus!
