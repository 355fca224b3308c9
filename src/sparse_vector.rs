//! A fixed-capacity vector that stores only the slots that were set.

use vstd::prelude::*;
use std::collections::BTreeMap;

verus! {

broadcast use vstd::std_specs::btree::group_btree_axioms, vstd::laws_cmp::group_laws_cmp;

/// A vector of `capacity` slots that stores only the slots that were set; unset
/// slots read as the default value, if there is one.
pub struct SparseVector<T> {
    data: BTreeMap<usize, T>,
    capacity: usize,
    default_value: Option<T>,
}

impl<T> SparseVector<T> {
    pub closed spec fn stored(&self) -> Map<usize, T> {
        self.data@
    }

    pub closed spec fn capacity_spec(&self) -> usize {
        self.capacity
    }

    pub closed spec fn default_spec(&self) -> Option<T> {
        self.default_value
    }

    /// Stored slots all lie below the capacity.
    pub closed spec fn wf(&self) -> bool {
        forall|i: usize| #[trigger] self.data@.contains_key(i) ==> i < self.capacity
    }

    pub fn new(capacity: usize) -> (r: SparseVector<T>)
        ensures
            r.wf(),
            r.stored() == Map::<usize, T>::empty(),
            r.capacity_spec() == capacity,
            r.default_spec().is_none(),
    {
        SparseVector { data: BTreeMap::new(), capacity, default_value: None }
    }

    pub fn with_default(capacity: usize, default: T) -> (r: SparseVector<T>)
        ensures
            r.wf(),
            r.stored() == Map::<usize, T>::empty(),
            r.capacity_spec() == capacity,
            r.default_spec() == Some(default),
    {
        SparseVector { data: BTreeMap::new(), capacity, default_value: Some(default) }
    }

    /// The value at `index`: the stored one, else the default; `None` past the capacity.
    pub fn get(&self, index: usize) -> (r: Option<&T>)
        ensures
            index >= self.capacity_spec() ==> r.is_none(),
            index < self.capacity_spec() && self.stored().contains_key(index) ==> r == Some(&self.stored()[index]),
            index < self.capacity_spec() && !self.stored().contains_key(index) ==> r == match self.default_spec() {
                Some(d) => Some(&d),
                None => None,
            },
    {
        if index >= self.capacity {
            return None;
        }
        match self.data.get(&index) {
            Some(v) => Some(v),
            None => match &self.default_value {
                Some(d) => Some(d),
                None => None,
            },
        }
    }

    /// Stores `value` at `index` and returns what was stored there before; an error,
    /// changing nothing, past the capacity.
    pub fn set(&mut self, index: usize, value: T) -> (r: Result<Option<T>, &'static str>)
        requires
            old(self).wf(),
        ensures
            final(self).wf(),
            final(self).capacity_spec() == old(self).capacity_spec(),
            final(self).default_spec() == old(self).default_spec(),
            index >= old(self).capacity_spec() ==> r.is_err() && final(self).stored() == old(self).stored(),
            index < old(self).capacity_spec() ==> {
                &&& final(self).stored() == old(self).stored().insert(index, value)
                &&& r == Ok::<Option<T>, &'static str>(if old(self).stored().contains_key(index) {
                    Some(old(self).stored()[index])
                } else {
                    None
                })
            },
    {
        if index >= self.capacity {
            return Err("Index out of bounds");
        }
        Ok(self.data.insert(index, value))
    }

    /// Number of slots: the capacity when unset slots have a default, else the number
    /// stored.
    pub fn len(&self) -> (r: usize)
        ensures
            self.default_spec().is_some() ==> r == self.capacity_spec(),
            self.default_spec().is_none() ==> r == self.stored().len(),
    {
        if self.default_value.is_some() {
            self.capacity
        } else {
            self.data.len()
        }
    }

    pub fn is_empty(&self) -> (r: bool)
        ensures
            r == (self.stored().len() == 0 && self.default_spec().is_none()),
    {
        self.data.is_empty() && self.default_value.is_none()
    }

    pub fn capacity(&self) -> (r: usize)
        ensures
            r == self.capacity_spec(),
    {
        self.capacity
    }
}

} // verus!
