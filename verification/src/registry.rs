//! Numbered handles for renderers owned on behalf of a foreign caller. Handle
//! 0 is never given out, so it can stand for failure.

use vstd::prelude::*;
use std::collections::HashMap;

verus! {

broadcast use vstd::std_specs::hash::group_hash_axioms;

/// The handle given out after `h`: the next number, wrapping from
/// `u32::MAX` back to 1.
pub open spec fn handle_after(h: u32) -> u32 {
    if h == u32::MAX {
        1
    } else {
        (h + 1) as u32
    }
}

/// Renderers by handle, and the handle the next one will get.
pub struct HandleRegistry<T> {
    entries: HashMap<u32, T>,
    next: u32,
}

impl<T> HandleRegistry<T> {
    #[verifier::type_invariant]
    spec fn well_formed(self) -> bool {
        self.next != 0
    }

    /// The stored values, by handle.
    pub closed spec fn spec_entries(&self) -> Map<u32, T> {
        self.entries@
    }

    /// The handle the next stored value gets.
    pub closed spec fn spec_next(&self) -> u32 {
        self.next
    }

    /// An empty registry; the first handle is 1.
    pub fn new() -> (r: Self)
        ensures
            r.spec_entries() == Map::<u32, T>::empty(),
            r.spec_next() == 1,
    {
        HandleRegistry { entries: HashMap::new(), next: 1 }
    }

    /// Stores `value` under the next handle, replacing any value already
    /// there, and returns that handle, which is never 0.
    pub fn insert(&mut self, value: T) -> (handle: u32)
        ensures
            handle == old(self).spec_next(),
            handle != 0,
            final(self).spec_next() == handle_after(handle),
            final(self).spec_entries() == old(self).spec_entries().insert(handle, value),
    {
        proof {
            use_type_invariant(&*self);
        }
        let handle = self.next;
        let mut entries = HashMap::new();
        std::mem::swap(&mut entries, &mut self.entries);
        entries.insert(handle, value);
        let next = if handle == u32::MAX {
            1
        } else {
            handle + 1
        };
        *self = HandleRegistry { entries, next };
        handle
    }

    /// Whether `handle` holds a value.
    pub fn contains(&self, handle: u32) -> (r: bool)
        ensures
            r == self.spec_entries().contains_key(handle),
    {
        self.entries.contains_key(&handle)
    }

    /// The value under `handle`, if any.
    pub fn get(&self, handle: u32) -> (r: Option<&T>)
        ensures
            match r {
                Some(v) => self.spec_entries().contains_key(handle) && self.spec_entries()[handle] == *v,
                None => !self.spec_entries().contains_key(handle),
            },
    {
        self.entries.get(&handle)
    }

    /// Removes and returns the value under `handle`, if any.
    pub fn remove(&mut self, handle: u32) -> (r: Option<T>)
        ensures
            final(self).spec_next() == old(self).spec_next(),
            final(self).spec_entries() == old(self).spec_entries().remove(handle),
            match r {
                Some(v) => old(self).spec_entries().contains_key(handle) && old(self).spec_entries()[handle]
                    == v,
                None => !old(self).spec_entries().contains_key(handle),
            },
    {
        proof {
            use_type_invariant(&*self);
        }
        let next = self.next;
        let mut entries = HashMap::new();
        std::mem::swap(&mut entries, &mut self.entries);
        let r = entries.remove(&handle);
        *self = HandleRegistry { entries, next };
        r
    }

    /// Puts `value` back under `handle`, which keeps the next handle unchanged.
    pub fn restore(&mut self, handle: u32, value: T)
        ensures
            final(self).spec_next() == old(self).spec_next(),
            final(self).spec_entries() == old(self).spec_entries().insert(handle, value),
    {
        proof {
            use_type_invariant(&*self);
        }
        let next = self.next;
        let mut entries = HashMap::new();
        std::mem::swap(&mut entries, &mut self.entries);
        entries.insert(handle, value);
        *self = HandleRegistry { entries, next };
    }
}

/// Handles are never 0, and the next handle differs from the one just given
/// out.
pub proof fn lemma_handle_after_nonzero(h: u32)
    ensures
        handle_after(h) != 0,
        h != 0 ==> handle_after(h) != h,
{
}

} // verus!
