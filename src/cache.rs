//! A memo cell for derived geometry, shared read-only with renderers.
//!
//! The cell holds at most one value together with the key it was computed
//! for: the rendering parameters (as raw bits) and the controller's geometry
//! epoch. A lookup with another key drops the value; a new value replaces
//! the old one wholesale, so holders of the old one never see it change.

use vstd::prelude::*;
use std::sync::Arc;

verus! {

/// A cached value and the key it belongs to.
pub struct GeometryCache<V> {
    key: Option<(Vec<u32>, u64)>,
    value: Option<Arc<V>>,
}

impl<V> GeometryCache<V> {
    /// The key and the value held, if any.
    pub closed spec fn spec_entry(&self) -> Option<(Seq<u32>, u64, V)> {
        match (self.key, self.value) {
            (Option::Some((p, e)), Option::Some(v)) => Option::Some((p@, e, *v)),
            _ => Option::None,
        }
    }

    /// Returns an empty cache.
    pub fn new() -> (r: GeometryCache<V>)
        ensures
            r.spec_entry().is_none(),
    {
        GeometryCache { key: Option::None, value: Option::None }
    }

    /// Drops the cached value.
    pub fn invalidate(&mut self)
        ensures
            final(self).spec_entry().is_none(),
    {
        self.key = Option::None;
        self.value = Option::None;
    }

    /// Returns the cached value if it was computed for these parameters and
    /// this epoch; otherwise drops it and returns `None`.
    pub fn get(&mut self, params: &Vec<u32>, epoch: u64) -> (r: Option<Arc<V>>)
        ensures
            match old(self).spec_entry() {
                Option::Some((p, e, v)) => if p == params@ && e == epoch {
                    r.is_some() && *r.unwrap() == v && final(self).spec_entry() == old(self).spec_entry()
                } else {
                    r.is_none() && final(self).spec_entry().is_none()
                },
                Option::None => r.is_none() && final(self).spec_entry().is_none(),
            },
    {
        let hit = match (&self.key, &self.value) {
            (Option::Some((p, e)), Option::Some(_)) => *e == epoch && same_bits(p, params),
            _ => false,
        };
        if hit {
            match &self.value {
                Option::Some(v) => Option::Some(Arc::clone(v)),
                Option::None => Option::None,
            }
        } else {
            self.key = Option::None;
            self.value = Option::None;
            Option::None
        }
    }

    /// Replaces the cached value with `v`, computed for these parameters and
    /// this epoch, and returns a shared handle to it.
    pub fn store(&mut self, params: Vec<u32>, epoch: u64, v: V) -> (r: Arc<V>)
        ensures
            *r == v,
            final(self).spec_entry() == Option::Some((params@, epoch, v)),
    {
        let a = Arc::new(v);
        let handle = Arc::clone(&a);
        self.key = Option::Some((params, epoch));
        self.value = Option::Some(a);
        handle
    }
}

/// Returns whether two parameter snapshots hold the same bits.
fn same_bits(a: &Vec<u32>, b: &Vec<u32>) -> (r: bool)
    ensures
        r == (a@ == b@),
{
    if a.len() != b.len() {
        return false;
    }
    let mut i: usize = 0;
    while i < a.len()
        invariant
            a@.len() == b@.len(),
            i <= a@.len(),
            forall|j: int| 0 <= j < i ==> a@[j] == b@[j],
        decreases a@.len() - i,
    {
        if a[i] != b[i] {
            return false;
        }
        i += 1;
    }
    assert(a@ =~= b@);
    true
}

} // verus!
