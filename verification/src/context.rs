use vstd::prelude::*;

use crate::store::Store;

verus! {

/// What a command runs against: the store.
pub struct Context<'a> {
    pub store: &'a mut Store,
}

impl<'a> Context<'a> {
    /// A context over a store.
    pub fn new(store: &'a mut Store) -> (c: Self)
        ensures
            *c.store == *old(store),
            *final(store) == *final(c.store),
    {
        Context { store }
    }
}

} // verus!
