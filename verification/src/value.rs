use vstd::prelude::*;

verus! {

use crate::name::{InternedName, NameStore};

/// A compiler-internal storage location. Identity is the numeric id alone;
/// the originating name is carried only for diagnostics and emission.
#[derive(Debug, Clone, Copy, PartialEq, Eq, Structural)]
pub struct Value {
    pub id: u64,
    pub name: InternedName,
}

impl Value {
    pub fn new(id: u64, name: InternedName) -> (r: Self)
        ensures
            r == (Value { id, name }),
    {
        Value { id, name }
    }

    pub fn get_id(&self) -> (r: u64)
        ensures
            r == self.id,
    {
        self.id
    }

    /// The spelling this location was named after, looked up in the store
    /// that issued the name.
    pub fn get_name<'a>(&self, store: &'a NameStore) -> (r: Option<&'a String>)
        ensures
            match r {
                Some(s) => 0 <= self.name.id() < store@.len() && s@ == store@[self.name.id()],
                None => !(0 <= self.name.id() < store@.len()),
            },
    {
        store.get(self.name)
    }
}

} // verus!
