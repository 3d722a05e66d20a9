use vstd::prelude::*;

verus! {

/// A stored pair: the key that orders it and the payload kept beside it.
#[derive(Debug, Clone, Copy)]
pub struct Entry<P: Copy> {
    pub key: u64,
    pub value: P,
}

impl<P: Copy> Entry<P> {
    pub fn new(key: u64, value: P) -> (r: Entry<P>)
        ensures
            r.key == key,
            r.value == value,
    {
        Entry { key, value }
    }

    pub fn get_key(&self) -> (r: &u64)
        ensures
            *r == self.key,
    {
        &self.key
    }
}

} // verus!
