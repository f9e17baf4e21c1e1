use vstd::prelude::*;

verus! {

/// An identifier minted by an `IdGenerator` for entities of kind `T`;
/// equality and order are those of the counter value. The kind keeps
/// identifiers of different entities from being mixed up.
pub struct Id<T> {
    pub value: u64,
    pub kind: std::marker::PhantomData<T>,
}

impl<T> Id<T> {
    pub fn from_value(value: u64) -> (r: Id<T>)
        ensures
            r.value == value,
    {
        Id { value, kind: std::marker::PhantomData }
    }
}

impl<T> Clone for Id<T> {
    fn clone(&self) -> (r: Id<T>)
        ensures
            r.value == self.value,
    {
        Id { value: self.value, kind: std::marker::PhantomData }
    }
}

impl<T> Copy for Id<T> {

}

impl<T> PartialEq for Id<T> {
    fn eq(&self, o: &Id<T>) -> (r: bool) {
        self.value == o.value
    }
}

impl<T> vstd::std_specs::cmp::PartialEqSpecImpl for Id<T> {
    open spec fn obeys_eq_spec() -> bool {
        true
    }

    open spec fn eq_spec(&self, o: &Id<T>) -> bool {
        self.value == o.value
    }
}

impl<T> Eq for Id<T> {

}

/// Issues identifiers from a counter that is bumped on every call.
pub struct IdGenerator {
    next: u64,
}

impl IdGenerator {
    /// The value that the next call of `next` hands out.
    pub closed spec fn upcoming(&self) -> u64 {
        self.next
    }

    pub fn new() -> (r: IdGenerator)
        ensures
            r.upcoming() == 0,
    {
        IdGenerator { next: 0 }
    }

    /// The value the next identifier will carry.
    pub fn peek(&self) -> (r: u64)
        ensures
            r == self.upcoming(),
    {
        self.next
    }

    /// Hands out the current counter value and advances the counter by one,
    /// wrapping at the width of `u64`.
    pub fn next<T>(&mut self) -> (r: Id<T>)
        ensures
            r.value == old(self).upcoming(),
            final(self).upcoming() == (old(self).upcoming() + 1) % 0x1_0000_0000_0000_0000,
    {
        let r = Id::from_value(self.next);
        self.next = self.next.wrapping_add(1);
        r
    }
}

} // verus!
