use vstd::prelude::*;

verus! {

/// An append-only log: entries are kept in the order they were inserted.
pub struct History<T> {
    entries: Vec<T>,
}

impl<T> View for History<T> {
    type V = Seq<T>;

    closed spec fn view(&self) -> Seq<T> {
        self.entries@
    }
}

impl<T> History<T> {
    /// An empty log.
    pub fn new() -> (r: Self)
        ensures
            r@ == Seq::<T>::empty(),
    {
        History { entries: Vec::new() }
    }

    /// Appends `item` after every entry already stored.
    pub fn insert(&mut self, item: T)
        ensures
            final(self)@ == old(self)@.push(item),
    {
        self.entries.push(item);
    }

    /// The number of stored entries.
    pub fn get_count(&self) -> (r: usize)
        ensures
            r == self@.len(),
    {
        self.entries.len()
    }

    /// All entries, in insertion order.
    pub fn get_all(&self) -> (r: &[T])
        ensures
            r@ == self@,
    {
        self.entries.as_slice()
    }

    /// Moves every entry of `other` to the end of this log, keeping their order.
    pub fn absorb(&mut self, other: History<T>)
        ensures
            final(self)@ == old(self)@ + other@,
    {
        let mut other = other;
        self.entries.append(&mut other.entries);
    }
}

} // verus!
