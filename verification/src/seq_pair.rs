use vstd::prelude::*;

verus! {

/// An immutable paired view over the two borrowed sequences being aligned:
/// the `source` sequence is transformed into the `target` sequence.
pub struct SeqPair<'a, T> {
    pub source: &'a [T],
    pub target: &'a [T],
}

impl<'a, T> SeqPair<'a, T> {
    /// Pair two borrowed sequences without copying their elements.
    pub fn new(source: &'a [T], target: &'a [T]) -> (pair: SeqPair<'a, T>)
        ensures
            pair.source@ == source@,
            pair.target@ == target@,
    {
        SeqPair { source, target }
    }

    /// Length of the source sequence.
    pub fn source_len(&self) -> (len: usize)
        ensures
            len == self.source@.len(),
    {
        self.source.len()
    }

    /// Length of the target sequence.
    pub fn target_len(&self) -> (len: usize)
        ensures
            len == self.target@.len(),
    {
        self.target.len()
    }
}

} // verus!
