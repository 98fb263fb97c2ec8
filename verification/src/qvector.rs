//! A sequence over the 4-symbol alphabet {0,1,2,3}, the container the
//! quaternary rank/select index is built over.

use vstd::prelude::*;

verus! {

pub struct QVector {
    symbols: Vec<u8>,
}

impl View for QVector {
    type V = Seq<u8>;

    closed spec fn view(&self) -> Seq<u8> {
        self.symbols@
    }
}

impl QVector {
    /// Every stored symbol is one of {0,1,2,3}.
    pub closed spec fn wf(&self) -> bool {
        forall|i: int| 0 <= i < self.symbols@.len() ==> #[trigger] self.symbols@[i] < 4
    }

    /// Well-formedness bounds every symbol by the alphabet size.
    pub proof fn lemma_wf_symbols(&self)
        requires
            self.wf(),
        ensures
            forall|i: int| 0 <= i < self@.len() ==> #[trigger] self@[i] < 4,
    {
    }

    pub fn new() -> (r: QVector)
        ensures
            r.wf(),
            r@ =~= Seq::<u8>::empty(),
    {
        QVector { symbols: Vec::new() }
    }

    /// Appends one symbol at the end of the sequence.
    pub fn push(&mut self, c: u8)
        requires
            old(self).wf(),
            c < 4,
            old(self)@.len() < usize::MAX,
        ensures
            final(self).wf(),
            final(self)@ =~= old(self)@.push(c),
    {
        self.symbols.push(c);
    }

    pub fn len(&self) -> (r: usize)
        ensures
            r == self@.len(),
    {
        self.symbols.len()
    }

    /// Random access; the caller guarantees `i` is in range.
    pub fn get_unchecked(&self, i: usize) -> (r: u8)
        requires
            self.wf(),
            i < self@.len(),
        ensures
            r == self@[i as int],
            r < 4,
    {
        self.symbols[i]
    }
}

} // verus!
