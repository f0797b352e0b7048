//! The last slot to which a book was brought, which a book has in common with its
//! copies.

use vstd::prelude::*;

use std::sync::atomic::{AtomicU64, Ordering};
use std::sync::Arc;

verus! {

/// The last slot to which a book was brought. Of a book without copies it is what
/// was last set. A book and its copies have one in common, so what a look at it
/// finds is then what any of them has set last.
pub struct Watermark {
    seen: u64,
    common: Option<Arc<AtomicU64>>,
}

impl Watermark {
    /// The slot that was last found or set here.
    pub closed spec fn slot(&self) -> u64 {
        self.seen
    }

    /// The cell that the book has in common with its copies, where it has copies.
    /// Equal cells are one cell, whatever is stored in it.
    pub closed spec fn cell(&self) -> Option<Arc<AtomicU64>> {
        self.common
    }

    /// Whether copies of the book have the watermark too.
    pub open spec fn shared(&self) -> bool {
        self.cell() is Some
    }

    /// Makes a watermark at zero that nothing else has.
    pub fn new() -> (watermark: Watermark)
        ensures
            watermark.slot() == 0,
            !watermark.shared(),
    {
        Watermark { seen: 0, common: None }
    }

    /// Gives the slot that was last found or set here.
    pub fn get(&self) -> (slot: u64)
        ensures
            slot == self.slot(),
    {
        self.seen
    }

    /// Looks at the watermark anew. Where it is shared, what is found is left open:
    /// another copy can have set it since.
    pub fn look(&mut self)
        ensures
            final(self).cell() == old(self).cell(),
            !old(self).shared() ==> *final(self) == *old(self),
    {
        if let Some(common) = &self.common {
            self.seen = common.load(Ordering::Relaxed);
        }
    }

    /// Sets the watermark, for every copy that has it.
    pub fn set(&mut self, slot: u64)
        ensures
            final(self).slot() == slot,
            final(self).cell() == old(self).cell(),
    {
        self.seen = slot;
        if let Some(common) = &self.common {
            common.store(slot, Ordering::Relaxed);
        }
    }

    /// Gives a watermark for a copy of the book. The two are one from then on.
    pub fn share(&mut self) -> (copy: Watermark)
        ensures
            final(self).slot() == old(self).slot(),
            final(self).shared(),
            old(self).shared() ==> final(self).cell() == old(self).cell(),
            copy.slot() == old(self).slot(),
            copy.cell() == final(self).cell(),
    {
        let common = match &self.common {
            Some(common) => common.clone(),
            None => Arc::new(AtomicU64::new(self.seen)),
        };
        self.common = Some(common.clone());
        Watermark { seen: self.seen, common: Some(common) }
    }
}

} // verus!
