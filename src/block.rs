use vstd::prelude::*;

use crate::error::FreelistError;

verus! {

/// The value of `next_block_index` that stands for "no next block".
pub const NONE_INT: u32 = 0xFFFF_FFFFu32;

/// The header of a free run: how many contiguous slots the run holds and
/// where the next run of the free list starts.
///
/// Both fields are 32 bits wide so that the header takes 8 bytes; the next
/// index uses `NONE_INT` to mean that there is no next run.
#[derive(Debug, Clone, Copy)]
pub struct Block {
    element_count: u32,
    next_block_index: u32,
}

impl Block {
    /// The number of slots in the run.
    pub closed spec fn count(&self) -> nat {
        self.element_count as nat
    }

    /// The index of the next run, if any.
    pub closed spec fn next(&self) -> Option<usize> {
        if self.next_block_index == NONE_INT {
            None
        } else {
            Some(self.next_block_index as usize)
        }
    }

    /// Builds a header for a run of `element_count` slots followed by
    /// `next_block_index`.
    pub fn new(element_count: usize, next_block_index: Option<usize>) -> (b: Block)
        requires
            element_count <= u32::MAX,
            next_block_index matches Some(i) ==> i < u32::MAX,
        ensures
            b.count() == element_count,
            b.next() == next_block_index,
    {
        let next = match next_block_index {
            Some(i) => i as u32,
            None => NONE_INT,
        };
        Block { element_count: element_count as u32, next_block_index: next }
    }

    pub fn get_n_elements(&self) -> (r: usize)
        ensures
            r == self.count(),
    {
        self.element_count as usize
    }

    /// Adds `increase` slots to the run and returns the new count. Fails with
    /// `Overlap`, leaving the header as it was, when the new count would reach
    /// or pass the index of the next linked run.
    pub fn grow(&mut self, increase: usize) -> (r: Result<usize, FreelistError>)
        requires
            old(self).count() + increase <= u32::MAX,
        ensures
            ({
                let n = old(self).count() + increase;
                if old(self).next() matches Some(i) && n >= i {
                    r == Err::<usize, FreelistError>(FreelistError::Overlap) && *final(self) == *old(self)
                } else {
                    r == Ok::<usize, FreelistError>(n as usize) && final(self).count() == n
                        && final(self).next() == old(self).next()
                }
            }),
    {
        let new_count = self.element_count + increase as u32;
        if self.has_next_block() && new_count >= self.next_block_index {
            return Err(FreelistError::Overlap);
        }
        self.element_count = new_count;
        Ok(new_count as usize)
    }

    /// Takes `decrease` slots from the run and returns the new count. Fails
    /// with `Underflow`, leaving the header as it was, when no slot would be
    /// left.
    pub fn shrink(&mut self, decrease: usize) -> (r: Result<usize, FreelistError>)
        ensures
            if decrease >= old(self).count() {
                r == Err::<usize, FreelistError>(FreelistError::Underflow) && *final(self) == *old(self)
            } else {
                r == Ok::<usize, FreelistError>((old(self).count() - decrease) as usize)
                    && final(self).count() == old(self).count() - decrease
                    && final(self).next() == old(self).next()
            },
    {
        if decrease >= self.element_count as usize {
            return Err(FreelistError::Underflow);
        }
        self.element_count = self.element_count - decrease as u32;
        Ok(self.element_count as usize)
    }

    pub fn has_next_block(&self) -> (r: bool)
        ensures
            r == self.next() is Some,
    {
        self.next_block_index != NONE_INT
    }

    /// A run with no slot has to leave the free list.
    pub fn is_empty(&self) -> (r: bool)
        ensures
            r == (self.count() == 0),
    {
        self.element_count == 0
    }

    pub fn get_next_block_index(&self) -> (r: Option<usize>)
        ensures
            r == self.next(),
    {
        if self.next_block_index == NONE_INT {
            None
        } else {
            Some(self.next_block_index as usize)
        }
    }

    /// Points the header at another run, or at none. Headers carry no link
    /// to the run before them.
    pub fn connect_at(&mut self, block_index: Option<usize>)
        requires
            block_index matches Some(i) ==> i < u32::MAX,
        ensures
            final(self).count() == old(self).count(),
            final(self).next() == block_index,
    {
        self.next_block_index = match block_index {
            Some(i) => i as u32,
            None => NONE_INT,
        };
    }
}

} // verus!
