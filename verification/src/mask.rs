//! A set of screen rows.

use vstd::prelude::*;

verus! {

/// The rows of a screen something is true of.
#[derive(Debug)]
pub struct RowMask {
    bits: Vec<bool>,
}

impl View for RowMask {
    type V = Set<u16>;

    closed spec fn view(&self) -> Set<u16> {
        Set::new(|row: u16| row < self.bits@.len() && self.bits@[row as int])
    }
}

/// The rows below `rows`.
pub open spec fn rows_below(rows: int) -> Set<u16> {
    Set::new(|row: u16| row < rows)
}

impl RowMask {
    /// No rows, with room for `rows` of them.
    pub fn with_rows(rows: u16) -> (mask: Self)
        ensures
            mask@ == Set::<u16>::empty(),
    {
        let bits = vec![false; rows as usize];
        let mask = RowMask { bits };
        assert(mask@ =~= Set::empty());
        mask
    }

    /// Every row below `rows`.
    pub fn filled(rows: u16) -> (mask: Self)
        ensures
            mask@ == rows_below(rows as int),
    {
        let bits = vec![true; rows as usize];
        let mask = RowMask { bits };
        assert(mask@ =~= rows_below(rows as int));
        mask
    }

    /// Forget every row and make room for `rows` of them.
    pub fn reset(&mut self, rows: u16)
        ensures
            final(self)@ == Set::<u16>::empty(),
    {
        self.bits.clear();
        self.bits.resize(rows as usize, false);
        assert(self@ =~= Set::empty());
    }

    /// Forget every row.
    pub fn clear_all(&mut self)
        ensures
            final(self)@ == Set::<u16>::empty(),
    {
        let count = self.bits.len();
        let mut at: usize = 0;
        while at < count
            invariant
                at <= count,
                count == self.bits@.len(),
                forall|i: int| 0 <= i < at ==> !self.bits@[i],
            decreases count - at,
        {
            self.bits.set(at, false);
            at = at + 1;
        }
        assert(self@ =~= Set::empty());
    }

    /// Add one row.
    pub fn set(&mut self, row: u16)
        ensures
            final(self)@ == old(self)@.insert(row),
    {
        let at = row as usize;
        if self.bits.len() <= at {
            self.bits.resize(at + 1, false);
        }
        self.bits.set(at, true);
        assert(self@ =~= old(self)@.insert(row));
    }

    /// Whether a row is in the set.
    pub fn get(&self, row: u16) -> (held: bool)
        ensures
            held == self@.contains(row),
    {
        let at = row as usize;
        at < self.bits.len() && self.bits[at]
    }

    /// Add every row of `other`.
    pub fn union(&mut self, other: &RowMask)
        ensures
            final(self)@ == old(self)@.union(other@),
    {
        if self.bits.len() < other.bits.len() {
            self.bits.resize(other.bits.len(), false);
        }
        assert(self@ =~= old(self)@);
        let count = other.bits.len();
        let mut at: usize = 0;
        while at < count
            invariant
                at <= count,
                count == other.bits@.len(),
                count <= self.bits@.len(),
                forall|row: u16| #[trigger] self@.contains(row) <==> old(self)@.contains(row) || (row < at
                    && other@.contains(row)),
            decreases count - at,
        {
            let ghost before = self@;
            if other.bits[at] {
                self.bits.set(at, true);
            }
            at = at + 1;
            assert forall|row: u16| #[trigger] self@.contains(row) <==> old(self)@.contains(row) || (row < at
                && other@.contains(row)) by {
                assert(before.contains(row) <==> old(self)@.contains(row) || (row < at - 1 && other@.contains(row)));
            }
        }
        assert(self@ =~= old(self)@.union(other@));
    }

    /// Whether no row is in the set.
    pub fn is_empty(&self) -> (empty: bool)
        ensures
            empty == (self@ == Set::<u16>::empty()),
    {
        let mut at: usize = 0;
        while at < self.bits.len() && at <= 0xffff
            invariant
                at <= self.bits@.len(),
                at <= 0x1_0000,
                forall|i: int| 0 <= i < at ==> !self.bits@[i],
            decreases self.bits@.len() - at,
        {
            if self.bits[at] {
                assert(self@.contains(at as u16));
                return false;
            }
            at = at + 1;
        }
        assert(self@ =~= Set::empty());
        true
    }
}

impl Default for RowMask {
    fn default() -> (mask: Self)
        ensures
            mask@ == Set::<u16>::empty(),
    {
        RowMask::with_rows(0)
    }
}

} // verus!
