//! A property column: one optional serialized value per entity, the
//! position being the entity id. Rows past the column's length implicitly
//! hold no value; the column grows on demand when a row is written.

use vstd::prelude::*;

use crate::bytes::copy_bytes;
use crate::property::obv;

verus! {

/// A dense column of optional property values, indexed by entity id.
pub struct PropertyStore {
    pub is_required: bool,
    pub values: Vec<Option<Vec<u8>>>,
}

impl PropertyStore {
    /// The value in row `e`: `None` past the column's length.
    pub open spec fn at(self, e: int) -> Option<Seq<u8>> {
        if 0 <= e < self.values@.len() {
            obv(self.values@[e])
        } else {
            None
        }
    }

    /// An empty column.
    pub fn new() -> (r: PropertyStore)
        ensures
            r.values@.len() == 0,
            !r.is_required,
            forall|e: int| r.at(e) is None,
    {
        PropertyStore { is_required: false, values: Vec::new() }
    }

    /// Appends a value in the next row.
    pub fn push(&mut self, property: Vec<u8>)
        ensures
            final(self).values@ == old(self).values@.push(Some(property)),
            final(self).is_required == old(self).is_required,
    {
        self.values.push(Some(property));
    }

    /// The number of rows the column has grown to.
    pub fn len(&self) -> (r: usize)
        ensures
            r == self.values@.len(),
    {
        self.values.len()
    }

    /// A reference to the value in row `e`, if the row holds one.
    pub fn get_at(&self, e: usize) -> (r: Option<&Vec<u8>>)
        ensures
            match r {
                Some(v) => self.at(e as int) == Some(v@),
                None => self.at(e as int) is None,
            },
    {
        if e >= self.values.len() {
            return None;
        }
        match &self.values[e] {
            Some(v) => Some(v),
            None => None,
        }
    }

    /// A copy of the value in row `e`, if the row holds one.
    pub fn read_at(&self, e: usize) -> (r: Option<Vec<u8>>)
        ensures
            obv(r) == self.at(e as int),
    {
        match self.get_at(e) {
            Some(v) => Some(copy_bytes(v)),
            None => None,
        }
    }

    /// Grows the column with empty rows to at least `n` rows.
    pub fn ensure_len(&mut self, n: usize)
        ensures
            final(self).is_required == old(self).is_required,
            final(self).values@.len() >= n,
            final(self).values@.len() >= old(self).values@.len(),
            forall|j: int| final(self).at(j) == old(self).at(j),
    {
        let ghost olds = *self;
        if self.values.len() < n {
            while self.values.len() < n
                invariant
                    self.is_required == olds.is_required,
                    olds.values@.len() <= self.values@.len(),
                    self.values@.len() <= n,
                    forall|j: int|
                        0 <= j < olds.values@.len() ==> self.values@[j] == olds.values@[j],
                    forall|j: int|
                        olds.values@.len() <= j < self.values@.len() ==> self.values@[j] is None,
                decreases n - self.values@.len(),
            {
                self.values.push(None);
            }
        }
        proof {
            assert(forall|j: int| final(self).at(j) == olds.at(j));
        }
    }

    /// Exclusive access to row `e` of the column.
    pub fn slot_mut(&mut self, e: usize) -> (r: &mut Option<Vec<u8>>)
        requires
            e < old(self).values@.len(),
        ensures
            *r == old(self).values@[e as int],
            final(self).is_required == old(self).is_required,
            final(self).values@ == old(self).values@.update(e as int, *final(r)),
    {
        &mut self.values[e]
    }

    /// Writes `value` into row `e`, growing the column with empty rows up
    /// to `e` first where it is shorter.
    pub fn set_at(&mut self, e: usize, value: Vec<u8>)
        requires
            e < usize::MAX,
        ensures
            final(self).is_required == old(self).is_required,
            final(self).at(e as int) == Some(value@),
            forall|j: int| j != e ==> final(self).at(j) == old(self).at(j),
            final(self).values@.len() >= old(self).values@.len(),
    {
        let ghost olds = *self;
        if self.values.len() <= e {
            while self.values.len() <= e
                invariant
                    e < usize::MAX,
                    self.is_required == olds.is_required,
                    olds.values@.len() <= self.values@.len(),
                    self.values@.len() <= e + 1,
                    forall|j: int|
                        0 <= j < olds.values@.len() ==> self.values@[j] == olds.values@[j],
                    forall|j: int|
                        olds.values@.len() <= j < self.values@.len() ==> self.values@[j] is None,
                decreases e + 1 - self.values@.len(),
            {
                self.values.push(None);
            }
        }
        proof {
            assert(forall|j: int| self.at(j) == olds.at(j));
        }
        let ghost mid = *self;
        self.values.set(e, Some(value));
        proof {
            assert(final(self).at(e as int) == Some(value@));
            assert(forall|j: int| j != e ==> final(self).at(j) == mid.at(j));
        }
    }
}

} // verus!
