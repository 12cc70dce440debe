//! Initial property values for a new entity: an ordered list of
//! `(property key, serialized value)` pairs, built up pair by pair. An
//! entity cannot be created while a registered required property has no
//! entry in the list.

use vstd::prelude::*;

use crate::EntityId;
use crate::bytes::copy_bytes;
use crate::data::{EntityData, derived_key, registered, rank_of, stored_by_key, value_by_key};
use crate::property::Compute;

verus! {

/// Whether the entries carry a value for the property registered under
/// `key`.
pub open spec fn il_has(entries: Seq<(usize, Vec<u8>)>, key: int) -> bool {
    exists|i: int| 0 <= i < entries.len() && (#[trigger] entries[i]).0 == key
}

/// The value the entries leave in the property `key` when written in
/// order, considering only the first `i` entries: the last one wins.
pub open spec fn il_last_value(entries: Seq<(usize, Vec<u8>)>, i: int, key: int) -> Option<
    Seq<u8>,
>
    decreases i,
{
    if i <= 0 || i > entries.len() {
        None
    } else if entries[i - 1].0 == key {
        Some(entries[i - 1].1@)
    } else {
        il_last_value(entries, i - 1, key)
    }
}

/// The initialization values for a new entity. Entries are written in
/// order, so a later entry for the same property wins.
pub struct InitializationList {
    pub entries: Vec<(usize, Vec<u8>)>,
}

impl InitializationList {
    /// An empty list.
    pub fn new() -> (r: InitializationList)
        ensures
            r.entries@ == Seq::<(usize, Vec<u8>)>::empty(),
    {
        InitializationList { entries: Vec::new() }
    }

    /// Appends an initial value for the property registered under `key`.
    pub fn with_value(&mut self, key: usize, value: Vec<u8>)
        ensures
            final(self).entries@ == old(self).entries@.push((key, value)),
    {
        self.entries.push((key, value));
    }

    /// The number of entries.
    pub fn len(&self) -> (r: usize)
        ensures
            r == self.entries@.len(),
    {
        self.entries.len()
    }

    /// Whether the list carries a value for the property registered under
    /// `key`.
    pub fn has_property(&self, key: usize) -> (r: bool)
        ensures
            r == il_has(self.entries@, key as int),
    {
        let n = self.entries.len();
        let mut i: usize = 0;
        while i < n
            invariant
                n == self.entries@.len(),
                0 <= i <= n,
                forall|j: int| 0 <= j < i ==> (#[trigger] self.entries@[j]).0 != key,
            decreases n - i,
        {
            if self.entries[i].0 == key {
                proof {
                    assert((#[trigger] self.entries@[i as int]).0 == key);
                }
                return true;
            }
            i += 1;
        }
        proof {
            if il_has(self.entries@, key as int) {
                let j = choose|j: int|
                    0 <= j < self.entries@.len() && (#[trigger] self.entries@[j]).0 == key as int;
            }
        }
        false
    }

    /// Writes each entry into the table, in order, for `entity_id`: the
    /// new entity's initial property values. A later entry for the same
    /// property wins. No entry may name a property registered as derived:
    /// derived values have no storage.
    pub fn set_properties<E: Compute>(&self, entity_data: &mut EntityData<E>, entity_id: EntityId)
        requires
            old(entity_data).wf(),
            entity_id.0 < usize::MAX,
            forall|i: int|
                0 <= i < self.entries@.len() ==> !derived_key(
                    old(entity_data).model().props,
                    (#[trigger] self.entries@[i]).0 as int,
                ),
        ensures
            final(entity_data).wf(),
            final(entity_data).model().count == old(entity_data).model().count,
            final(entity_data).model().eval == old(entity_data).model().eval,
            final(entity_data).is_initializing == old(entity_data).is_initializing,
            forall|k: int|
                #[trigger] registered(final(entity_data).model().props, k) == (registered(
                    old(entity_data).model().props,
                    k,
                ) || il_has(self.entries@, k)),
            forall|k: int|
                derived_key(final(entity_data).model().props, k) == derived_key(
                    old(entity_data).model().props,
                    k,
                ),
            forall|k: int, j: int|
                j != entity_id.0 as int ==> value_by_key(
                    final(entity_data).model().props,
                    final(entity_data).model().eval,
                    k,
                    j,
                ) == value_by_key(
                    old(entity_data).model().props,
                    old(entity_data).model().eval,
                    k,
                    j,
                ),
            forall|k: int, j: int|
                j != entity_id.0 as int ==> stored_by_key(final(entity_data).model().props, k, j)
                    == stored_by_key(old(entity_data).model().props, k, j),
            forall|k: int|
                stored_by_key(final(entity_data).model().props, k, entity_id.0 as int) == (
                match il_last_value(self.entries@, self.entries@.len() as int, k) {
                    Some(v) => Some(v),
                    None => stored_by_key(old(entity_data).model().props, k, entity_id.0 as int),
                }),
    {
        let ghost e = entity_id.0 as int;
        let ghost oldd = *old(entity_data);
        let n = self.entries.len();
        let mut i: usize = 0;
        while i < n
            invariant
                n == self.entries@.len(),
                0 <= i <= n,
                entity_id.0 < usize::MAX,
                e == entity_id.0 as int,
                oldd.wf(),
                forall|ii: int|
                    0 <= ii < self.entries@.len() ==> !derived_key(
                        oldd.model().props,
                        (#[trigger] self.entries@[ii]).0 as int,
                    ),
                entity_data.wf(),
                entity_data.model().count == oldd.model().count,
                entity_data.model().eval == oldd.model().eval,
                entity_data.is_initializing == oldd.is_initializing,
                forall|k: int|
                    registered(entity_data.model().props, k) == (registered(oldd.model().props, k)
                        || exists|t: int| 0 <= t < i && (#[trigger] self.entries@[t]).0 == k),
                forall|k: int|
                    derived_key(entity_data.model().props, k) == derived_key(oldd.model().props, k),
                forall|k: int, j: int|
                    j != e ==> value_by_key(
                        entity_data.model().props,
                        entity_data.model().eval,
                        k,
                        j,
                    ) == value_by_key(oldd.model().props, oldd.model().eval, k, j),
                forall|k: int, j: int|
                    j != e ==> stored_by_key(entity_data.model().props, k, j) == stored_by_key(
                        oldd.model().props,
                        k,
                        j,
                    ),
                forall|k: int|
                    stored_by_key(entity_data.model().props, k, e) == (match il_last_value(
                        self.entries@,
                        i as int,
                        k,
                    ) {
                        Some(v) => Some(v),
                        None => stored_by_key(oldd.model().props, k, e),
                    }),
            decreases n - i,
        {
            let key = self.entries[i].0;
            let value = copy_bytes(&self.entries[i].1);
            let ghost pre = *entity_data;
            proof {
                assert(!derived_key(oldd.model().props, key as int)) by {
                    assert((#[trigger] self.entries@[i as int]).0 == key);
                }
                assert(!derived_key(pre.model().props, key as int));
            }
            entity_data.set_property(key, entity_id, value);
            i += 1;
            proof {
                assert forall|k: int|
                    registered(entity_data.model().props, k) == (registered(oldd.model().props, k)
                        || exists|t: int|
                        0 <= t < i && (#[trigger] self.entries@[t]).0 == k) by {
                    if registered(entity_data.model().props, k) {
                        if k == key as int {
                            assert((#[trigger] self.entries@[i - 1]).0 == k);
                        } else {
                            if !registered(oldd.model().props, k) {
                                let t = choose|t: int|
                                    0 <= t < i - 1 && (#[trigger] self.entries@[t]).0 == k;
                            }
                        }
                    } else {
                        if exists|t: int| 0 <= t < i && (#[trigger] self.entries@[t]).0 == k {
                            let t = choose|t: int|
                                0 <= t < i && (#[trigger] self.entries@[t]).0 == k;
                            assert(t != i - 1);
                        }
                    }
                }
                assert forall|k: int|
                    stored_by_key(entity_data.model().props, k, e) == (match il_last_value(
                        self.entries@,
                        i as int,
                        k,
                    ) {
                        Some(v) => Some(v),
                        None => stored_by_key(oldd.model().props, k, e),
                    }) by {
                    if k == key as int {
                        assert(stored_by_key(entity_data.model().props, k, e) == Some(
                            self.entries@[i - 1].1@,
                        ));
                    } else {
                        assert(stored_by_key(entity_data.model().props, k, e) == stored_by_key(
                            pre.model().props,
                            k,
                            e,
                        ));
                    }
                }
            }
        }
        proof {
            assert forall|k: int|
                registered(final(entity_data).model().props, k) == (registered(
                    oldd.model().props,
                    k,
                ) || il_has(self.entries@, k)) by {
                if il_has(self.entries@, k) {
                    let t = choose|t: int|
                        0 <= t < self.entries@.len() && (#[trigger] self.entries@[t]).0 == k;
                }
                if exists|t: int| 0 <= t < n && (#[trigger] self.entries@[t]).0 == k {
                    let t = choose|t: int| 0 <= t < n && (#[trigger] self.entries@[t]).0 == k;
                    assert(il_has(self.entries@, k));
                }
            }
        }
    }

    /// Whether no listed key is registered as a derived property: derived
    /// properties cannot be given initial values.
    pub open spec fn writable<E: Compute>(self, data: EntityData<E>) -> bool {
        forall|i: int|
            0 <= i < self.entries@.len() ==> !derived_key(
                data.model().props,
                (#[trigger] self.entries@[i]).0 as int,
            )
    }
}

} // verus!
