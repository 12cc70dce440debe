//! The host context: owns the entity table and exposes the extension
//! operations on it — entity creation with initial values, property reads
//! and writes, index management, and queries.

use vstd::prelude::*;

use crate::EntityId;
use crate::data::{
    EntityData, CoreView, registered, rank_of, value_by_key, stored_by_key, derived_key,
    covers_required, lemma_key_frame_after_extend, stored_at,
};
use crate::error::EntityError;
use crate::init_list::{InitializationList, il_has, il_last_value};
use crate::property::Compute;
use crate::query::{
    Query, entity_matches, match_count, ready_for, lemma_match_same_values,
    lemma_count_same_values,
};
use crate::bytes::copy_bytes;

verus! {

/// The host context: the single owner of the entity table.
pub struct Context<E: Compute> {
    pub data: EntityData<E>,
}

impl<E: Compute> Context<E> {
    /// Well-formedness of the owned table.
    pub open spec fn wf(self) -> bool {
        self.data.wf()
    }

    /// The semantic state of the owned table.
    pub open spec fn model(self) -> CoreView<E> {
        self.data.model()
    }

    /// A fresh context around the given evaluator: no entities, no
    /// registered properties.
    pub fn new(eval: E) -> (r: Context<E>)
        ensures
            r.wf(),
            r.model().count == 0,
            r.model().props.len() == 0,
            r.model().eval == eval,
    {
        Context { data: EntityData::new(eval) }
    }

    /// A reference to the table.
    pub fn get_data_container(&self) -> (r: &EntityData<E>)
        ensures
            *r == self.data,
    {
        &self.data
    }

    /// An exclusive reference to the table. A caller that mutates the table
    /// through it is responsible for leaving it well-formed.
    pub fn get_data_container_mut(&mut self) -> (r: &mut EntityData<E>)
        ensures
            *r == old(self).data,
            final(self).data == *final(r),
    {
        &mut self.data
    }

    /// How many entities exist.
    pub fn get_entity_count(&self) -> (r: usize)
        ensures
            r == self.model().count,
    {
        self.data.entity_count
    }

    /// Creates a new entity with the given initial property values, and
    /// returns its id. Fails, changing nothing, when a registered required
    /// property has no entry in the list. No listed property may be
    /// registered as derived: derived values have no storage.
    pub fn add_entity(&mut self, properties: InitializationList) -> (r: Result<
        EntityId,
        EntityError,
    >)
        requires
            old(self).wf(),
            old(self).model().count < usize::MAX,
            properties.writable(old(self).data),
        ensures
            final(self).wf(),
            r is Ok <==> covers_required(old(self).model().props, properties.entries@),
            r is Err ==> *final(self) == *old(self),
            r matches Err(err) ==> exists|rr: int|
                0 <= rr < old(self).model().props.len() && (#[trigger] old(self).model().props[rr]).required && !il_has(
                    properties.entries@,
                    old(self).model().props[rr].key,
                ) && err.spec_message() == "Missing initial value "@ + old(self).model().props[rr].name,
            r matches Ok(id) ==> {
                &&& id.0 == old(self).model().count
                &&& final(self).model().count == old(self).model().count + 1
                &&& final(self).model().eval == old(self).model().eval
                &&& forall|k: int|
                    registered(final(self).model().props, k) == (registered(
                        old(self).model().props,
                        k,
                    ) || il_has(properties.entries@, k))
                &&& forall|k: int|
                    derived_key(final(self).model().props, k) == derived_key(
                        old(self).model().props,
                        k,
                    )
                &&& forall|k: int, j: int|
                    j != id.0 as int ==> value_by_key(
                        final(self).model().props,
                        final(self).model().eval,
                        k,
                        j,
                    ) == value_by_key(old(self).model().props, old(self).model().eval, k, j)
                &&& forall|k: int|
                    stored_by_key(final(self).model().props, k, id.0 as int) == (
                    match il_last_value(
                        properties.entries@,
                        properties.entries@.len() as int,
                        k,
                    ) {
                        Some(v) => Some(v),
                        None => stored_by_key(old(self).model().props, k, id.0 as int),
                    })
            },
    {
        match self.data.check_initialization_list(&properties) {
            Err(e) => Err(e),
            Ok(()) => {
                let entity_id = self.data.add_entity();
                // Suppress change notifications while the initial values
                // are written.
                self.data.set_initializing(true);
                let ghost mid = self.data;
                let ghost entries = properties.entries@;
                properties.set_properties(&mut self.data, entity_id);
                let ghost post_set = self.data;
                self.data.set_initializing(false);
                proof {
                    assert(self.data.model() == post_set.model());
                    assert forall|k: int|
                        registered(self.data.model().props, k) == (registered(
                            old(self).model().props,
                            k,
                        ) || il_has(entries, k)) by {
                        assert(registered(post_set.model().props, k) == (registered(
                            mid.model().props,
                            k,
                        ) || il_has(entries, k)));
                    }
                }
                Ok(entity_id)
            },
        }
    }

    /// The value of the property registered under `key` for `entity_id`:
    /// computed for a derived property, read from its column otherwise.
    pub fn get_property(&self, key: usize, entity_id: EntityId) -> (r: Option<Vec<u8>>)
        requires
            self.wf(),
        ensures
            crate::property::obv(r) == value_by_key(
                self.model().props,
                self.model().eval,
                key as int,
                entity_id.0 as int,
            ),
    {
        self.data.get_property(key, entity_id)
    }

    /// Writes `value` as the property `key` of `entity_id`. The key must
    /// not be registered as derived: derived properties are computed, never
    /// set. Every enabled index concerned is kept coherent.
    pub fn set_property(&mut self, key: usize, entity_id: EntityId, value: Vec<u8>)
        requires
            old(self).wf(),
            !derived_key(old(self).model().props, key as int),
            entity_id.0 < usize::MAX,
        ensures
            final(self).wf(),
            final(self).model().count == old(self).model().count,
            final(self).model().eval == old(self).model().eval,
            forall|k2: int|
                registered(final(self).model().props, k2) == (registered(
                    old(self).model().props,
                    k2,
                ) || k2 == key as int),
            forall|k2: int|
                derived_key(final(self).model().props, k2) == derived_key(
                    old(self).model().props,
                    k2,
                ),
            value_by_key(
                final(self).model().props,
                final(self).model().eval,
                key as int,
                entity_id.0 as int,
            ) == Some(value@),
            forall|k2: int, j: int|
                j != entity_id.0 as int ==> value_by_key(
                    final(self).model().props,
                    final(self).model().eval,
                    k2,
                    j,
                ) == value_by_key(old(self).model().props, old(self).model().eval, k2, j),
            forall|k2: int, j: int|
                !(k2 == key as int && j == entity_id.0 as int) ==> stored_by_key(
                    final(self).model().props,
                    k2,
                    j,
                ) == stored_by_key(old(self).model().props, k2, j),
            final(self).model().props.len() == old(self).model().props.len() + (if registered(
                old(self).model().props,
                key as int,
            ) {
                0int
            } else {
                1int
            }),
            forall|r2: int|
                0 <= r2 < old(self).model().props.len() ==> (
                #[trigger] final(self).data.property_indexes.entries@[r2]).is_enabled()
                    == old(self).data.property_indexes.entries@[r2].is_enabled()
                    && final(self).data.property_indexes.entries@[r2].max_indexed
                    == old(self).data.property_indexes.entries@[r2].max_indexed,
            !registered(old(self).model().props, key as int) ==> !final(self).data.property_indexes.entries@[old(self).model().props.len() as int].is_enabled(),
    {
        self.data.set_property(key, entity_id, value);
    }

    /// Exclusive access to the column cell of the stored property `key` for
    /// `entity_id`, registering the key as a stored property first if it is
    /// new and growing the column to include the row. Writes through
    /// the returned reference bypass index maintenance, so neither the
    /// property nor any derived property depending on it may have an
    /// enabled index.
    pub fn get_property_mut(&mut self, key: usize, entity_id: EntityId) -> (r: &mut Option<
        Vec<u8>,
    >)
        requires
            old(self).wf(),
            !derived_key(old(self).model().props, key as int),
            entity_id.0 < usize::MAX,
            registered(old(self).model().props, key as int) ==> forall|x: int|
                0 <= x < old(self).model().props.len() && (x == rank_of(
                    old(self).model().props,
                    key as int,
                ) || crate::data::dm_has(
                    old(self).data.dependency_map@,
                    rank_of(old(self).model().props, key as int),
                    x,
                )) ==> !(#[trigger] old(self).data.property_indexes.entries@[x]).is_enabled(),
        ensures
            crate::property::obv(*r) == stored_by_key(
                old(self).model().props,
                key as int,
                entity_id.0 as int,
            ),
            final(self).wf(),
            final(self).model().count == old(self).model().count,
            final(self).model().eval == old(self).model().eval,
            stored_by_key(final(self).model().props, key as int, entity_id.0 as int)
                == crate::property::obv(*final(r)),
            forall|k2: int, j: int|
                !(k2 == key as int && j == entity_id.0 as int) ==> stored_by_key(
                    final(self).model().props,
                    k2,
                    j,
                ) == stored_by_key(old(self).model().props, k2, j),
            forall|k2: int|
                #[trigger] registered(final(self).model().props, k2) == (registered(
                    old(self).model().props,
                    k2,
                ) || k2 == key as int),
            forall|k2: int|
                #[trigger] derived_key(final(self).model().props, k2) == derived_key(
                    old(self).model().props,
                    k2,
                ),
            final(self).model().props.len() == old(self).model().props.len() + (if registered(
                old(self).model().props,
                key as int,
            ) {
                0int
            } else {
                1int
            }),
            forall|r2: int|
                0 <= r2 < old(self).model().props.len() ==> #[trigger] final(self).data.property_indexes.entries@[r2] == old(self).data.property_indexes.entries@[r2],
            !registered(old(self).model().props, key as int) ==> !final(self).data.property_indexes.entries@[old(self).model().props.len() as int].is_enabled(),
    {
        self.data.get_property_mut(key, entity_id)
    }

    /// The stored value of the property `key` for `entity_id` if the row
    /// holds one; otherwise writes `default` there and returns it. The key
    /// must not be registered as derived.
    pub fn get_property_or_default(
        &mut self,
        key: usize,
        entity_id: EntityId,
        default: Vec<u8>,
    ) -> (r: Vec<u8>)
        requires
            old(self).wf(),
            !derived_key(old(self).model().props, key as int),
            entity_id.0 < usize::MAX,
        ensures
            final(self).wf(),
            final(self).model().count == old(self).model().count,
            final(self).model().eval == old(self).model().eval,
            r@ == (match stored_by_key(old(self).model().props, key as int, entity_id.0 as int) {
                Some(v) => v,
                None => default@,
            }),
            stored_by_key(final(self).model().props, key as int, entity_id.0 as int) == Some(r@),
            value_by_key(
                final(self).model().props,
                final(self).model().eval,
                key as int,
                entity_id.0 as int,
            ) == Some(r@),
            forall|k2: int|
                registered(final(self).model().props, k2) == (registered(
                    old(self).model().props,
                    k2,
                ) || k2 == key as int),
            forall|k2: int|
                derived_key(final(self).model().props, k2) == derived_key(
                    old(self).model().props,
                    k2,
                ),
            forall|k2: int, j: int|
                j != entity_id.0 as int ==> value_by_key(
                    final(self).model().props,
                    final(self).model().eval,
                    k2,
                    j,
                ) == value_by_key(old(self).model().props, old(self).model().eval, k2, j),
            forall|k2: int, j: int|
                !(k2 == key as int && j == entity_id.0 as int) ==> stored_by_key(
                    final(self).model().props,
                    k2,
                    j,
                ) == stored_by_key(old(self).model().props, k2, j),
            final(self).model().props.len() == old(self).model().props.len() + (if registered(
                old(self).model().props,
                key as int,
            ) {
                0int
            } else {
                1int
            }),
            forall|r2: int|
                0 <= r2 < old(self).model().props.len() ==> (
                #[trigger] final(self).data.property_indexes.entries@[r2]).is_enabled()
                    == old(self).data.property_indexes.entries@[r2].is_enabled()
                    && final(self).data.property_indexes.entries@[r2].max_indexed
                    == old(self).data.property_indexes.entries@[r2].max_indexed,
            !registered(old(self).model().props, key as int) ==> !final(self).data.property_indexes.entries@[old(self).model().props.len() as int].is_enabled(),
    {
        let existing = match self.data.find_rank(key) {
            None => None,
            Some(rk) => self.data.properties_map[rk].read_at(entity_id.0),
        };
        match existing {
            Some(v) => {
                let r = copy_bytes(&v);
                let ghost pre = self.data;
                self.data.set_property(key, entity_id, v);
                proof {
                    assert(stored_by_key(pre.model().props, key as int, entity_id.0 as int)
                        == Some(r@));
                }
                r
            },
            None => {
                let r = copy_bytes(&default);
                self.data.set_property(key, entity_id, default);
                r
            },
        }
    }

    /// Creates the index for the property registered under `key`,
    /// registering the key first if it is new. The index is not populated
    /// here: that happens lazily, on the next query over the property.
    pub fn index_property(&mut self, key: usize)
        requires
            old(self).wf(),
        ensures
            final(self).wf(),
            final(self).model().count == old(self).model().count,
            final(self).model().eval == old(self).model().eval,
            forall|k2: int, j: int|
                value_by_key(final(self).model().props, final(self).model().eval, k2, j)
                    == value_by_key(old(self).model().props, old(self).model().eval, k2, j),
            forall|k2: int|
                registered(final(self).model().props, k2) == (registered(
                    old(self).model().props,
                    k2,
                ) || k2 == key as int),
            forall|k2: int|
                derived_key(final(self).model().props, k2) == derived_key(
                    old(self).model().props,
                    k2,
                ),
            registered(final(self).model().props, key as int),
            rank_of(final(self).model().props, key as int) == (if registered(
                old(self).model().props,
                key as int,
            ) {
                rank_of(old(self).model().props, key as int)
            } else {
                old(self).model().props.len() as int
            }),
            final(self).data.property_indexes.entries@[rank_of(
                final(self).model().props,
                key as int,
            )].is_enabled(),
            // Enabling does not populate: the watermark is untouched (zero
            // for a fresh key), and a freshly enabled table is empty.
            final(self).data.property_indexes.entries@[rank_of(
                final(self).model().props,
                key as int,
            )].max_indexed == (if registered(old(self).model().props, key as int) {
                old(self).data.property_indexes.entries@[rank_of(
                    old(self).model().props,
                    key as int,
                )].max_indexed as int
            } else {
                0int
            }),
            (registered(old(self).model().props, key as int) && old(self).data.property_indexes.entries@[rank_of(
                old(self).model().props,
                key as int,
            )].is_enabled()) ==> final(self).data.property_indexes.entries@[rank_of(
                old(self).model().props,
                key as int,
            )] == old(self).data.property_indexes.entries@[rank_of(
                old(self).model().props,
                key as int,
            )],
            !(registered(old(self).model().props, key as int) && old(self).data.property_indexes.entries@[rank_of(
                old(self).model().props,
                key as int,
            )].is_enabled()) ==> final(self).data.property_indexes.entries@[rank_of(
                final(self).model().props,
                key as int,
            )].buckets() == Seq::<crate::index::IndexBucket>::empty(),
            // Every other property's index is untouched.
            forall|r2: int|
                0 <= r2 < old(self).model().props.len() && r2 != rank_of(
                    final(self).model().props,
                    key as int,
                ) ==> #[trigger] final(self).data.property_indexes.entries@[r2] == old(self).data.property_indexes.entries@[r2],
    {
        let ghost pre = self.data;
        let rk = match self.data.find_rank(key) {
            Some(rk) => rk,
            None => {
                let rk = self.data.property_metadata.len();
                self.data.register_nonderived_property(key, String::new(), false);
                proof {
                    assert(self.data.model().props[rk as int].key == key as int);
                    assert(registered(self.data.model().props, key as int));
                    let w = rank_of(self.data.model().props, key as int);
                    if w != rk as int {
                        assert(self.data.model().props[w].key == key as int);
                        assert(w < rk as int);
                        assert(pre.model().props[w].key == key as int);
                        assert(registered(pre.model().props, key as int));
                    }
                }
                rk
            },
        };
        let ghost mid = self.data;
        proof {
            if mid != pre {
                assert(!registered(pre.model().props, key as int));
                assert(rank_of(mid.model().props, key as int) == rk as int);
                assert forall|k2: int, j: int|
                    #![trigger value_by_key(mid.model().props, mid.model().eval, k2, j)]
                    value_by_key(mid.model().props, mid.model().eval, k2, j) == value_by_key(
                        pre.model().props,
                        pre.model().eval,
                        k2,
                        j,
                    ) by {
                    if k2 != key as int {
                        lemma_key_frame_after_extend::<E>(
                            pre.model().props,
                            mid.model().props,
                            mid.model().eval,
                            k2,
                        );
                    } else {
                        assert(mid.model().props[rk as int].column.len() == 0);
                        assert(!mid.model().props[rk as int].derived);
                        assert(value_by_key(mid.model().props, mid.model().eval, k2, j)
                            == stored_at(mid.model().props, rk as int, j));
                    }
                }
                assert forall|k2: int|
                    #[trigger] registered(mid.model().props, k2) == (registered(
                        pre.model().props,
                        k2,
                    ) || k2 == key as int) by {
                    if k2 != key as int {
                        lemma_key_frame_after_extend::<E>(
                            pre.model().props,
                            mid.model().props,
                            mid.model().eval,
                            k2,
                        );
                    }
                }
                assert forall|k2: int|
                    #[trigger] derived_key(mid.model().props, k2) == derived_key(
                        pre.model().props,
                        k2,
                    ) by {
                    if k2 != key as int {
                        lemma_key_frame_after_extend::<E>(
                            pre.model().props,
                            mid.model().props,
                            mid.model().eval,
                            k2,
                        );
                        if registered(pre.model().props, k2) {
                            let r2 = rank_of(pre.model().props, k2);
                            assert(rank_of(mid.model().props, k2) == r2);
                            assert(mid.model().props[r2] == pre.model().props[r2]);
                        }
                    } else {
                        assert(!mid.model().props[rk as int].derived);
                    }
                }
            }
            assert(rank_of(mid.model().props, key as int) == rk as int);
        }
        self.data.enable_index(rk);
        proof {
            assert(self.data.model().props == mid.model().props);
            assert(rank_of(self.data.model().props, key as int) == rk as int);
            assert(mid.index_ok(rk as int));
            if registered(pre.model().props, key as int) {
                assert(mid == pre);
            }
        }
    }

    /// The ids of the entities matching every predicate of the query, each
    /// exactly once, in no specified order. Unregistered predicate
    /// properties are registered first and the predicate properties'
    /// indexes are brought up to date; the result is decided by the
    /// property values alone.
    pub fn query_entities(&mut self, q: &Query) -> (r: Vec<EntityId>)
        requires
            old(self).wf(),
        ensures
            final(self).wf(),
            final(self).model().count == old(self).model().count,
            final(self).model().eval == old(self).model().eval,
            forall|k: int, j: int|
                value_by_key(final(self).model().props, final(self).model().eval, k, j)
                    == value_by_key(old(self).model().props, old(self).model().eval, k, j),
            forall|i1: int, i2: int| 0 <= i1 < i2 < r@.len() ==> r@[i1] != r@[i2],
            forall|e: int|
                crate::index::id_in(r@, e) <==> (0 <= e < old(self).model().count
                    && entity_matches(
                    old(self).model().props,
                    old(self).model().eval,
                    q@,
                    e,
                )),
            r@.len() == match_count(
                old(self).model().props,
                old(self).model().eval,
                q@,
                old(self).model().count,
            ),
            ready_for(final(self).data, q@),
    {
        q.setup(&mut self.data);
        let r = q.execute_query(&self.data);
        proof {
            assert forall|e: int|
                entity_matches(self.data.model().props, self.data.model().eval, q@, e)
                    == entity_matches(
                    old(self).model().props,
                    old(self).model().eval,
                    q@,
                    e,
                ) by {
                lemma_match_same_values(
                    self.data.model().props,
                    self.data.model().eval,
                    old(self).model().props,
                    old(self).model().eval,
                    q@,
                    e,
                );
            }
            lemma_count_same_values(
                self.data.model().props,
                self.data.model().eval,
                old(self).model().props,
                old(self).model().eval,
                q@,
                old(self).model().count,
            );
        }
        r
    }

    /// How many entities match every predicate of the query. Equals the
    /// length of `query_entities` on the same state and query.
    pub fn query_entity_count(&mut self, q: &Query) -> (r: usize)
        requires
            old(self).wf(),
        ensures
            final(self).wf(),
            final(self).model().count == old(self).model().count,
            final(self).model().eval == old(self).model().eval,
            forall|k: int, j: int|
                value_by_key(final(self).model().props, final(self).model().eval, k, j)
                    == value_by_key(old(self).model().props, old(self).model().eval, k, j),
            r == match_count(
                old(self).model().props,
                old(self).model().eval,
                q@,
                old(self).model().count,
            ),
            ready_for(final(self).data, q@),
    {
        let found = self.query_entities(q);
        found.len()
    }

    /// Whether the entity matches every predicate of the query, decided
    /// against its property values directly; no index is consulted or
    /// refreshed.
    pub fn match_entity(&self, entity_id: EntityId, q: &Query) -> (r: bool)
        requires
            self.wf(),
        ensures
            r == entity_matches(self.model().props, self.model().eval, q@, entity_id.0 as int),
    {
        q.match_entity(&self.data, entity_id)
    }
}

} // verus!
