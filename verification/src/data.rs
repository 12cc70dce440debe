//! The entity table: owns the set of entities, one property column per
//! registered property, the registration metadata, the reverse-dependency
//! map for derived properties, and one lazily maintained secondary index
//! per property.
//!
//! Registered properties are ranked by registration order; every structure
//! here is aligned by rank. A derived property may only declare already
//! registered properties as dependencies, so a dependency's rank is always
//! below the dependent's rank and derived values are well-founded: the
//! dependency closure is acyclic by construction.

use vstd::prelude::*;

use crate::EntityId;
use crate::error::EntityError;
use crate::index::{Index, IndexBucket, IndexMap, IndexValue, KeyView, index_key};
use crate::init_list::{InitializationList, il_has};
use crate::property::{Compute, PropertyInfo, obv, deps_view};
use crate::store::PropertyStore;

verus! {

/// The mathematical model of one registered property: its metadata, its
/// declared dependency ranks, and the contents of its column.
#[verifier::ext_equal]
pub ghost struct PropModel {
    pub key: int,
    pub name: Seq<char>,
    pub required: bool,
    pub derived: bool,
    pub deps: Seq<int>,
    pub column: Seq<Option<Seq<u8>>>,
}

/// The semantic state of a table: the entity count, the registered
/// properties with their columns, and the evaluator. Indexes are absent on
/// purpose: they are caches, and no observable value depends on them.
#[verifier::ext_equal]
pub ghost struct CoreView<E> {
    pub count: int,
    pub props: Seq<PropModel>,
    pub eval: E,
}

/// The stored value of the property ranked `r` for entity `e`: rows past
/// the column's length hold nothing.
pub open spec fn stored_at(props: Seq<PropModel>, r: int, e: int) -> Option<Seq<u8>> {
    if 0 <= r < props.len() && 0 <= e < props[r].column.len() {
        props[r].column[e]
    } else {
        None
    }
}

/// The value of the property ranked `r` for entity `e`: the column row for
/// a stored property; for a derived property, what the evaluator computes
/// from the values of the declared dependencies, resolved recursively.
pub open spec fn computed_value<E: Compute>(
    props: Seq<PropModel>,
    eval: E,
    r: int,
    e: int,
) -> Option<Seq<u8>>
    decreases r, 1int,
{
    if 0 <= r < props.len() {
        if !props[r].derived {
            stored_at(props, r, e)
        } else {
            eval.compute_spec(props[r].key, dep_values(props, eval, r, e))
        }
    } else {
        None
    }
}

/// The values of the declared dependencies of the property ranked `r`, in
/// declared order, for entity `e`.
pub open spec fn dep_values<E: Compute>(
    props: Seq<PropModel>,
    eval: E,
    r: int,
    e: int,
) -> Seq<Option<Seq<u8>>>
    decreases r, 0int,
{
    Seq::new(
        if 0 <= r < props.len() {
            props[r].deps.len()
        } else {
            0
        },
        |j: int|
            if 0 <= r < props.len() && 0 <= props[r].deps[j] < r {
                computed_value(props, eval, props[r].deps[j], e)
            } else {
                None
            },
    )
}

/// Whether some property is registered under `key`.
pub open spec fn registered(props: Seq<PropModel>, key: int) -> bool {
    exists|r: int| 0 <= r < props.len() && (#[trigger] props[r]).key == key
}

/// The rank of the property registered under `key`.
pub open spec fn rank_of(props: Seq<PropModel>, key: int) -> int {
    choose|r: int| 0 <= r < props.len() && (#[trigger] props[r]).key == key
}

/// The value of the property registered under `key` for entity `e`:
/// nothing while the key is unregistered.
pub open spec fn value_by_key<E: Compute>(
    props: Seq<PropModel>,
    eval: E,
    key: int,
    e: int,
) -> Option<Seq<u8>> {
    if registered(props, key) {
        computed_value(props, eval, rank_of(props, key), e)
    } else {
        None
    }
}

/// Whether the initialization entries carry a value for every registered
/// required property.
pub open spec fn covers_required(props: Seq<PropModel>, entries: Seq<(usize, Vec<u8>)>) -> bool {
    forall|rr: int|
        0 <= rr < props.len() && (#[trigger] props[rr]).required ==> il_has(entries, props[rr].key)
}

/// Whether `key` is registered as a derived property.
pub open spec fn derived_key(props: Seq<PropModel>, key: int) -> bool {
    registered(props, key) && props[rank_of(props, key)].derived
}

/// The stored (column) value of the property registered under `key` for
/// entity `e`: nothing while the key is unregistered.
pub open spec fn stored_by_key(props: Seq<PropModel>, key: int, e: int) -> Option<Seq<u8>> {
    if registered(props, key) {
        stored_at(props, rank_of(props, key), e)
    } else {
        None
    }
}

/// Whether the property ranked `r` depends, directly or through other
/// derived properties, on the property ranked `k`.
pub open spec fn depends_on(props: Seq<PropModel>, r: int, k: int) -> bool
    decreases r,
{
    0 <= r < props.len() && props[r].derived && exists|j: int|
        0 <= j < props[r].deps.len() && ((#[trigger] props[r].deps[j]) == k || (0
            <= props[r].deps[j] < r && depends_on(props, props[r].deps[j], k)))
}

/// The index key of an optional value: `None` values have no key.
pub open spec fn key_of_value(v: Option<Seq<u8>>) -> Option<KeyView> {
    match v {
        Some(b) => Some(index_key(b)),
        None => None,
    }
}

/// No two properties are registered under one key.
pub open spec fn props_keys_unique(props: Seq<PropModel>) -> bool {
    forall|r1: int, r2: int|
        0 <= r1 < r2 < props.len() ==> (#[trigger] props[r1]).key != (#[trigger] props[r2]).key
}

/// Dependencies are declared only by derived properties, and only on
/// properties of lower rank.
pub open spec fn props_deps_ok(props: Seq<PropModel>) -> bool {
    &&& forall|r: int, j: int|
        0 <= r < props.len() && 0 <= j < (#[trigger] props[r]).deps.len() ==> 0 <= (
        #[trigger] props[r].deps[j]) < r
    &&& forall|r: int|
        0 <= r < props.len() && !(#[trigger] props[r]).derived ==> props[r].deps.len() == 0
}

/// A derived property's column is never grown: derived values have no
/// storage.
pub open spec fn props_derived_unstored(props: Seq<PropModel>) -> bool {
    forall|r: int|
        0 <= r < props.len() && (#[trigger] props[r]).derived ==> props[r].column.len() == 0
}

/// Whether the dependency lists mark `x` as a dependent of rank `k`.
pub open spec fn dm_has(dm: Seq<Vec<usize>>, k: int, x: int) -> bool {
    in_ranks(dm[k]@, x)
}

/// The dependency lists are exact for the given properties: under each
/// stored property they list exactly the derived properties that
/// transitively depend on it, once each.
pub open spec fn dm_exact(dm: Seq<Vec<usize>>, props: Seq<PropModel>) -> bool {
    &&& dm.len() == props.len()
    &&& forall|k: int, x: int|
        0 <= k < props.len() ==> (#[trigger] dm_has(dm, k, x) <==> (!props[k].derived && 0 <= x
            < props.len() && props[x].derived && depends_on(props, x, k)))
    &&& forall|k: int, i1: int, i2: int|
        0 <= k < props.len() && 0 <= i1 < i2 < dm[k]@.len() ==> #[trigger] dm[k]@[i1]
            != #[trigger] dm[k]@[i2]
}

/// Whether `x` occurs among the first `i` entries of `ranks`.
pub open spec fn seen_in(ranks: Seq<usize>, i: int, x: int) -> bool {
    exists|j: int| 0 <= j < i && j < ranks.len() && (#[trigger] ranks[j]) == x
}

/// Whether `x` occurs in `ranks`.
pub open spec fn in_ranks(ranks: Seq<usize>, x: int) -> bool {
    exists|j: int| 0 <= j < ranks.len() && (#[trigger] ranks[j]) == x
}

/// `post` is `pre` with every entry of entity `e` removed: the state of an
/// index between the removal pass and the re-add pass of a write.
pub open spec fn removed_state(pre: Index, post: Index, e: int) -> bool {
    &&& post.is_enabled() == pre.is_enabled()
    &&& post.max_indexed == pre.max_indexed
    &&& post.buckets_wf()
    &&& forall|kv: KeyView, en: int|
        #[trigger] post.has_entry(kv, en) <==> (pre.has_entry(kv, en) && en != e)
}

/// `post` is `pre` with entity `e`'s entries replaced by one under `nk`
/// (none, when `nk` is `None` or `e` is at or above the watermark): the
/// state of an index after the re-add pass of a write.
pub open spec fn added_state(pre: Index, post: Index, e: int, nk: Option<KeyView>) -> bool {
    &&& post.is_enabled() == pre.is_enabled()
    &&& post.max_indexed == pre.max_indexed
    &&& post.buckets_wf()
    &&& forall|kv: KeyView, en: int|
        #[trigger] post.has_entry(kv, en) <==> ((pre.has_entry(kv, en) && en != e) || (
        pre.is_enabled() && en == e && 0 <= e < pre.max_indexed && nk == Some(kv)))
}

/// Whether a new derived property whose declared dependencies have the
/// ranks `rseq` transitively depends on the stored property ranked `k`:
/// directly, or through a derived dependency already recorded in the
/// dependency lists.
pub open spec fn new_dependent(
    props: Seq<PropModel>,
    dm: Seq<Vec<usize>>,
    rseq: Seq<usize>,
    k: int,
) -> bool {
    !props[k].derived && (in_ranks(rseq, k) || exists|j: int|
        0 <= j < rseq.len() && dm_has(dm, k, #[trigger] rseq[j] as int))
}

/// Whether `d` is `mid` with at most the cell of some one row of the
/// column ranked `rk` changed: the states reachable through the reference
/// that `get_property_mut` hands out.
pub open spec fn post_slot_write<E: Compute>(
    d: EntityData<E>,
    mid: EntityData<E>,
    rk: int,
    e: int,
) -> bool {
    &&& d.property_metadata@ == mid.property_metadata@
    &&& d.declared_deps@ == mid.declared_deps@
    &&& d.dependency_map@ == mid.dependency_map@
    &&& d.entity_count == mid.entity_count
    &&& d.eval == mid.eval
    &&& d.property_indexes.entries@ == mid.property_indexes.entries@
    &&& d.properties_map@.len() == mid.properties_map@.len()
    &&& forall|r2: int|
        0 <= r2 < mid.properties_map@.len() && r2 != rk ==> #[trigger] d.properties_map@[r2]
            == mid.properties_map@[r2]
    &&& d.properties_map@[rk].is_required == mid.properties_map@[rk].is_required
    &&& d.properties_map@[rk].values@.len() == mid.properties_map@[rk].values@.len()
    &&& forall|j: int|
        0 <= j < mid.properties_map@[rk].values@.len() && j != e
            ==> #[trigger] d.properties_map@[rk].values@[j] == mid.properties_map@[rk].values@[j]
}

/// What `get_property_mut` guarantees of every state reachable through the
/// reference it hands out: the table stays well-formed, the written cell is
/// the property's stored value, and every other cell keeps its value.
pub open spec fn grants_slot<E: Compute>(
    d: EntityData<E>,
    olds: EntityData<E>,
    rk: int,
    key: int,
    e: int,
) -> bool {
    &&& d.wf()
    &&& d.model().count == olds.model().count
    &&& d.model().eval == olds.model().eval
    &&& stored_by_key(d.model().props, key, e) == obv(d.properties_map@[rk].values@[e])
    &&& forall|k2: int, j: int|
        !(k2 == key && j == e) ==> stored_by_key(d.model().props, k2, j) == stored_by_key(
            olds.model().props,
            k2,
            j,
        )
    &&& forall|k2: int|
        #[trigger] registered(d.model().props, k2) == registered(olds.model().props, k2)
    &&& forall|k2: int|
        #[trigger] derived_key(d.model().props, k2) == derived_key(olds.model().props, k2)
}

/// Stores all data associated to entities and their properties.
pub struct EntityData<E: Compute> {
    /// Flag marking that a new entity's initial properties are being
    /// written, suppressing change notifications during construction.
    pub is_initializing: bool,
    /// How many entities exist.
    pub entity_count: usize,
    /// One column of values per registered property, aligned by rank.
    pub properties_map: Vec<PropertyStore>,
    /// Basic information about each registered property, aligned by rank.
    pub property_metadata: Vec<PropertyInfo>,
    /// The ranks of the declared dependencies of each registered property;
    /// empty for stored properties.
    pub declared_deps: Vec<Vec<usize>>,
    /// Maps each stored property's rank to the ranks of the derived
    /// properties that depend on it.
    pub dependency_map: Vec<Vec<usize>>,
    /// One secondary index per registered property, aligned by rank.
    pub property_indexes: IndexMap,
    /// Computes derived property values from their dependencies' values.
    pub eval: E,
}

impl<E: Compute> EntityData<E> {
    /// The semantic state of the table.
    pub open spec fn model(self) -> CoreView<E> {
        CoreView {
            count: self.entity_count as int,
            props: Seq::new(
                self.property_metadata@.len(),
                |r: int|
                    PropModel {
                        key: self.property_metadata@[r].spec_key(),
                        name: self.property_metadata@[r].spec_name(),
                        required: self.property_metadata@[r].spec_required(),
                        derived: self.property_metadata@[r].spec_derived(),
                        deps: Seq::new(
                            self.declared_deps@[r]@.len(),
                            |j: int| self.declared_deps@[r]@[j] as int,
                        ),
                        column: Seq::new(
                            self.properties_map@[r].values@.len(),
                            |e: int| obv(self.properties_map@[r].values@[e]),
                        ),
                    },
            ),
            eval: self.eval,
        }
    }

    /// The number of registered properties.
    pub open spec fn n_props(self) -> int {
        self.property_metadata@.len() as int
    }

    /// The rank-aligned structures all have one entry per registered
    /// property.
    pub open spec fn aligned(self) -> bool {
        &&& self.properties_map@.len() == self.n_props()
        &&& self.declared_deps@.len() == self.n_props()
        &&& self.dependency_map@.len() == self.n_props()
        &&& self.property_indexes.entries@.len() == self.n_props()
    }

    /// No two properties are registered under one key.
    pub open spec fn keys_unique(self) -> bool {
        props_keys_unique(self.model().props)
    }

    /// Dependencies are declared only by derived properties, and only on
    /// properties of lower rank.
    pub open spec fn deps_wf(self) -> bool {
        props_deps_ok(self.model().props)
    }

    /// A derived property's column is never grown: derived values have no
    /// storage.
    pub open spec fn derived_unstored(self) -> bool {
        props_derived_unstored(self.model().props)
    }

    /// The dependency map is exact: it lists, under each stored property,
    /// exactly the derived properties that transitively depend on it, once
    /// each.
    pub open spec fn dm_wf(self) -> bool {
        dm_exact(self.dependency_map@, self.model().props)
    }

    /// The index for rank `r` is coherent: every entry pairs an entity
    /// below the watermark with the index key of its current value, and
    /// every entity below the watermark that has a value appears under that
    /// value's key. Entities whose value is `None` are not indexed.
    pub open spec fn index_ok(self, r: int) -> bool {
        let c = self.model();
        let idx = self.property_indexes.entries@[r];
        &&& idx.max_indexed <= c.count
        &&& idx.buckets_wf()
        &&& (!idx.is_enabled() ==> idx.max_indexed == 0)
        &&& (idx.is_enabled() ==> forall|kv: KeyView, e: int|
            #[trigger] idx.has_entry(kv, e) <==> (0 <= e < idx.max_indexed && key_of_value(
                computed_value(c.props, c.eval, r, e),
            ) == Some(kv)))
    }

    /// Well-formedness of the whole table.
    pub open spec fn wf(self) -> bool {
        &&& self.aligned()
        &&& self.keys_unique()
        &&& self.deps_wf()
        &&& self.derived_unstored()
        &&& self.dm_wf()
        &&& forall|r: int| 0 <= r < self.n_props() ==> #[trigger] self.index_ok(r)
    }

    /// A fresh table around the given evaluator: no entities, no
    /// registered properties.
    pub fn new(eval: E) -> (r: EntityData<E>)
        ensures
            r.wf(),
            r.model().count == 0,
            r.model().props.len() == 0,
            r.model().eval == eval,
            !r.is_initializing,
    {
        EntityData {
            is_initializing: false,
            entity_count: 0,
            properties_map: Vec::new(),
            property_metadata: Vec::new(),
            declared_deps: Vec::new(),
            dependency_map: Vec::new(),
            property_indexes: IndexMap::new(),
            eval,
        }
    }

    /// Declares that `size` entities exist, none of them holding any
    /// property value yet. The count never shrinks.
    pub fn create_entities(&mut self, size: usize)
        requires
            old(self).wf(),
            old(self).entity_count <= size,
        ensures
            final(self).wf(),
            final(self).model() == (CoreView { count: size as int, ..old(self).model() }),
            final(self).property_indexes.entries@ == old(self).property_indexes.entries@,
    {
        self.entity_count = size;
        proof {
            assert(final(self).model() =~~= (CoreView { count: size as int, ..old(self).model() }));
            assert forall|r: int| 0 <= r < self.n_props() implies #[trigger] self.index_ok(
                r,
            ) by {
                assert(old(self).index_ok(r));
            }
        }
    }

    /// Creates one new entity, with no property values yet, and returns
    /// its id: the previous entity count.
    pub fn add_entity(&mut self) -> (r: EntityId)
        requires
            old(self).wf(),
            old(self).entity_count < usize::MAX,
        ensures
            final(self).wf(),
            r.0 == old(self).model().count,
            final(self).model() == (
            CoreView { count: old(self).model().count + 1, ..old(self).model() }),
            final(self).property_indexes.entries@ == old(self).property_indexes.entries@,
    {
        let entity_id = EntityId(self.entity_count);
        let ghost olds = *self;
        self.entity_count = self.entity_count + 1;
        proof {
            assert(self.model() =~~= (CoreView { count: olds.model().count + 1, ..olds.model() }));
            assert forall|r: int| 0 <= r < self.n_props() implies #[trigger] self.index_ok(
                r,
            ) by {
                assert(olds.index_ok(r));
            }
        }
        entity_id
    }

    /// The rank under which `key` is registered, if it is.
    pub fn find_rank(&self, key: usize) -> (r: Option<usize>)
        requires
            self.keys_unique(),
        ensures
            match r {
                Some(rank) => rank < self.model().props.len() && self.model().props[rank as int].key
                    == key as int && registered(self.model().props, key as int) && rank_of(
                    self.model().props,
                    key as int,
                ) == rank as int,
                None => !registered(self.model().props, key as int),
            },
    {
        let n = self.property_metadata.len();
        let mut r: usize = 0;
        while r < n
            invariant
                self.keys_unique(),
                n == self.property_metadata@.len(),
                0 <= r <= n,
                forall|j: int| 0 <= j < r ==> (#[trigger] self.model().props[j]).key != key as int,
            decreases n - r,
        {
            if self.property_metadata[r].type_id() == key {
                proof {
                    assert((#[trigger] self.model().props[r as int]).key == key as int);
                    assert(registered(self.model().props, key as int));
                    let w = rank_of(self.model().props, key as int);
                    assert(0 <= w < self.model().props.len() && self.model().props[w].key
                        == key as int);
                    assert(w == r as int) by {
                        if w < r as int {
                            assert((#[trigger] self.model().props[w]).key != (
                            #[trigger] self.model().props[r as int]).key);
                        } else if w > r as int {
                            assert((#[trigger] self.model().props[r as int]).key != (
                            #[trigger] self.model().props[w]).key);
                        }
                    }
                }
                return Some(r);
            }
            r += 1;
        }
        proof {
            if registered(self.model().props, key as int) {
                let w = choose|w: int|
                    0 <= w < self.model().props.len() && (#[trigger] self.model().props[w]).key
                        == key as int;
                assert(false);
            }
        }
        None
    }

    /// Reports whether `key` is already registered.
    pub fn is_registered(&self, key: usize) -> (r: bool)
        requires
            self.keys_unique(),
        ensures
            r == registered(self.model().props, key as int),
    {
        self.find_rank(key).is_some()
    }

    /// Reads the stored (column) value of the property registered under
    /// `key` for `entity_id`: `None` if the key is unregistered, the row is
    /// past the column, or the row is empty. Derived properties have no
    /// stored value.
    pub fn get_property_ref(&self, key: usize, entity_id: EntityId) -> (r: Option<&Vec<u8>>)
        requires
            self.wf(),
        ensures
            match r {
                Some(v) => stored_by_key(self.model().props, key as int, entity_id.0 as int)
                    == Some(v@),
                None => stored_by_key(self.model().props, key as int, entity_id.0 as int) is None,
            },
    {
        match self.find_rank(key) {
            None => None,
            Some(rank) => self.properties_map[rank].get_at(entity_id.0),
        }
    }

    /// Computes the value of the property ranked `r` for entity `e`: the
    /// column row for a stored property, the evaluator's result over the
    /// recursively computed dependency values for a derived one.
    pub fn compute_value(&self, r: usize, e: usize) -> (res: Option<Vec<u8>>)
        requires
            self.aligned(),
            self.deps_wf(),
            r < self.n_props(),
        ensures
            obv(res) == computed_value(self.model().props, self.model().eval, r as int, e as int),
        decreases r,
    {
        let ghost props = self.model().props;
        if !self.property_metadata[r].is_derived() {
            let res = self.properties_map[r].read_at(e);
            proof {
                assert(computed_value(props, self.model().eval, r as int, e as int) == stored_at(
                    props,
                    r as int,
                    e as int,
                ));
                assert(stored_at(props, r as int, e as int) == self.properties_map@[r as int].at(
                    e as int,
                ));
            }
            res
        } else {
            let n = self.declared_deps[r].len();
            let mut vals: Vec<Option<Vec<u8>>> = Vec::new();
            let mut j: usize = 0;
            while j < n
                invariant
                    self.aligned(),
                    self.deps_wf(),
                    r < self.n_props(),
                    props == self.model().props,
                    n == self.declared_deps@[r as int]@.len(),
                    n == props[r as int].deps.len(),
                    0 <= j <= n,
                    vals@.len() == j,
                    forall|i: int|
                        0 <= i < j ==> obv(#[trigger] vals@[i]) == dep_values(
                            props,
                            self.model().eval,
                            r as int,
                            e as int,
                        )[i],
                decreases n - j,
            {
                let d = self.declared_deps[r][j];
                proof {
                    assert(props[r as int].deps[j as int] == d as int);
                    assert(0 <= d < r);
                }
                let v = self.compute_value(d, e);
                vals.push(v);
                proof {
                    assert(dep_values(props, self.model().eval, r as int, e as int)[j as int]
                        == computed_value(props, self.model().eval, d as int, e as int));
                }
                j += 1;
            }
            let res = self.eval.compute(self.property_metadata[r].type_id(), &vals);
            proof {
                let dv = dep_values(props, self.model().eval, r as int, e as int);
                assert(deps_view(vals@) =~= dv);
                assert(computed_value(props, self.model().eval, r as int, e as int)
                    == self.model().eval.compute_spec(props[r as int].key, dv));
            }
            res
        }
    }

    /// A reference to the index of the property ranked `r`.
    pub fn get_index_ref(&self, r: usize) -> (idx: &Index)
        requires
            self.aligned(),
            r < self.n_props(),
        ensures
            *idx == self.property_indexes.entries@[r as int],
    {
        &self.property_indexes.entries[r]
    }

    /// Exclusive access to the index of the property ranked `r`. A caller
    /// that mutates the index through it is responsible for keeping it
    /// coherent with the property's values.
    pub fn get_index_mut(&mut self, r: usize) -> (idx: &mut Index)
        requires
            old(self).aligned(),
            r < old(self).n_props(),
        ensures
            *idx == old(self).property_indexes.entries@[r as int],
            final(self).property_indexes.entries@ == old(self).property_indexes.entries@.update(
                r as int,
                *final(idx),
            ),
            *final(self) == (
            EntityData { property_indexes: final(self).property_indexes, ..*old(self) }),
    {
        &mut self.property_indexes.entries[r]
    }

    /// Enables the index of the property ranked `r`: gives it an empty
    /// table. Does not populate it; that happens lazily on the next query.
    pub fn enable_index(&mut self, r: usize)
        requires
            old(self).wf(),
            r < old(self).n_props(),
        ensures
            final(self).wf(),
            final(self).model() == old(self).model(),
            final(self).is_initializing == old(self).is_initializing,
            forall|r2: int|
                0 <= r2 < old(self).property_indexes.entries@.len() && r2 != r
                    ==> final(self).property_indexes.entries@[r2] == old(self).property_indexes.entries@[r2],
            final(self).property_indexes.entries@.len() == old(self).property_indexes.entries@.len(),
            final(self).property_indexes.entries@[r as int].is_enabled(),
            final(self).property_indexes.entries@[r as int].max_indexed == old(self).property_indexes.entries@[r as int].max_indexed,
            old(self).property_indexes.entries@[r as int].is_enabled() ==> final(self).property_indexes.entries@[r as int] == old(self).property_indexes.entries@[r as int],
            !old(self).property_indexes.entries@[r as int].is_enabled() ==> final(self).property_indexes.entries@[r as int].buckets() == Seq::<IndexBucket>::empty(),
    {
        let idx = &mut self.property_indexes.entries[r];
        idx.enable();
        proof {
            assert(final(self).model() =~~= old(self).model());
            assert forall|r2: int| 0 <= r2 < self.n_props() implies #[trigger] self.index_ok(
                r2,
            ) by {
                assert(old(self).index_ok(r2));
                if r2 == r as int && !old(self).property_indexes.entries@[r2].is_enabled() {
                    let nidx = self.property_indexes.entries@[r2];
                    assert(nidx.max_indexed == 0);
                    assert(nidx.buckets().len() == 0);
                    assert forall|kv: KeyView, e: int| !(#[trigger] nidx.has_entry(kv, e)) by {}
                }
            }
        }
    }

    /// Brings the index of the property ranked `r` up to date: entities
    /// from the watermark up to the entity count are added under the index
    /// key of their current value; entities without a value are skipped.
    /// A no-op while the index is disabled.
    pub fn index_unindexed_entities(&mut self, r: usize)
        requires
            old(self).wf(),
            r < old(self).n_props(),
        ensures
            final(self).wf(),
            final(self).model() == old(self).model(),
            final(self).is_initializing == old(self).is_initializing,
            forall|r2: int|
                0 <= r2 < old(self).property_indexes.entries@.len() && r2 != r
                    ==> final(self).property_indexes.entries@[r2] == old(self).property_indexes.entries@[r2],
            final(self).property_indexes.entries@.len() == old(self).property_indexes.entries@.len(),
            final(self).property_indexes.entries@[r as int].is_enabled() == old(self).property_indexes.entries@[r as int].is_enabled(),
            old(self).property_indexes.entries@[r as int].is_enabled() ==> final(self).property_indexes.entries@[r as int].max_indexed == final(self).entity_count,
            !old(self).property_indexes.entries@[r as int].is_enabled() ==> *final(self) == *old(self),
    {
        if self.property_indexes.entries[r].lookup.is_none() {
            return ;
        }
        let from = self.property_indexes.entries[r].max_indexed;
        let count = self.entity_count;
        proof {
            assert(self.index_ok(r as int));
        }
        let ghost props = self.model().props;
        let ghost ev = self.model().eval;
        // First read every missing value, then feed the index: computing a
        // derived value reads the columns, which stay untouched here.
        let mut vals: Vec<Option<Vec<u8>>> = Vec::new();
        let mut e: usize = from;
        while e < count
            invariant
                self.aligned(),
                self.deps_wf(),
                r < self.n_props(),
                props == self.model().props,
                ev == self.model().eval,
                from <= e <= count,
                vals@.len() == e - from,
                forall|i: int|
                    0 <= i < vals@.len() ==> obv(#[trigger] vals@[i]) == computed_value(
                        props,
                        ev,
                        r as int,
                        from + i,
                    ),
            decreases count - e,
        {
            let v = self.compute_value(r, e);
            vals.push(v);
            e += 1;
        }
        let ghost olds = *self;
        proof {
            assert(olds.index_ok(r as int));
        }
        let mut i: usize = 0;
        let n = count - from;
        while i < n
            invariant
                olds.wf(),
                r < olds.n_props(),
                n == count - from,
                count == olds.entity_count,
                from == olds.property_indexes.entries@[r as int].max_indexed,
                0 <= i <= n,
                vals@.len() == n,
                forall|ii: int|
                    0 <= ii < n ==> obv(#[trigger] vals@[ii]) == computed_value(
                        props,
                        ev,
                        r as int,
                        from + ii,
                    ),
                props == olds.model().props,
                ev == olds.model().eval,
                *self == (EntityData { property_indexes: self.property_indexes, ..olds }),
                self.property_indexes.entries@.len() == olds.property_indexes.entries@.len(),
                forall|r2: int|
                    0 <= r2 < olds.property_indexes.entries@.len() && r2 != r
                        ==> #[trigger] self.property_indexes.entries@[r2] == olds.property_indexes.entries@[r2],
                self.property_indexes.entries@[r as int].is_enabled(),
                self.property_indexes.entries@[r as int].buckets_wf(),
                self.property_indexes.entries@[r as int].max_indexed == from,
                forall|kv: KeyView, en: int|
                    #[trigger] self.property_indexes.entries@[r as int].has_entry(kv, en) <==> (0 <= en
                        < from + i && key_of_value(computed_value(props, ev, r as int, en)) == Some(
                        kv,
                    )),
            decreases n - i,
        {
            let has = match &vals[i] {
                Some(v) => Some(IndexValue::new(v)),
                None => None,
            };
            match has {
                Some(iv) => {
                    let ghost pre_idx = self.property_indexes.entries@[r as int];
                    let idx = &mut self.property_indexes.entries[r];
                    idx.insert((EntityId(from + i), iv));
                },
                None => {},
            }
            i += 1;
        }
        let ghost mid = *self;
        let idx = &mut self.property_indexes.entries[r];
        idx.max_indexed = count;
        proof {
            assert(final(self).model() =~~= old(self).model());
            let nidx = self.property_indexes.entries@[r as int];
            let mididx = mid.property_indexes.entries@[r as int];
            assert(nidx.lookup == mididx.lookup);
            assert(nidx.buckets() == mididx.buckets());
            assert(nidx.max_indexed == count);
            assert forall|r2: int| 0 <= r2 < self.n_props() implies #[trigger] self.index_ok(
                r2,
            ) by {
                assert(old(self).index_ok(r2));
                if r2 == r as int {
                    assert(nidx.buckets_wf()) by {
                        assert(mididx.buckets_wf());
                    }
                    assert forall|kv: KeyView, en: int|
                        #[trigger] nidx.has_entry(kv, en) <==> (0 <= en < nidx.max_indexed
                            && key_of_value(
                            computed_value(
                                self.model().props,
                                self.model().eval,
                                r as int,
                                en,
                            ),
                        ) == Some(kv)) by {
                        assert(nidx.has_entry(kv, en) == mididx.has_entry(kv, en));
                        assert(mididx.has_entry(kv, en) <==> (0 <= en < from + (count - from)
                            && key_of_value(computed_value(props, ev, r as int, en)) == Some(kv)));
                    }
                } else {
                    assert(self.property_indexes.entries@[r2] == old(self).property_indexes.entries@[r2]);
                }
            }
        }
    }

    /// Writes `value` into the column of the stored property ranked `rk`
    /// for `entity_id`, keeping every enabled index coherent: the entity is
    /// removed from the buckets of `rk` and of every derived property that
    /// depends on `rk`, the cell is written, and the entity is re-added
    /// under the new keys. Entities at or above an index's watermark are
    /// left to the lazy catch-up.
    pub(crate) fn set_stored_at_rank(&mut self, rk: usize, entity_id: EntityId, value: Vec<u8>)
        requires
            old(self).wf(),
            rk < old(self).n_props(),
            !old(self).model().props[rk as int].derived,
            entity_id.0 < usize::MAX,
        ensures
            final(self).wf(),
            final(self).model().count == old(self).model().count,
            final(self).model().eval == old(self).model().eval,
            final(self).is_initializing == old(self).is_initializing,
            final(self).n_props() == old(self).n_props(),
            same_except_column(old(self).model().props, final(self).model().props, rk as int),
            stored_at(final(self).model().props, rk as int, entity_id.0 as int) == Some(value@),
            forall|j: int|
                j != entity_id.0 as int ==> stored_at(final(self).model().props, rk as int, j)
                    == stored_at(old(self).model().props, rk as int, j),
            forall|r2: int|
                0 <= r2 < old(self).n_props()
                    ==> (#[trigger] final(self).property_indexes.entries@[r2]).is_enabled() == old(self).property_indexes.entries@[r2].is_enabled() && final(self).property_indexes.entries@[r2].max_indexed
                    == old(self).property_indexes.entries@[r2].max_indexed,
    {
        let ghost oldp = old(self).model().props;
        let ghost ev = old(self).model().eval;
        let e = entity_id.0;
        // The property itself and every derived property depending on it.
        let mut affected: Vec<usize> = Vec::new();
        affected.push(rk);
        {
            let deps_list = &self.dependency_map[rk];
            let m = deps_list.len();
            let mut t: usize = 0;
            while t < m
                invariant
                    m == deps_list@.len(),
                    0 <= t <= m,
                    affected@.len() == t + 1,
                    affected@[0] == rk,
                    forall|i: int| 1 <= i < affected@.len() ==> affected@[i] == deps_list@[i - 1],
                decreases m - t,
            {
                affected.push(deps_list[t]);
                t += 1;
            }
        }
        proof {
            assert forall|x: int| in_ranks(affected@, x) <==> (x == rk as int || dm_has(
                self.dependency_map@,
                rk as int,
                x,
            )) by {
                if in_ranks(affected@, x) {
                    let i = choose|i: int|
                        0 <= i < affected@.len() && (#[trigger] affected@[i]) == x;
                    if i > 0 {
                        assert(self.dependency_map@[rk as int]@[i - 1] == x);
                        assert(dm_has(self.dependency_map@, rk as int, x));
                    }
                }
                if x == rk as int {
                    assert(affected@[0] == x);
                }
                if dm_has(self.dependency_map@, rk as int, x) {
                    let i = choose|i: int|
                        0 <= i < self.dependency_map@[rk as int]@.len() && (
                        #[trigger] self.dependency_map@[rk as int]@[i]) == x;
                    assert(affected@[i + 1] == x);
                }
            }
            assert forall|i: int| 0 <= i < affected@.len() implies (#[trigger] affected@[i])
                < self.n_props() by {
                if i > 0 {
                    assert(dm_has(self.dependency_map@, rk as int, affected@[i] as int));
                }
            }
        }
        let ghost aff = affected@;
        let ghost olds = *self;
        let n_aff = affected.len();
        // Remove the entity from the buckets of every affected index, under
        // the key of its value before the write.
        let mut i: usize = 0;
        while i < n_aff
            invariant
                olds.wf(),
                rk < olds.n_props(),
                entity_id.0 == e,
                n_aff == aff.len(),
                aff == affected@,
                forall|ii: int| 0 <= ii < aff.len() ==> (#[trigger] aff[ii]) < olds.n_props(),
                0 <= i <= n_aff,
                *self == (EntityData { property_indexes: self.property_indexes, ..olds }),
                self.model().props == olds.model().props,
                self.model().eval == olds.model().eval,
                self.aligned(),
                self.deps_wf(),
                self.property_indexes.entries@.len() == olds.property_indexes.entries@.len(),
                forall|r2: int|
                    0 <= r2 < olds.n_props() && !seen_in(aff, i as int, r2)
                        ==> #[trigger] self.property_indexes.entries@[r2] == olds.property_indexes.entries@[r2],
                forall|r2: int|
                    0 <= r2 < olds.n_props() && seen_in(aff, i as int, r2) ==> removed_state(
                        olds.property_indexes.entries@[r2],
                        #[trigger] self.property_indexes.entries@[r2],
                        entity_id.0 as int,
                    ),
            decreases n_aff - i,
        {
            let a = affected[i];
            let ghost base = olds.property_indexes.entries@[a as int];
            let ghost pre_iter = *self;
            proof {
                assert(olds.index_ok(a as int));
                if seen_in(aff, i as int, a as int) {
                    assert(removed_state(base, self.property_indexes.entries@[a as int], e as int));
                } else {
                    assert(self.property_indexes.entries@[a as int] == base);
                }
            }
            let enabled = self.property_indexes.entries[a].lookup.is_some();
            let max = self.property_indexes.entries[a].max_indexed;
            if enabled && e < max {
                let oldv = self.compute_value(a, e);
                match oldv {
                    Some(b) => {
                        let iv = IndexValue::new(&b);
                        let ghost pre = self.property_indexes.entries@[a as int];
                        let idx = &mut self.property_indexes.entries[a];
                        idx.remove_entry(entity_id, &iv);
                        proof {
                            assert(self.model().props =~~= olds.model().props);
                            lemma_removed_state(
                                olds,
                                pre,
                                self.property_indexes.entries@[a as int],
                                a as int,
                                e as int,
                                iv@,
                            );
                        }
                    },
                    None => {
                        proof {
                            let pre = self.property_indexes.entries@[a as int];
                            if !seen_in(aff, i as int, a as int) {
                                assert forall|kv: KeyView| !(#[trigger] pre.has_entry(
                                    kv,
                                    e as int,
                                )) by {
                                    if pre.has_entry(kv, e as int) {
                                        assert(key_of_value(
                                            computed_value(
                                                olds.model().props,
                                                olds.model().eval,
                                                a as int,
                                                e as int,
                                            ),
                                        ) == Some(kv));
                                    }
                                }
                            }
                            assert(removed_state(base, pre, e as int));
                        }
                    },
                }
            } else {
                proof {
                    let pre = self.property_indexes.entries@[a as int];
                    if !seen_in(aff, i as int, a as int) {
                        assert forall|kv: KeyView| !(#[trigger] pre.has_entry(kv, e as int)) by {
                            if pre.has_entry(kv, e as int) {
                                assert((e as int) < pre.max_indexed);
                            }
                        }
                    }
                    assert(removed_state(base, pre, e as int));
                }
            }
            i += 1;
            proof {
                assert forall|r2: int|
                    0 <= r2 < olds.n_props() && seen_in(aff, i as int, r2) implies removed_state(
                        olds.property_indexes.entries@[r2],
                        #[trigger] self.property_indexes.entries@[r2],
                        entity_id.0 as int,
                    ) by {
                    if r2 != a as int {
                        assert(self.property_indexes.entries@[r2] == pre_iter.property_indexes.entries@[r2]);
                        assert(seen_in(aff, i - 1, r2)) by {
                            let j = choose|j: int|
                                0 <= j < i && j < aff.len() && (#[trigger] aff[j]) == r2;
                            assert(j != i - 1);
                        }
                    }
                }
                assert forall|r2: int|
                    0 <= r2 < olds.n_props() && !seen_in(aff, i as int, r2)
                        implies #[trigger] self.property_indexes.entries@[r2]
                    == olds.property_indexes.entries@[r2] by {
                    assert(!seen_in(aff, i - 1, r2)) by {
                        if seen_in(aff, i - 1, r2) {
                            let j = choose|j: int|
                                0 <= j < i - 1 && j < aff.len() && (#[trigger] aff[j]) == r2;
                            assert(seen_in(aff, i as int, r2));
                        }
                    }
                    assert(r2 != a as int) by {
                        if r2 == a as int {
                            assert(aff[i - 1] == r2);
                            assert(seen_in(aff, i as int, r2));
                        }
                    }
                    assert(self.property_indexes.entries@[r2] == pre_iter.property_indexes.entries@[r2]);
                }
                assert(self.model().props =~~= olds.model().props);
                assert(*self == (EntityData { property_indexes: self.property_indexes, ..olds }));
            }
        }
        proof {
            assert(*self == (EntityData { property_indexes: self.property_indexes, ..olds }));
        }
        // Write the cell.
        {
            let col = &mut self.properties_map[rk];
            col.set_at(e, value);
        }
        proof {
            assert(same_except_column(oldp, self.model().props, rk as int)) by {
                assert forall|r: int| 0 <= r < oldp.len() && r != rk as int implies (
                #[trigger] self.model().props[r]) == oldp[r] by {
                    assert(self.properties_map@[r] == olds.properties_map@[r]);
                    assert(self.model().props[r] =~~= oldp[r]);
                }
                assert(self.model().props[rk as int] =~~= (PropModel {
                    column: self.model().props[rk as int].column,
                    ..oldp[rk as int]
                }));
            }
            assert(stored_at(self.model().props, rk as int, e as int) == Some(value@));
            assert forall|j: int| j != e as int implies stored_at(
                self.model().props,
                rk as int,
                j,
            ) == stored_at(oldp, rk as int, j) by {
                assert(self.properties_map@[rk as int].at(j) == olds.properties_map@[rk as int].at(
                    j,
                ));
            }
        }
        let ghost newp = self.model().props;
        let ghost mid2 = *self;
        // Re-add the entity under the key of its value after the write.
        let mut i2: usize = 0;
        while i2 < n_aff
            invariant
                olds.wf(),
                mid2.aligned(),
                mid2.deps_wf(),
                rk < olds.n_props(),
                entity_id.0 == e,
                n_aff == aff.len(),
                aff == affected@,
                forall|ii: int| 0 <= ii < aff.len() ==> (#[trigger] aff[ii]) < olds.n_props(),
                0 <= i2 <= n_aff,
                newp == mid2.model().props,
                ev == mid2.model().eval,
                mid2.n_props() == olds.n_props(),
                *self == (EntityData { property_indexes: self.property_indexes, ..mid2 }),
                self.model().props == newp,
                self.model().eval == ev,
                self.aligned(),
                self.deps_wf(),
                self.property_indexes.entries@.len() == olds.property_indexes.entries@.len(),
                forall|r2: int|
                    0 <= r2 < olds.n_props() && !seen_in(aff, i2 as int, r2)
                        ==> #[trigger] self.property_indexes.entries@[r2] == mid2.property_indexes.entries@[r2],
                forall|r2: int|
                    0 <= r2 < olds.n_props() && seen_in(aff, i2 as int, r2) ==> added_state(
                        olds.property_indexes.entries@[r2],
                        #[trigger] self.property_indexes.entries@[r2],
                        entity_id.0 as int,
                        key_of_value(computed_value(newp, ev, r2, entity_id.0 as int)),
                    ),
                forall|r2: int|
                    0 <= r2 < olds.n_props() && in_ranks(aff, r2) ==> removed_state(
                        olds.property_indexes.entries@[r2],
                        #[trigger] mid2.property_indexes.entries@[r2],
                        entity_id.0 as int,
                    ),
                forall|r2: int|
                    0 <= r2 < olds.n_props() && !in_ranks(aff, r2)
                        ==> #[trigger] mid2.property_indexes.entries@[r2] == olds.property_indexes.entries@[r2],
            decreases n_aff - i2,
        {
            let a = affected[i2];
            let ghost base = olds.property_indexes.entries@[a as int];
            let ghost nk = key_of_value(computed_value(newp, ev, a as int, e as int));
            let ghost pre_iter = *self;
            proof {
                assert(olds.index_ok(a as int));
                assert(in_ranks(aff, a as int)) by {
                    assert(aff[i2 as int] == a);
                }
                if seen_in(aff, i2 as int, a as int) {
                    assert(added_state(base, self.property_indexes.entries@[a as int], e as int, nk));
                } else {
                    assert(self.property_indexes.entries@[a as int] == mid2.property_indexes.entries@[a as int]);
                    assert(removed_state(base, self.property_indexes.entries@[a as int], e as int));
                }
            }
            let enabled = self.property_indexes.entries[a].lookup.is_some();
            let max = self.property_indexes.entries[a].max_indexed;
            if enabled && e < max {
                let newv = self.compute_value(a, e);
                match newv {
                    Some(b) => {
                        let iv = IndexValue::new(&b);
                        proof {
                            assert(nk == Some(iv@));
                        }
                        let idx = &mut self.property_indexes.entries[a];
                        idx.insert((entity_id, iv));
                        proof {
                            assert(self.model().props =~~= newp);
                            assert(added_state(
                                base,
                                self.property_indexes.entries@[a as int],
                                e as int,
                                nk,
                            ));
                        }
                    },
                    None => {
                        proof {
                            assert(nk is None);
                            assert(added_state(
                                base,
                                self.property_indexes.entries@[a as int],
                                e as int,
                                nk,
                            ));
                        }
                    },
                }
            } else {
                proof {
                    let pre = self.property_indexes.entries@[a as int];
                    assert(pre.is_enabled() == base.is_enabled() && pre.max_indexed
                        == base.max_indexed);
                    assert(added_state(base, pre, e as int, nk));
                }
            }
            i2 += 1;
            proof {
                assert forall|r2: int|
                    0 <= r2 < olds.n_props() && seen_in(aff, i2 as int, r2) implies added_state(
                        olds.property_indexes.entries@[r2],
                        #[trigger] self.property_indexes.entries@[r2],
                        entity_id.0 as int,
                        key_of_value(computed_value(newp, ev, r2, entity_id.0 as int)),
                    ) by {
                    if r2 != a as int {
                        assert(self.property_indexes.entries@[r2] == pre_iter.property_indexes.entries@[r2]);
                        assert(seen_in(aff, i2 - 1, r2)) by {
                            let j = choose|j: int|
                                0 <= j < i2 && j < aff.len() && (#[trigger] aff[j]) == r2;
                            assert(j != i2 - 1);
                        }
                    }
                }
                assert forall|r2: int|
                    0 <= r2 < olds.n_props() && !seen_in(aff, i2 as int, r2)
                        implies #[trigger] self.property_indexes.entries@[r2]
                    == mid2.property_indexes.entries@[r2] by {
                    assert(!seen_in(aff, i2 - 1, r2)) by {
                        if seen_in(aff, i2 - 1, r2) {
                            let j = choose|j: int|
                                0 <= j < i2 - 1 && j < aff.len() && (#[trigger] aff[j]) == r2;
                            assert(seen_in(aff, i2 as int, r2));
                        }
                    }
                    assert(r2 != a as int) by {
                        if r2 == a as int {
                            assert(aff[i2 - 1] == r2);
                            assert(seen_in(aff, i2 as int, r2));
                        }
                    }
                    assert(self.property_indexes.entries@[r2] == pre_iter.property_indexes.entries@[r2]);
                }
                assert(self.model().props =~~= newp);
                assert(*self == (EntityData { property_indexes: self.property_indexes, ..mid2 }));
            }
        }
        proof {
            assert forall|r2: int|
                0 <= r2 < olds.n_props() && in_ranks(aff, r2) implies added_state(
                    olds.property_indexes.entries@[r2],
                    #[trigger] self.property_indexes.entries@[r2],
                    entity_id.0 as int,
                    key_of_value(computed_value(newp, ev, r2, entity_id.0 as int)),
                ) by {
                let j = choose|j: int| 0 <= j < aff.len() && (#[trigger] aff[j]) == r2;
                assert(seen_in(aff, n_aff as int, r2));
            }
            assert forall|r2: int|
                0 <= r2 < olds.n_props() && !in_ranks(aff, r2)
                    implies #[trigger] self.property_indexes.entries@[r2]
                == olds.property_indexes.entries@[r2] by {
                assert(!seen_in(aff, n_aff as int, r2)) by {
                    if seen_in(aff, n_aff as int, r2) {
                        let j = choose|j: int|
                            0 <= j < n_aff && j < aff.len() && (#[trigger] aff[j]) == r2;
                        assert(in_ranks(aff, r2));
                    }
                }
            }
        }
        proof {
            self.lemma_set_stored_wf(olds, aff, rk as int, entity_id.0 as int);
        }
    }

    /// Sets the flag that marks a new entity's initial properties as being
    /// written, which suppresses change notifications during construction.
    pub fn set_initializing(&mut self, value: bool)
        requires
            old(self).wf(),
        ensures
            final(self).wf(),
            final(self).model() == old(self).model(),
            final(self).property_indexes.entries@ == old(self).property_indexes.entries@,
            final(self).is_initializing == value,
            *final(self) == (EntityData { is_initializing: value, ..*old(self) }),
    {
        self.is_initializing = value;
        proof {
            assert(final(self).model() =~~= old(self).model());
            assert forall|r: int| 0 <= r < self.n_props() implies #[trigger] self.index_ok(
                r,
            ) by {
                assert(old(self).index_ok(r));
            }
        }
    }

    /// Fails when some registered required property has no entry in the
    /// initialization list.
    pub fn check_initialization_list(&self, initialization: &InitializationList) -> (r: Result<
        (),
        EntityError,
    >)
        ensures
            r is Ok <==> covers_required(self.model().props, initialization.entries@),
            r matches Err(err) ==> exists|rr: int|
                0 <= rr < self.model().props.len() && (#[trigger] self.model().props[rr]).required
                    && !il_has(initialization.entries@, self.model().props[rr].key)
                    && err.spec_message() == "Missing initial value "@ + self.model().props[rr].name,
    {
        let n = self.property_metadata.len();
        let mut i: usize = 0;
        while i < n
            invariant
                n == self.model().props.len(),
                0 <= i <= n,
                forall|rr: int|
                    0 <= rr < i && (#[trigger] self.model().props[rr]).required ==> il_has(
                        initialization.entries@,
                        self.model().props[rr].key,
                    ),
            decreases n - i,
        {
            let info = &self.property_metadata[i];
            if info.is_required() && !initialization.has_property(info.type_id()) {
                let err = EntityError::missing_initial_value(info.name());
                proof {
                    assert((#[trigger] self.model().props[i as int]).required && !il_has(
                        initialization.entries@,
                        self.model().props[i as int].key,
                    ) && err.spec_message() == "Missing initial value "@
                        + self.model().props[i as int].name);
                }
                return Err(err);
            }
            i += 1;
        }
        Ok(())
    }

    /// The value of the property registered under `key` for `entity_id`:
    /// the stored value for a stored property, the computed value for a
    /// derived one, `None` while the key is unregistered.
    pub fn get_property(&self, key: usize, entity_id: EntityId) -> (r: Option<Vec<u8>>)
        requires
            self.wf(),
        ensures
            obv(r) == value_by_key(
                self.model().props,
                self.model().eval,
                key as int,
                entity_id.0 as int,
            ),
    {
        match self.find_rank(key) {
            None => None,
            Some(rk) => self.compute_value(rk, entity_id.0),
        }
    }

    /// Whether some rank among `ranks`, or a derived property one of them
    /// transitively depends on, makes the new property a dependent of the
    /// stored property ranked `k`.
    fn is_dependent_of(&self, ranks: &Vec<usize>, k: usize) -> (r: bool)
        requires
            (k as int) < self.dependency_map@.len(),
        ensures
            r == (in_ranks(ranks@, k as int) || exists|j: int|
                0 <= j < ranks@.len() && dm_has(
                    self.dependency_map@,
                    k as int,
                    #[trigger] ranks@[j] as int,
                )),
    {
        if contains_usize(ranks, k) {
            return true;
        }
        let n = ranks.len();
        let mut j: usize = 0;
        while j < n
            invariant
                (k as int) < self.dependency_map@.len(),
                n == ranks@.len(),
                0 <= j <= n,
                forall|jj: int|
                    0 <= jj < j ==> !dm_has(
                        self.dependency_map@,
                        k as int,
                        #[trigger] ranks@[jj] as int,
                    ),
            decreases n - j,
        {
            if contains_usize(&self.dependency_map[k], ranks[j]) {
                proof {
                    assert(dm_has(self.dependency_map@, k as int, ranks@[j as int] as int));
                }
                return true;
            }
            j += 1;
        }
        false
    }

    /// Registers a derived property under `key`, declaring the properties
    /// registered under `dep_keys` — already registered, possibly
    /// themselves derived — as the inputs of its computation, in that
    /// order. Every stored property the new property transitively depends
    /// on gains it as a dependent. The new property gets a disabled index
    /// slot and no column: derived values are computed, never stored.
    pub fn register_derived_property(&mut self, key: usize, name: String, dep_keys: &Vec<usize>)
        requires
            old(self).wf(),
            !registered(old(self).model().props, key as int),
            forall|j: int|
                0 <= j < dep_keys@.len() ==> registered(
                    old(self).model().props,
                    #[trigger] dep_keys@[j] as int,
                ),
        ensures
            final(self).wf(),
            final(self).model().count == old(self).model().count,
            final(self).model().eval == old(self).model().eval,
            final(self).is_initializing == old(self).is_initializing,
            final(self).model().props == old(self).model().props.push(
                PropModel {
                    key: key as int,
                    name: name@,
                    required: false,
                    derived: true,
                    deps: Seq::new(
                        dep_keys@.len() as nat,
                        |j: int| rank_of(old(self).model().props, dep_keys@[j] as int),
                    ),
                    column: Seq::<Option<Seq<u8>>>::empty(),
                },
            ),
            forall|r2: int|
                0 <= r2 < old(self).property_indexes.entries@.len()
                    ==> final(self).property_indexes.entries@[r2] == old(self).property_indexes.entries@[r2],
            final(self).property_indexes.entries@.len() == old(self).property_indexes.entries@.len() + 1,
            !final(self).property_indexes.entries@.last().is_enabled(),
    {
        let ghost oldp = old(self).model().props;
        let ghost olddm = old(self).dependency_map@;
        // Resolve the declared dependencies to their ranks.
        let mut ranks: Vec<usize> = Vec::new();
        let nd = dep_keys.len();
        let mut j: usize = 0;
        while j < nd
            invariant
                old(self).wf(),
                *self == *old(self),
                oldp == self.model().props,
                forall|jj: int|
                    0 <= jj < dep_keys@.len() ==> registered(
                        oldp,
                        #[trigger] dep_keys@[jj] as int,
                    ),
                nd == dep_keys@.len(),
                0 <= j <= nd,
                ranks@.len() == j,
                forall|jj: int|
                    0 <= jj < j ==> (#[trigger] ranks@[jj]) as int == rank_of(
                        oldp,
                        dep_keys@[jj] as int,
                    ) && (ranks@[jj] as int) < oldp.len(),
            decreases nd - j,
        {
            let rj = match self.find_rank(dep_keys[j]) {
                Some(rj) => rj,
                None => {
                    proof {
                        assert(registered(oldp, dep_keys@[j as int] as int));
                    }
                    // Unreachable: every declared dependency is registered.
                    return ;
                },
            };
            ranks.push(rj);
            j += 1;
        }
        let ghost rseq = ranks@;
        let new_rank = self.property_metadata.len();
        // Record the new property as a dependent of every stored property
        // it transitively depends on.
        let ghost olds = *self;
        let n_old = self.property_metadata.len();
        let mut k: usize = 0;
        while k < n_old
            invariant
                olds.wf(),
                n_old == olds.n_props(),
                new_rank == n_old,
                rseq == ranks@,
                forall|jj: int| 0 <= jj < rseq.len() ==> ((#[trigger] rseq[jj]) as int) < n_old,
                0 <= k <= n_old,
                *self == (EntityData { dependency_map: self.dependency_map, ..olds }),
                self.model().props == olds.model().props,
                self.dependency_map@.len() == olds.dependency_map@.len(),
                forall|k2: int|
                    k <= k2 < n_old ==> #[trigger] self.dependency_map@[k2]
                        == olds.dependency_map@[k2],
                forall|k2: int|
                    0 <= k2 < k ==> #[trigger] self.dependency_map@[k2]@ == (if new_dependent(
                        olds.model().props,
                        olds.dependency_map@,
                        rseq,
                        k2,
                    ) {
                        olds.dependency_map@[k2]@.push(new_rank)
                    } else {
                        olds.dependency_map@[k2]@
                    }),
            decreases n_old - k,
        {
            let ghost pre_iter = *self;
            let derived_k = self.property_metadata[k].is_derived();
            let mut dep = false;
            if !derived_k {
                dep = self.is_dependent_of(&ranks, k);
                proof {
                    assert(self.dependency_map@[k as int] == olds.dependency_map@[k as int]);
                    assert forall|jj: int| 0 <= jj < rseq.len() implies dm_has(
                        self.dependency_map@,
                        k as int,
                        #[trigger] rseq[jj] as int,
                    ) == dm_has(olds.dependency_map@, k as int, rseq[jj] as int) by {}
                    assert(dep == new_dependent(
                        olds.model().props,
                        olds.dependency_map@,
                        rseq,
                        k as int,
                    ));
                }
            } else {
                proof {
                    assert(!new_dependent(
                        olds.model().props,
                        olds.dependency_map@,
                        rseq,
                        k as int,
                    ));
                }
            }
            if dep {
                let lst = &mut self.dependency_map[k];
                lst.push(new_rank);
            }
            k += 1;
            proof {
                assert(self.model().props =~~= olds.model().props);
                assert(*self == (EntityData { dependency_map: self.dependency_map, ..olds }));
                assert forall|k2: int|
                    0 <= k2 < k implies #[trigger] self.dependency_map@[k2]@ == (if new_dependent(
                        olds.model().props,
                        olds.dependency_map@,
                        rseq,
                        k2,
                    ) {
                        olds.dependency_map@[k2]@.push(new_rank)
                    } else {
                        olds.dependency_map@[k2]@
                    }) by {
                    if k2 != k - 1 {
                        assert(self.dependency_map@[k2] == pre_iter.dependency_map@[k2]);
                    }
                }
            }
        }
        // Append the new property: metadata, no column, its declared
        // dependency ranks, an empty dependent list, a disabled index.
        let ghost p = PropModel {
            key: key as int,
            name: name@,
            required: false,
            derived: true,
            deps: Seq::new(rseq.len() as nat, |jj: int| rseq[jj] as int),
            column: Seq::<Option<Seq<u8>>>::empty(),
        };
        self.property_metadata.push(PropertyInfo::new(name, key, false, true));
        self.properties_map.push(PropertyStore::new());
        self.declared_deps.push(ranks);
        self.dependency_map.push(Vec::new());
        self.property_indexes.insert(Index::new());
        proof {
            assert(oldp.len() == n_old as int);
            assert(self.model().props =~~= olds.model().props.push(p));
            assert(p.deps =~= Seq::new(
                dep_keys@.len() as nat,
                |jj: int| rank_of(oldp, dep_keys@[jj] as int),
            ));
            lemma_derived_registration_wf(olds, *self, p, rseq);
        }
    }

    /// Exclusive access to the column cell of the stored property `key` for
    /// `entity_id`, registering the key as a stored property first if it is
    /// new and growing the column to include the row. Writes through
    /// the returned reference bypass the index maintenance that
    /// `set_property` performs, so neither the property nor any derived
    /// property depending on it may have an enabled index.
    pub fn get_property_mut(&mut self, key: usize, entity_id: EntityId) -> (r: &mut Option<
        Vec<u8>,
    >)
        requires
            old(self).wf(),
            !derived_key(old(self).model().props, key as int),
            entity_id.0 < usize::MAX,
            registered(old(self).model().props, key as int) ==> forall|x: int|
                0 <= x < old(self).n_props() && (x == rank_of(old(self).model().props, key as int)
                    || dm_has(
                    old(self).dependency_map@,
                    rank_of(old(self).model().props, key as int),
                    x,
                )) ==> !(#[trigger] old(self).property_indexes.entries@[x]).is_enabled(),
        ensures
            obv(*r) == stored_by_key(old(self).model().props, key as int, entity_id.0 as int),
            final(self).wf(),
            final(self).model().count == old(self).model().count,
            final(self).model().eval == old(self).model().eval,
            final(self).is_initializing == old(self).is_initializing,
            stored_by_key(final(self).model().props, key as int, entity_id.0 as int) == obv(
                *final(r),
            ),
            forall|k2: int, j: int|
                !(k2 == key as int && j == entity_id.0 as int) ==> stored_by_key(
                    final(self).model().props,
                    k2,
                    j,
                ) == stored_by_key(old(self).model().props, k2, j),
            forall|k2: int|
                #[trigger] registered(final(self).model().props, k2) == (registered(
                    old(self).model().props,
                    k2,
                ) || k2 == key as int),
            forall|k2: int|
                #[trigger] derived_key(final(self).model().props, k2) == derived_key(
                    old(self).model().props,
                    k2,
                ),
            final(self).n_props() == old(self).n_props() + (if registered(
                old(self).model().props,
                key as int,
            ) {
                0int
            } else {
                1int
            }),
            forall|r2: int|
                0 <= r2 < old(self).n_props() ==> #[trigger] final(self).property_indexes.entries@[r2] == old(self).property_indexes.entries@[r2],
            !registered(old(self).model().props, key as int) ==> !final(self).property_indexes.entries@[old(self).n_props()].is_enabled(),
    {
        let ghost origd = *old(self);
        let ghost origp = origd.model().props;
        let e = entity_id.0;
        let rk = match self.find_rank(key) {
            Some(rk) => rk,
            None => {
                let rk = self.property_metadata.len();
                self.register_nonderived_property(key, String::new(), false);
                proof {
                    assert(self.model().props[rk as int].key == key as int);
                    assert(registered(self.model().props, key as int));
                    let w = rank_of(self.model().props, key as int);
                    if w != rk as int {
                        assert(self.model().props[w].key == key as int);
                        assert(w < rk as int);
                        assert(origp[w].key == key as int);
                        assert(registered(origp, key as int));
                    }
                }
                rk
            },
        };
        let ghost olds = *self;
        let ghost oldp = olds.model().props;
        let ghost ev = olds.model().eval;
        proof {
            assert(registered(oldp, key as int) && rank_of(oldp, key as int) == rk as int);
            assert(!oldp[rk as int].derived);
            // Neither the property nor any derived property depending on it
            // has an enabled index: a fresh key's slot is disabled and
            // nothing depends on a freshly registered property.
            assert forall|x: int|
                0 <= x < olds.n_props() && (x == rk as int || dm_has(
                    olds.dependency_map@,
                    rk as int,
                    x,
                )) implies !(#[trigger] olds.property_indexes.entries@[x]).is_enabled() by {
                if registered(origp, key as int) {
                    assert(olds.property_indexes.entries@[x] == origd.property_indexes.entries@[x]);
                } else {
                    if x == rk as int {
                        assert(!olds.property_indexes.entries@[rk as int].is_enabled());
                    } else {
                        assert(dm_has(olds.dependency_map@, rk as int, x));
                        assert(depends_on(oldp, x, rk as int));
                        lemma_depends_on_bound(oldp, x, rk as int);
                        assert(false);
                    }
                }
            }
            // The pre-registration state reads the same everywhere: a fresh
            // key's column is empty, so every cell of it reads `None`, as
            // it did while the key was unregistered.
            assert forall|k2: int, j: int|
                #![trigger stored_by_key(oldp, k2, j)]
                #![trigger stored_by_key(origp, k2, j)]
                stored_by_key(oldp, k2, j) == stored_by_key(origp, k2, j) by {
                if olds != origd {
                    if k2 != key as int {
                        lemma_key_frame_after_extend::<E>(origp, oldp, ev, k2);
                    } else {
                        assert(oldp[rk as int].column.len() == 0);
                        assert(stored_at(oldp, rk as int, j) is None);
                        assert(!registered(origp, k2));
                    }
                }
            }
            assert forall|k2: int|
                #[trigger] registered(oldp, k2) == (registered(origp, k2) || k2 == key as int) by {
                if olds != origd {
                    if k2 != key as int {
                        lemma_key_frame_after_extend::<E>(origp, oldp, ev, k2);
                    }
                } else {
                    if k2 == key as int {
                        assert(registered(origp, k2));
                    }
                }
            }
            assert forall|k2: int|
                #[trigger] derived_key(oldp, k2) == derived_key(origp, k2) by {
                if olds != origd {
                    if k2 != key as int {
                        lemma_key_frame_after_extend::<E>(origp, oldp, ev, k2);
                        if registered(origp, k2) {
                            let r2 = rank_of(origp, k2);
                            assert(rank_of(oldp, k2) == r2);
                            assert(oldp[r2] == origp[r2]);
                        }
                    } else {
                        assert(!oldp[rk as int].derived);
                        assert(!registered(origp, k2));
                    }
                }
            }
            assert forall|r2: int|
                0 <= r2 < origd.n_props() implies #[trigger] olds.property_indexes.entries@[r2]
                == origd.property_indexes.entries@[r2] by {}
        }
        {
            let col = &mut self.properties_map[rk];
            col.ensure_len(e + 1);
        }
        let ghost mid = *self;
        let ghost midcol = mid.properties_map@[rk as int];
        let ghost aff = seq![rk] + self.dependency_map@[rk as int]@;
        proof {
            assert forall|x: int| in_ranks(aff, x) <==> (x == rk as int || dm_has(
                olds.dependency_map@,
                rk as int,
                x,
            )) by {
                if in_ranks(aff, x) {
                    let i = choose|i: int| 0 <= i < aff.len() && (#[trigger] aff[i]) == x;
                    if i > 0 {
                        assert(olds.dependency_map@[rk as int]@[i - 1] == x);
                        assert(dm_has(olds.dependency_map@, rk as int, x));
                    }
                }
                if x == rk as int {
                    assert(aff[0] == x);
                }
                if dm_has(olds.dependency_map@, rk as int, x) {
                    let i = choose|i: int|
                        0 <= i < olds.dependency_map@[rk as int]@.len() && (
                        #[trigger] olds.dependency_map@[rk as int]@[i]) == x;
                    assert(aff[i + 1] == x);
                }
            }
            // The current slot holds the stored value of the property.
            assert(obv(midcol.values@[e as int]) == stored_by_key(oldp, key as int, e as int)) by {
                assert(midcol.at(e as int) == olds.properties_map@[rk as int].at(e as int));
            }
            // Whatever the caller writes into the slot, the table stays
            // well-formed and every other cell keeps its value: the written
            // column and its dependents are unindexed.
            assert forall|d: EntityData<E>| #![trigger d.wf()]
                post_slot_write(d, mid, rk as int, e as int) implies grants_slot(
                    d,
                    olds,
                    rk as int,
                    key as int,
                    e as int,
                ) by {
                let dp = d.model().props;
                assert(same_except_column(oldp, dp, rk as int)) by {
                    assert forall|r2: int| 0 <= r2 < oldp.len() && r2 != rk as int implies (
                    #[trigger] dp[r2]) == oldp[r2] by {
                        assert(d.properties_map@[r2] == olds.properties_map@[r2]);
                        assert(dp[r2] =~~= oldp[r2]);
                    }
                    assert(dp[rk as int] =~~= (PropModel {
                        column: dp[rk as int].column,
                        ..oldp[rk as int]
                    }));
                }
                assert forall|j: int| j != e as int implies stored_at(dp, rk as int, j)
                    == stored_at(oldp, rk as int, j) by {
                    assert(d.properties_map@[rk as int].at(j) == midcol.at(j));
                    assert(midcol.at(j) == olds.properties_map@[rk as int].at(j));
                }
                assert forall|r2: int|
                    0 <= r2 < olds.n_props() && in_ranks(aff, r2) implies added_state(
                        olds.property_indexes.entries@[r2],
                        #[trigger] d.property_indexes.entries@[r2],
                        e as int,
                        key_of_value(computed_value(dp, ev, r2, e as int)),
                    ) by {
                    assert(olds.index_ok(r2));
                    let idx = olds.property_indexes.entries@[r2];
                    assert(!idx.is_enabled());
                    assert(d.property_indexes.entries@[r2] == idx);
                    assert forall|kv: KeyView, en: int| !(#[trigger] idx.has_entry(kv, en)) by {}
                }
                d.lemma_set_stored_wf(olds, aff, rk as int, e as int);
                assert forall|r2: int| 0 <= r2 < oldp.len() implies (#[trigger] dp[r2]).key
                    == oldp[r2].key by {
                    if r2 != rk as int {
                        assert(dp[r2] == oldp[r2]);
                    }
                }
                assert forall|k2: int| #[trigger] registered(dp, k2) == registered(oldp, k2) && (
                registered(oldp, k2) ==> rank_of(dp, k2) == rank_of(oldp, k2)) by {
                    lemma_rank_of_same(oldp, dp, k2);
                }
                assert forall|k2: int| #[trigger] derived_key(dp, k2) == derived_key(
                    oldp,
                    k2,
                ) by {
                    lemma_rank_of_same(oldp, dp, k2);
                    if registered(oldp, k2) {
                        let r2 = rank_of(oldp, k2);
                        if r2 != rk as int {
                            assert(dp[r2] == oldp[r2]);
                        }
                    }
                }
                assert(stored_by_key(dp, key as int, e as int) == obv(
                    d.properties_map@[rk as int].values@[e as int],
                )) by {
                    assert(rank_of(dp, key as int) == rk as int);
                    assert(d.properties_map@[rk as int].at(e as int) == obv(
                        d.properties_map@[rk as int].values@[e as int],
                    ));
                }
                assert forall|k2: int, j: int|
                    !(k2 == key as int && j == e as int) implies stored_by_key(dp, k2, j)
                    == stored_by_key(oldp, k2, j) by {
                    if registered(oldp, k2) {
                        let r2 = rank_of(oldp, k2);
                        if r2 != rk as int {
                            assert(dp[r2] == oldp[r2]);
                            assert(stored_at(dp, r2, j) == stored_at(oldp, r2, j));
                        } else {
                            assert(k2 == key as int && j != e as int);
                            assert(stored_at(dp, r2, j) == stored_at(oldp, r2, j));
                        }
                    }
                }
            }
        }
        proof {
            // Restatements keyed to the terms the contract checks at exit.
            assert forall|d: EntityData<E>|
                post_slot_write(d, mid, rk as int, e as int) implies #[trigger] stored_by_key(
                    d.model().props,
                    key as int,
                    e as int,
                ) == obv(d.properties_map@[rk as int].values@[e as int]) by {
                // Mentioning `d.wf()` lets the quantified fact above fire.
                assert(d.wf() ==> d.wf());
                assert(grants_slot(d, olds, rk as int, key as int, e as int));
            }
            assert forall|d: EntityData<E>, k2: int, j: int|
                post_slot_write(d, mid, rk as int, e as int) && !(k2 == key as int && j
                    == e as int) implies #[trigger] stored_by_key(d.model().props, k2, j)
                == stored_by_key(origp, k2, j) by {
                assert(d.wf() ==> d.wf());
                assert(grants_slot(d, olds, rk as int, key as int, e as int));
                assert(stored_by_key(oldp, k2, j) == stored_by_key(origp, k2, j));
            }
            assert forall|d: EntityData<E>, k2: int|
                post_slot_write(d, mid, rk as int, e as int) implies #[trigger] registered(
                    d.model().props,
                    k2,
                ) == (registered(origp, k2) || k2 == key as int) by {
                assert(d.wf() ==> d.wf());
                assert(grants_slot(d, olds, rk as int, key as int, e as int));
                assert(registered(oldp, k2) == (registered(origp, k2) || k2 == key as int));
            }
            assert forall|d: EntityData<E>, k2: int|
                post_slot_write(d, mid, rk as int, e as int) implies #[trigger] derived_key(
                    d.model().props,
                    k2,
                ) == derived_key(origp, k2) by {
                assert(d.wf() ==> d.wf());
                assert(grants_slot(d, olds, rk as int, key as int, e as int));
                assert(derived_key(oldp, k2) == derived_key(origp, k2));
            }
        }
        let col2 = &mut self.properties_map[rk];
        let slot = col2.slot_mut(e);
        proof {
            assert(*slot == midcol.values@[e as int]);
        }
        slot
    }

    /// Writes `value` as the property `key` of `entity_id`, registering the
    /// key as a stored property first if it is new, and keeping every
    /// enabled index (of the property and of the derived properties that
    /// depend on it) coherent. Derived properties cannot be written.
    pub fn set_property(&mut self, key: usize, entity_id: EntityId, value: Vec<u8>)
        requires
            old(self).wf(),
            registered(old(self).model().props, key as int) ==> !old(self).model().props[rank_of(
                old(self).model().props,
                key as int,
            )].derived,
            entity_id.0 < usize::MAX,
        ensures
            final(self).wf(),
            final(self).model().count == old(self).model().count,
            final(self).model().eval == old(self).model().eval,
            final(self).is_initializing == old(self).is_initializing,
            forall|k2: int|
                registered(final(self).model().props, k2) == (registered(
                    old(self).model().props,
                    k2,
                ) || k2 == key as int),
            value_by_key(
                final(self).model().props,
                final(self).model().eval,
                key as int,
                entity_id.0 as int,
            ) == Some(value@),
            stored_by_key(final(self).model().props, key as int, entity_id.0 as int) == Some(
                value@,
            ),
            forall|k2: int, j: int|
                j != entity_id.0 as int ==> value_by_key(
                    final(self).model().props,
                    final(self).model().eval,
                    k2,
                    j,
                ) == value_by_key(
                    old(self).model().props,
                    old(self).model().eval,
                    k2,
                    j,
                ),
            forall|k2: int, j: int|
                !(k2 == key as int && j == entity_id.0 as int) ==> stored_by_key(
                    final(self).model().props,
                    k2,
                    j,
                ) == stored_by_key(old(self).model().props, k2, j),
            forall|k2: int|
                derived_key(final(self).model().props, k2) == derived_key(
                    old(self).model().props,
                    k2,
                ),
            final(self).n_props() == old(self).n_props() + (if registered(
                old(self).model().props,
                key as int,
            ) {
                0int
            } else {
                1int
            }),
            forall|r2: int|
                0 <= r2 < old(self).n_props() ==> (
                #[trigger] final(self).property_indexes.entries@[r2]).is_enabled() == old(self).property_indexes.entries@[r2].is_enabled()
                    && final(self).property_indexes.entries@[r2].max_indexed == old(self).property_indexes.entries@[r2].max_indexed,
            !registered(old(self).model().props, key as int) ==> !final(self).property_indexes.entries@[old(self).n_props()].is_enabled(),
    {
        let ghost oldp = old(self).model().props;
        let ghost ev = old(self).model().eval;
        let e = entity_id.0;
        let rk = match self.find_rank(key) {
            Some(rk) => rk,
            None => {
                let rk = self.property_metadata.len();
                self.register_nonderived_property(key, String::new(), false);
                proof {
                    assert(self.model().props[rk as int].key == key as int);
                    assert(registered(self.model().props, key as int));
                    let w = rank_of(self.model().props, key as int);
                    if w != rk as int {
                        assert(self.model().props[w].key == key as int);
                        assert(w < rk as int);
                        assert(oldp[w].key == key as int);
                        assert(registered(oldp, key as int));
                    }
                }
                rk
            },
        };
        let ghost midp = self.model().props;
        proof {
            assert(registered(midp, key as int) && rank_of(midp, key as int) == rk as int);
            assert(!midp[rk as int].derived);
            // Registration, when it happened, did not move or change any
            // other key's values.
            assert forall|k2: int| k2 != key as int implies registered(midp, k2) == registered(
                oldp,
                k2,
            ) && (registered(oldp, k2) ==> rank_of(midp, k2) == rank_of(oldp, k2)
                && value_by_key(midp, ev, k2, e as int) == value_by_key(oldp, ev, k2, e as int)
                && (forall|j: int|
                value_by_key(midp, ev, k2, j) == value_by_key(oldp, ev, k2, j) && stored_by_key(
                    midp,
                    k2,
                    j,
                ) == stored_by_key(oldp, k2, j))) by {
                lemma_key_frame_after_extend::<E>(oldp, midp, ev, k2);
            }
        }
        let ghost midd = *self;
        self.set_stored_at_rank(rk, entity_id, value);
        proof {
            // The indexes kept their enabled state and watermarks: the write
            // only moved the entity between buckets, and a fresh
            // registration only appended one disabled slot.
            assert forall|r2: int|
                0 <= r2 < old(self).n_props() implies (
            #[trigger] final(self).property_indexes.entries@[r2]).is_enabled() == old(self).property_indexes.entries@[r2].is_enabled()
                && final(self).property_indexes.entries@[r2].max_indexed == old(self).property_indexes.entries@[r2].max_indexed by {
                assert(midd.property_indexes.entries@[r2] == old(self).property_indexes.entries@[r2]);
            }
            if !registered(oldp, key as int) {
                assert(!midd.property_indexes.entries@[old(self).n_props()].is_enabled());
            }
            let newp = self.model().props;
            assert forall|r: int| 0 <= r < midp.len() implies (#[trigger] newp[r]).key
                == midp[r].key && newp[r].derived == midp[r].derived by {
                if r != rk as int {
                    assert(newp[r] == midp[r]);
                }
            }
            assert(props_keys_unique(midp));
            assert forall|k2: int| registered(newp, k2) == registered(midp, k2) && (registered(
                midp,
                k2,
            ) ==> rank_of(newp, k2) == rank_of(midp, k2)) by {
                lemma_rank_of_same(midp, newp, k2);
            }
            // The written cell.
            assert(rank_of(newp, key as int) == rk as int);
            assert(computed_value(newp, ev, rk as int, e as int) == stored_at(
                newp,
                rk as int,
                e as int,
            ));
            assert(value_by_key(newp, ev, key as int, e as int) == Some(value@));
            assert(stored_by_key(newp, key as int, e as int) == Some(value@));
            // Values of other entities did not move.
            assert forall|k2: int, j: int| j != e as int implies value_by_key(newp, ev, k2, j)
                == value_by_key(oldp, ev, k2, j) by {
                if registered(midp, k2) {
                    let r2 = rank_of(midp, k2);
                    lemma_row_frame(midp, newp, ev, rk as int, e as int, r2, j);
                    if k2 == key as int && !registered(oldp, key as int) {
                        // a fresh key: its column had no values before the write
                        assert(stored_at(midp, rk as int, j) is None);
                        assert(computed_value(midp, ev, rk as int, j) is None);
                    } else {
                        lemma_key_frame_after_extend::<E>(oldp, midp, ev, k2);
                    }
                }
            }
            // No key's derived flag moved.
            assert forall|k2: int| derived_key(newp, k2) == derived_key(oldp, k2) by {
                if k2 == key as int {
                    assert(!newp[rank_of(newp, k2)].derived);
                    if registered(oldp, k2) {
                        assert(!oldp[rank_of(oldp, k2)].derived);
                    }
                } else {
                    lemma_key_frame_after_extend::<E>(oldp, midp, ev, k2);
                    if registered(oldp, k2) {
                        let r2 = rank_of(oldp, k2);
                        assert(rank_of(midp, k2) == r2 && rank_of(newp, k2) == r2);
                        assert(newp[r2].derived == midp[r2].derived);
                        assert(midp[r2] == oldp[r2]);
                    }
                }
            }
            // Other stored cells did not move.
            assert forall|k2: int, j: int|
                !(k2 == key as int && j == e as int) implies stored_by_key(newp, k2, j)
                == stored_by_key(oldp, k2, j) by {
                if registered(midp, k2) {
                    let r2 = rank_of(midp, k2);
                    if r2 != rk as int {
                        assert(newp[r2] == midp[r2]);
                        assert(stored_at(newp, r2, j) == stored_at(midp, r2, j));
                    } else {
                        assert(k2 == key as int && j != e as int);
                        assert(stored_at(newp, r2, j) == stored_at(midp, r2, j));
                    }
                    if k2 == key as int && !registered(oldp, key as int) {
                        assert(stored_at(midp, rk as int, j) is None);
                    } else {
                        lemma_key_frame_after_extend::<E>(oldp, midp, ev, k2);
                    }
                }
            }
        }
    }

    /// After a write to the column of the stored property ranked `rk`, with
    /// the entity's entries refreshed in every affected index, the table is
    /// well-formed again.
    proof fn lemma_set_stored_wf(
        self,
        olds: EntityData<E>,
        aff: Seq<usize>,
        rk: int,
        e: int,
    )
        requires
            olds.wf(),
            0 <= rk < olds.n_props(),
            !olds.model().props[rk].derived,
            self.property_metadata@ == olds.property_metadata@,
            self.properties_map@.len() == olds.properties_map@.len(),
            self.declared_deps@ == olds.declared_deps@,
            self.dependency_map@ == olds.dependency_map@,
            self.entity_count == olds.entity_count,
            self.eval == olds.eval,
            same_except_column(olds.model().props, self.model().props, rk),
            forall|j: int|
                j != e ==> stored_at(self.model().props, rk, j) == stored_at(
                    olds.model().props,
                    rk,
                    j,
                ),
            forall|x: int|
                in_ranks(aff, x) <==> (x == rk || dm_has(olds.dependency_map@, rk, x)),
            self.property_indexes.entries@.len() == olds.property_indexes.entries@.len(),
            forall|r2: int|
                0 <= r2 < olds.n_props() && in_ranks(aff, r2) ==> added_state(
                    olds.property_indexes.entries@[r2],
                    #[trigger] self.property_indexes.entries@[r2],
                    e,
                    key_of_value(computed_value(self.model().props, self.model().eval, r2, e)),
                ),
            forall|r2: int|
                0 <= r2 < olds.n_props() && !in_ranks(aff, r2)
                    ==> #[trigger] self.property_indexes.entries@[r2] == olds.property_indexes.entries@[r2],
        ensures
            self.wf(),
            forall|r2: int|
                0 <= r2 < olds.n_props()
                    ==> (#[trigger] self.property_indexes.entries@[r2]).is_enabled()
                    == olds.property_indexes.entries@[r2].is_enabled()
                    && self.property_indexes.entries@[r2].max_indexed
                    == olds.property_indexes.entries@[r2].max_indexed,
    {
        let oldp = olds.model().props;
        let newp = self.model().props;
        let ev = self.model().eval;
        assert(newp.len() == oldp.len());
        assert forall|r: int| 0 <= r < oldp.len() implies (#[trigger] newp[r]).key == oldp[r].key
            && newp[r].name == oldp[r].name && newp[r].required == oldp[r].required
            && newp[r].derived == oldp[r].derived && newp[r].deps == oldp[r].deps by {
            if r != rk {
                assert(newp[r] == oldp[r]);
            }
        }
        assert(props_keys_unique(newp)) by {
            assert forall|r1: int, r2: int| 0 <= r1 < r2 < newp.len() implies (
            #[trigger] newp[r1]).key != (#[trigger] newp[r2]).key by {
                assert((#[trigger] oldp[r1]).key != (#[trigger] oldp[r2]).key);
            }
        }
        assert(props_deps_ok(newp)) by {
            assert forall|r: int, j: int|
                0 <= r < newp.len() && 0 <= j < (#[trigger] newp[r]).deps.len() implies 0 <= (
            #[trigger] newp[r].deps[j]) < r by {
                assert(oldp[r].deps[j] == newp[r].deps[j]);
                assert(0 <= (#[trigger] oldp[r].deps[j]) < r);
            }
        }
        assert(props_derived_unstored(newp)) by {
            assert forall|r: int|
                0 <= r < newp.len() && (#[trigger] newp[r]).derived implies newp[r].column.len()
                == 0 by {
                assert(!oldp[rk].derived);
                assert(r != rk);
                assert(newp[r] == oldp[r]);
            }
        }
        assert(dm_exact(self.dependency_map@, newp)) by {
            assert forall|k: int, x: int| 0 <= k < newp.len() implies (#[trigger] dm_has(
                self.dependency_map@,
                k,
                x,
            ) <==> (!newp[k].derived && 0 <= x < newp.len() && newp[x].derived && depends_on(
                newp,
                x,
                k,
            ))) by {
                if 0 <= x < newp.len() {
                    lemma_depends_on_meta(oldp, newp, x, k);
                }
            }
        }
        // Values of other entities did not move.
        assert forall|r: int, j: int| j != e implies computed_value(newp, ev, r, j)
            == computed_value(oldp, ev, r, j) by {
            lemma_row_frame(oldp, newp, ev, rk, e, r, j);
        }
        // At the written entity, only the property itself and its dependents
        // changed.
        assert forall|r: int|
            0 <= r < newp.len() && !in_ranks(aff, r) implies computed_value(newp, ev, r, e)
            == computed_value(oldp, ev, r, e) by {
            assert(!(r == rk || dm_has(olds.dependency_map@, rk, r)));
            if newp[r].derived {
                assert(!depends_on(oldp, r, rk)) by {
                    if depends_on(oldp, r, rk) {
                        assert(dm_has(olds.dependency_map@, rk, r));
                    }
                }
                lemma_dep_frame(oldp, newp, ev, rk, r, e);
            } else {
                assert(newp[r] == oldp[r]);
                assert(stored_at(newp, r, e) == stored_at(oldp, r, e));
            }
        }
        assert forall|r: int| 0 <= r < self.n_props() implies #[trigger] self.index_ok(r) by {
            assert(olds.index_ok(r));
            let base = olds.property_indexes.entries@[r];
            let idx = self.property_indexes.entries@[r];
            if !in_ranks(aff, r) {
                assert(idx == base);
                if idx.is_enabled() {
                    assert forall|kv: KeyView, en: int|
                        #[trigger] idx.has_entry(kv, en) <==> (0 <= en < idx.max_indexed
                            && key_of_value(computed_value(newp, ev, r, en)) == Some(kv)) by {
                        assert(computed_value(newp, ev, r, en) == computed_value(oldp, ev, r, en));
                        assert(base.has_entry(kv, en) <==> (0 <= en < base.max_indexed
                            && key_of_value(computed_value(oldp, ev, r, en)) == Some(kv)));
                    }
                }
            } else {
                assert(added_state(
                    base,
                    idx,
                    e,
                    key_of_value(computed_value(newp, ev, r, e)),
                ));
                if idx.is_enabled() {
                    assert forall|kv: KeyView, en: int|
                        #[trigger] idx.has_entry(kv, en) <==> (0 <= en < idx.max_indexed
                            && key_of_value(computed_value(newp, ev, r, en)) == Some(kv)) by {
                        if en != e {
                            assert(computed_value(newp, ev, r, en) == computed_value(
                                oldp,
                                ev,
                                r,
                                en,
                            ));
                            assert(base.has_entry(kv, en) <==> (0 <= en < base.max_indexed
                                && key_of_value(computed_value(oldp, ev, r, en)) == Some(kv)));
                        }
                    }
                }
            }
        }
    }

    /// Registers a stored property under `key`: appends its metadata, an
    /// empty column, and a disabled index slot.
    pub fn register_nonderived_property(&mut self, key: usize, name: String, is_required: bool)
        requires
            old(self).wf(),
            !registered(old(self).model().props, key as int),
        ensures
            final(self).wf(),
            final(self).model().count == old(self).model().count,
            final(self).model().eval == old(self).model().eval,
            final(self).model().props == old(self).model().props.push(
                PropModel {
                    key: key as int,
                    name: name@,
                    required: is_required,
                    derived: false,
                    deps: Seq::<int>::empty(),
                    column: Seq::<Option<Seq<u8>>>::empty(),
                },
            ),
            final(self).property_indexes.entries@.len() == old(self).property_indexes.entries@.len() + 1,
            forall|r2: int|
                0 <= r2 < old(self).property_indexes.entries@.len()
                    ==> final(self).property_indexes.entries@[r2] == old(self).property_indexes.entries@[r2],
            !final(self).property_indexes.entries@.last().is_enabled(),
            final(self).is_initializing == old(self).is_initializing,
    {
        let ghost p = PropModel {
            key: key as int,
            name: name@,
            required: is_required,
            derived: false,
            deps: Seq::<int>::empty(),
            column: Seq::<Option<Seq<u8>>>::empty(),
        };
        self.property_metadata.push(PropertyInfo::new(name, key, is_required, false));
        self.properties_map.push(PropertyStore::new());
        self.declared_deps.push(Vec::new());
        self.dependency_map.push(Vec::new());
        self.property_indexes.insert(Index::new());
        proof {
            let op = old(self).model().props;
            let np = self.model().props;
            assert(np =~~= op.push(p));
            lemma_registration_wf(*old(self), *self, p);
        }
    }
}

/// Appending one more property — not derived from anything, with an empty
/// column, an empty dependent list and a fresh index slot — keeps the table
/// well-formed.
proof fn lemma_registration_wf<E: Compute>(pre: EntityData<E>, post: EntityData<E>, p: PropModel)
    requires
        pre.wf(),
        !registered(pre.model().props, p.key),
        !p.derived || forall|j: int|
            0 <= j < p.deps.len() ==> 0 <= #[trigger] p.deps[j] < pre.model().props.len(),
        !p.derived ==> p.deps.len() == 0,
        p.column.len() == 0,
        post.entity_count == pre.entity_count,
        post.eval == pre.eval,
        post.model().props == pre.model().props.push(p),
        post.dependency_map@.len() == pre.dependency_map@.len() + 1,
        forall|k: int|
            0 <= k < pre.dependency_map@.len() ==> #[trigger] post.dependency_map@[k]
                == pre.dependency_map@[k],
        post.dependency_map@.last()@.len() == 0,
        pre.dependency_map@.len() == pre.model().props.len(),
        post.properties_map@.len() == pre.properties_map@.len() + 1,
        post.declared_deps@.len() == pre.declared_deps@.len() + 1,
        post.property_indexes.entries@.len() == pre.property_indexes.entries@.len() + 1,
        forall|r2: int|
            0 <= r2 < pre.property_indexes.entries@.len() ==> post.property_indexes.entries@[r2]
                == pre.property_indexes.entries@[r2],
        !post.property_indexes.entries@.last().is_enabled(),
        post.property_indexes.entries@.last().max_indexed == 0,
        post.property_indexes.entries@.last().buckets_wf(),
        !p.derived,
    ensures
        post.wf(),
{
    let op = pre.model().props;
    let np = post.model().props;
    let n = op.len() as int;
    assert(np.len() == n + 1);
    assert(forall|r: int| 0 <= r < n ==> np[r] == op[r]);
    assert(np[n] == p);
    // Keys stay unique: the new key collides with none.
    assert(props_keys_unique(np)) by {
        assert forall|r1: int, r2: int| 0 <= r1 < r2 < np.len() implies (#[trigger] np[r1]).key
            != (#[trigger] np[r2]).key by {
            if r2 == n {
                if np[r1].key == p.key {
                    assert((#[trigger] op[r1]).key == p.key);
                    assert(registered(op, p.key));
                }
            } else {
                assert(op[r1].key != op[r2].key);
            }
        }
    }
    assert(props_deps_ok(np)) by {
        assert forall|r: int, j: int|
            0 <= r < np.len() && 0 <= j < (#[trigger] np[r]).deps.len() implies 0 <= (
        #[trigger] np[r].deps[j]) < r by {
            if r < n {
                assert(op[r].deps[j] == np[r].deps[j]);
            }
        }
    }
    assert(props_derived_unstored(np));
    // The new property is not derived and nothing depends on it, so pushing
    // an empty dependent list keeps the dependency map exact.
    let odm = pre.dependency_map@;
    let ndm = post.dependency_map@;
    assert(dm_exact(ndm, np)) by {
        assert forall|k: int, x: int| 0 <= k < np.len() implies (#[trigger] dm_has(ndm, k, x)
            <==> (!np[k].derived && 0 <= x < np.len() && np[x].derived && depends_on(
            np,
            x,
            k,
        ))) by {
            if k < n {
                assert(ndm[k] == odm[k]);
                assert(dm_has(ndm, k, x) == dm_has(odm, k, x)) by {
                    if dm_has(ndm, k, x) {
                        let i = choose|i: int|
                            0 <= i < ndm[k]@.len() && (#[trigger] ndm[k]@[i]) == x;
                        assert(odm[k]@[i] == x);
                    }
                    if dm_has(odm, k, x) {
                        let i = choose|i: int|
                            0 <= i < odm[k]@.len() && (#[trigger] odm[k]@[i]) == x;
                        assert(ndm[k]@[i] == x);
                    }
                }
                if 0 <= x < n {
                    lemma_extend_depends_on(op, p, x, k);
                    assert(np[x] == op[x]);
                } else if x == n {
                    assert(!np[x].derived);
                    assert(!dm_has(odm, k, x));
                } else {
                    assert(!dm_has(odm, k, x));
                }
            } else {
                assert(ndm[k]@.len() == 0);
                assert(!dm_has(ndm, k, x));
                if 0 <= x < n && np[x].derived && depends_on(np, x, k) {
                    lemma_extend_depends_on(op, p, x, k);
                    lemma_depends_on_bound(op, x, k);
                }
                if x == n {
                    assert(!np[x].derived);
                }
            }
        }
        assert forall|k: int, i1: int, i2: int|
            0 <= k < np.len() && 0 <= i1 < i2 < ndm[k]@.len() implies #[trigger] ndm[k]@[i1]
            != #[trigger] ndm[k]@[i2] by {
            if k < n {
                assert(ndm[k] == odm[k]);
            }
        }
    }
    // Indexes for the old properties keep their coherence: no value changed.
    assert forall|r: int| 0 <= r < post.n_props() implies #[trigger] post.index_ok(r) by {
        if r < n {
            assert(pre.index_ok(r));
            let idx = post.property_indexes.entries@[r];
            assert(idx == pre.property_indexes.entries@[r]);
            if idx.is_enabled() {
                assert forall|kv: KeyView, e: int|
                    #[trigger] idx.has_entry(kv, e) <==> (0 <= e < idx.max_indexed && key_of_value(
                        computed_value(np, post.model().eval, r, e),
                    ) == Some(kv)) by {
                    lemma_extend_computed(op, p, pre.model().eval, r, e);
                    assert(idx.has_entry(kv, e) <==> (0 <= e < idx.max_indexed && key_of_value(
                        computed_value(op, pre.model().eval, r, e),
                    ) == Some(kv)));
                }
            }
        }
    }
}


/// A transitive dependency always has a lower rank than its dependent.
pub proof fn lemma_depends_on_bound(props: Seq<PropModel>, r: int, k: int)
    requires
        props_deps_ok(props),
        depends_on(props, r, k),
    ensures
        0 <= k < r,
    decreases r,
{
    let j = choose|j: int|
        0 <= j < props[r].deps.len() && ((#[trigger] props[r].deps[j]) == k || (0
            <= props[r].deps[j] < r && depends_on(props, props[r].deps[j], k)));
    if props[r].deps[j] != k {
        lemma_depends_on_bound(props, props[r].deps[j], k);
    }
}

/// Registering one more property changes no existing property's value.
pub proof fn lemma_extend_computed<E: Compute>(
    props: Seq<PropModel>,
    p: PropModel,
    eval: E,
    r: int,
    e: int,
)
    requires
        r < props.len(),
    ensures
        computed_value(props.push(p), eval, r, e) == computed_value(props, eval, r, e),
    decreases r, 1int,
{
    let xp = props.push(p);
    if 0 <= r < props.len() {
        assert(xp[r] == props[r]);
        if !props[r].derived {
            assert(stored_at(xp, r, e) == stored_at(props, r, e));
        } else {
            lemma_extend_dep_values(props, p, eval, r, e);
        }
    }
}

/// As `lemma_extend_computed`, for the dependency-value rows.
pub proof fn lemma_extend_dep_values<E: Compute>(
    props: Seq<PropModel>,
    p: PropModel,
    eval: E,
    r: int,
    e: int,
)
    requires
        0 <= r < props.len(),
    ensures
        dep_values(props.push(p), eval, r, e) == dep_values(props, eval, r, e),
    decreases r, 0int,
{
    let xp = props.push(p);
    assert(xp[r] == props[r]);
    assert forall|j: int| 0 <= j < props[r].deps.len() implies ({
        let d = #[trigger] props[r].deps[j];
        (if 0 <= d < r {
            computed_value(xp, eval, d, e)
        } else {
            None
        }) == (if 0 <= d < r {
            computed_value(props, eval, d, e)
        } else {
            None
        })
    }) by {
        let d = props[r].deps[j];
        if 0 <= d < r {
            lemma_extend_computed(props, p, eval, d, e);
        }
    }
    assert(dep_values(xp, eval, r, e) =~= dep_values(props, eval, r, e));
}

/// Registering one more property changes no existing dependency relation.
pub proof fn lemma_extend_depends_on(props: Seq<PropModel>, p: PropModel, r: int, k: int)
    requires
        r < props.len(),
    ensures
        depends_on(props.push(p), r, k) == depends_on(props, r, k),
    decreases r,
{
    let xp = props.push(p);
    if 0 <= r < props.len() {
        assert(xp[r] == props[r]);
        assert forall|j: int| 0 <= j < props[r].deps.len() implies ({
            let d = #[trigger] props[r].deps[j];
            (0 <= d < r && depends_on(xp, d, k)) == (0 <= d < r && depends_on(props, d, k))
        }) by {
            let d = props[r].deps[j];
            if 0 <= d < r {
                lemma_extend_depends_on(props, p, d, k);
            }
        }
    }
}

/// Two property sequences that differ only in the column of rank `rk`.
pub open spec fn same_except_column(p1: Seq<PropModel>, p2: Seq<PropModel>, rk: int) -> bool {
    &&& p1.len() == p2.len()
    &&& 0 <= rk < p1.len()
    &&& forall|r: int| 0 <= r < p1.len() && r != rk ==> #[trigger] p2[r] == p1[r]
    &&& p2[rk] == (PropModel { column: p2[rk].column, ..p1[rk] })
}

/// Writing one cell of a column changes no value of any property for any
/// other entity: a property's value for an entity reads only that entity's
/// rows.
pub proof fn lemma_row_frame<E: Compute>(
    p1: Seq<PropModel>,
    p2: Seq<PropModel>,
    eval: E,
    rk: int,
    e: int,
    r: int,
    j: int,
)
    requires
        same_except_column(p1, p2, rk),
        forall|jj: int| jj != e ==> stored_at(p2, rk, jj) == stored_at(p1, rk, jj),
        j != e,
    ensures
        computed_value(p2, eval, r, j) == computed_value(p1, eval, r, j),
    decreases r, 1int,
{
    if 0 <= r < p1.len() {
        if !p1[r].derived {
            if r != rk {
                assert(p2[r] == p1[r]);
                assert(stored_at(p2, r, j) == stored_at(p1, r, j));
            }
        } else {
            assert(p2[r].deps == p1[r].deps && p2[r].key == p1[r].key && p2[r].derived);
            lemma_row_frame_deps(p1, p2, eval, rk, e, r, j);
            assert(dep_values(p2, eval, r, j) == dep_values(p1, eval, r, j));
        }
    }
}

/// As `lemma_row_frame`, for the dependency-value rows.
proof fn lemma_row_frame_deps<E: Compute>(
    p1: Seq<PropModel>,
    p2: Seq<PropModel>,
    eval: E,
    rk: int,
    e: int,
    r: int,
    j: int,
)
    requires
        same_except_column(p1, p2, rk),
        forall|jj: int| jj != e ==> stored_at(p2, rk, jj) == stored_at(p1, rk, jj),
        j != e,
        0 <= r < p1.len(),
    ensures
        dep_values(p2, eval, r, j) == dep_values(p1, eval, r, j),
    decreases r, 0int,
{
    assert(p2[r].deps == p1[r].deps);
    assert forall|i: int| 0 <= i < p1[r].deps.len() implies ({
        let d = #[trigger] p1[r].deps[i];
        (if 0 <= d < r {
            computed_value(p2, eval, d, j)
        } else {
            None
        }) == (if 0 <= d < r {
            computed_value(p1, eval, d, j)
        } else {
            None
        })
    }) by {
        let d = p1[r].deps[i];
        if 0 <= d < r {
            lemma_row_frame(p1, p2, eval, rk, e, d, j);
        }
    }
    assert(dep_values(p2, eval, r, j) =~= dep_values(p1, eval, r, j));
}

/// Writing one cell of the column of rank `rk` changes no value of a
/// property that is not `rk` and does not depend on `rk`.
pub proof fn lemma_dep_frame<E: Compute>(
    p1: Seq<PropModel>,
    p2: Seq<PropModel>,
    eval: E,
    rk: int,
    r: int,
    e: int,
)
    requires
        same_except_column(p1, p2, rk),
        r != rk,
        !depends_on(p1, r, rk),
    ensures
        computed_value(p2, eval, r, e) == computed_value(p1, eval, r, e),
    decreases r, 1int,
{
    if 0 <= r < p1.len() {
        assert(p2[r] == p1[r]);
        if !p1[r].derived {
            assert(stored_at(p2, r, e) == stored_at(p1, r, e));
        } else {
            lemma_dep_frame_deps(p1, p2, eval, rk, r, e);
            assert(dep_values(p2, eval, r, e) == dep_values(p1, eval, r, e));
        }
    }
}

/// As `lemma_dep_frame`, for the dependency-value rows.
proof fn lemma_dep_frame_deps<E: Compute>(
    p1: Seq<PropModel>,
    p2: Seq<PropModel>,
    eval: E,
    rk: int,
    r: int,
    e: int,
)
    requires
        same_except_column(p1, p2, rk),
        r != rk,
        !depends_on(p1, r, rk),
        0 <= r < p1.len(),
        p1[r].derived,
    ensures
        dep_values(p2, eval, r, e) == dep_values(p1, eval, r, e),
    decreases r, 0int,
{
    assert(p2[r].deps == p1[r].deps);
    assert forall|i: int| 0 <= i < p1[r].deps.len() implies ({
        let d = #[trigger] p1[r].deps[i];
        (if 0 <= d < r {
            computed_value(p2, eval, d, e)
        } else {
            None
        }) == (if 0 <= d < r {
            computed_value(p1, eval, d, e)
        } else {
            None
        })
    }) by {
        let d = p1[r].deps[i];
        if 0 <= d < r {
            assert(d != rk && !depends_on(p1, d, rk)) by {
                if d == rk || depends_on(p1, d, rk) {
                    assert(depends_on(p1, r, rk));
                }
            }
            lemma_dep_frame(p1, p2, eval, rk, d, e);
        }
    }
    assert(dep_values(p2, eval, r, e) =~= dep_values(p1, eval, r, e));
}

/// Two property sequences of equal length and equal keys register the same
/// keys at the same ranks, provided keys are unique.
pub proof fn lemma_rank_of_same(p1: Seq<PropModel>, p2: Seq<PropModel>, k: int)
    requires
        p1.len() == p2.len(),
        forall|r: int| 0 <= r < p1.len() ==> (#[trigger] p2[r]).key == (#[trigger] p1[r]).key,
        props_keys_unique(p1),
    ensures
        registered(p2, k) == registered(p1, k),
        registered(p1, k) ==> rank_of(p2, k) == rank_of(p1, k),
{
    if registered(p1, k) {
        let r1 = rank_of(p1, k);
        assert(0 <= r1 < p1.len() && p1[r1].key == k);
        assert(p2[r1].key == k);
        assert(registered(p2, k));
        let r2 = rank_of(p2, k);
        assert(0 <= r2 < p2.len() && p2[r2].key == k);
        assert(p1[r2].key == k);
        if r1 < r2 {
            assert((#[trigger] p1[r1]).key != (#[trigger] p1[r2]).key);
        } else if r2 < r1 {
            assert((#[trigger] p1[r2]).key != (#[trigger] p1[r1]).key);
        }
    } else {
        if registered(p2, k) {
            let r2 = rank_of(p2, k);
            assert(0 <= r2 < p2.len() && p2[r2].key == k);
            assert(p1[r2].key == k);
            assert(registered(p1, k));
        }
    }
}

/// Transitive dependency is a matter of metadata alone: it is unchanged by
/// writes to columns.
pub proof fn lemma_depends_on_meta(p1: Seq<PropModel>, p2: Seq<PropModel>, r: int, k: int)
    requires
        p1.len() == p2.len(),
        forall|rr: int|
            0 <= rr < p1.len() ==> (#[trigger] p2[rr]).derived == p1[rr].derived && p2[rr].deps
                == p1[rr].deps,
    ensures
        depends_on(p2, r, k) == depends_on(p1, r, k),
    decreases r,
{
    if 0 <= r < p1.len() {
        assert forall|j: int| 0 <= j < p1[r].deps.len() implies ({
            let d = #[trigger] p1[r].deps[j];
            (0 <= d < r && depends_on(p2, d, k)) == (0 <= d < r && depends_on(p1, d, k))
        }) by {
            let d = p1[r].deps[j];
            if 0 <= d < r {
                lemma_depends_on_meta(p1, p2, d, k);
            }
        }
        assert(p2[r].deps == p1[r].deps);
    }
}

/// After removing the entity from the bucket of its old value's key, an
/// index that was coherent, or already in the removed state, is in the
/// removed state.
pub proof fn lemma_removed_state<E: Compute>(
    olds: EntityData<E>,
    pre: Index,
    post: Index,
    a: int,
    e: int,
    kv0: KeyView,
)
    requires
        olds.wf(),
        0 <= a < olds.n_props(),
        pre == olds.property_indexes.entries@[a] || removed_state(olds.property_indexes.entries@[a], pre, e),
        pre.is_enabled(),
        0 <= e < pre.max_indexed,
        key_of_value(computed_value(olds.model().props, olds.model().eval, a, e)) == Some(kv0),
        post.is_enabled() == pre.is_enabled(),
        post.max_indexed == pre.max_indexed,
        post.buckets_wf(),
        forall|kv: KeyView, en: int|
            #[trigger] post.has_entry(kv, en) <==> (pre.has_entry(kv, en) && !(kv == kv0 && en
                == e)),
    ensures
        removed_state(olds.property_indexes.entries@[a], post, e),
{
    let base = olds.property_indexes.entries@[a];
    assert(olds.index_ok(a));
    assert forall|kv: KeyView, en: int|
        #[trigger] post.has_entry(kv, en) <==> (base.has_entry(kv, en) && en != e) by {
        if pre == base {
            if post.has_entry(kv, en) && en == e {
                assert(base.has_entry(kv, e));
                assert(key_of_value(
                    computed_value(olds.model().props, olds.model().eval, a, e),
                ) == Some(kv));
                assert(kv == kv0);
            }
        }
    }
}

/// Frame facts for one key across a possible one-property extension: when
/// `p2` is `p1`, or `p1` extended by one property under a different key,
/// the key's registration, rank, stored values and computed values are
/// unchanged.
pub proof fn lemma_key_frame_after_extend<E: Compute>(
    p1: Seq<PropModel>,
    p2: Seq<PropModel>,
    eval: E,
    k2: int,
)
    requires
        props_keys_unique(p1),
        p2 == p1 || (p2.len() == p1.len() + 1 && (forall|r: int|
            0 <= r < p1.len() ==> #[trigger] p2[r] == p1[r]) && p2.last().key != k2
            && !p2.last().derived && p2.last().column.len() == 0),
    ensures
        registered(p2, k2) == registered(p1, k2),
        registered(p1, k2) ==> rank_of(p2, k2) == rank_of(p1, k2),
        forall|j: int| value_by_key(p2, eval, k2, j) == value_by_key(p1, eval, k2, j),
        forall|j: int| stored_by_key(p2, k2, j) == stored_by_key(p1, k2, j),
{
    if p2 == p1 {
    } else {
        let n = p1.len() as int;
        if registered(p1, k2) {
            let r1 = rank_of(p1, k2);
            assert(0 <= r1 < n && p1[r1].key == k2);
            assert(p2[r1].key == k2);
            assert(registered(p2, k2));
            let r2 = rank_of(p2, k2);
            assert(0 <= r2 < p2.len() && p2[r2].key == k2);
            assert(r2 != n) by {
                assert(p2.last().key != k2);
            }
            assert(p1[r2].key == k2);
            if r1 < r2 {
                assert((#[trigger] p1[r1]).key != (#[trigger] p1[r2]).key);
            } else if r2 < r1 {
                assert((#[trigger] p1[r2]).key != (#[trigger] p1[r1]).key);
            }
            assert(r1 == r2);
            assert(p2 =~= p1.push(p2.last()));
            assert forall|j: int| value_by_key(p2, eval, k2, j) == value_by_key(
                p1,
                eval,
                k2,
                j,
            ) by {
                lemma_extend_computed(p1, p2.last(), eval, r1, j);
            }
            assert forall|j: int| stored_by_key(p2, k2, j) == stored_by_key(p1, k2, j) by {
                assert(stored_at(p2, r1, j) == stored_at(p1, r1, j));
            }
        } else {
            if registered(p2, k2) {
                let r2 = rank_of(p2, k2);
                assert(0 <= r2 < p2.len() && p2[r2].key == k2);
                assert(r2 != n) by {
                    assert(p2.last().key != k2);
                }
                assert(p1[r2].key == k2);
                assert(registered(p1, k2));
            }
        }
    }
}

/// Whether `x` occurs in `v`.
pub fn contains_usize(v: &Vec<usize>, x: usize) -> (r: bool)
    ensures
        r == in_ranks(v@, x as int),
{
    let n = v.len();
    let mut i: usize = 0;
    while i < n
        invariant
            n == v@.len(),
            0 <= i <= n,
            forall|j: int| 0 <= j < i ==> (#[trigger] v@[j]) != x,
        decreases n - i,
    {
        if v[i] == x {
            proof {
                assert(v@[i as int] == x);
            }
            return true;
        }
        i += 1;
    }
    proof {
        if in_ranks(v@, x as int) {
            let j = choose|j: int| 0 <= j < v@.len() && (#[trigger] v@[j]) == x as int;
        }
    }
    false
}

/// Appending a derived property whose declared dependencies are the ranks
/// in `p.deps`, with the dependency lists of its transitive stored
/// dependencies extended by its rank, keeps the table well-formed.
proof fn lemma_derived_registration_wf<E: Compute>(
    pre: EntityData<E>,
    post: EntityData<E>,
    p: PropModel,
    rseq: Seq<usize>,
)
    requires
        pre.wf(),
        !registered(pre.model().props, p.key),
        p.derived,
        !p.required,
        p.column.len() == 0,
        p.deps == Seq::new(rseq.len() as nat, |j: int| rseq[j] as int),
        forall|j: int|
            0 <= j < rseq.len() ==> ((#[trigger] rseq[j]) as int) < pre.model().props.len(),
        post.entity_count == pre.entity_count,
        post.eval == pre.eval,
        post.model().props == pre.model().props.push(p),
        post.properties_map@.len() == pre.properties_map@.len() + 1,
        post.declared_deps@.len() == pre.declared_deps@.len() + 1,
        post.property_indexes.entries@.len() == pre.property_indexes.entries@.len() + 1,
        forall|r2: int|
            0 <= r2 < pre.property_indexes.entries@.len() ==> post.property_indexes.entries@[r2]
                == pre.property_indexes.entries@[r2],
        !post.property_indexes.entries@.last().is_enabled(),
        post.property_indexes.entries@.last().max_indexed == 0,
        post.property_indexes.entries@.last().buckets_wf(),
        post.dependency_map@.len() == pre.dependency_map@.len() + 1,
        forall|k: int|
            0 <= k < pre.dependency_map@.len() ==> #[trigger] post.dependency_map@[k]@ == (
            if new_dependent(pre.model().props, pre.dependency_map@, rseq, k) {
                pre.dependency_map@[k]@.push(pre.model().props.len() as usize)
            } else {
                pre.dependency_map@[k]@
            }),
        post.dependency_map@.last()@.len() == 0,
        pre.model().props.len() <= usize::MAX,
    ensures
        post.wf(),
{
    let op = pre.model().props;
    let np = post.model().props;
    let n = op.len() as int;
    let odm = pre.dependency_map@;
    let ndm = post.dependency_map@;
    assert(np.len() == n + 1);
    assert(forall|r: int| 0 <= r < n ==> np[r] == op[r]);
    assert(np[n] == p);
    assert(props_keys_unique(np)) by {
        assert forall|r1: int, r2: int| 0 <= r1 < r2 < np.len() implies (#[trigger] np[r1]).key
            != (#[trigger] np[r2]).key by {
            if r2 == n {
                if np[r1].key == p.key {
                    assert((#[trigger] op[r1]).key == p.key);
                    assert(registered(op, p.key));
                }
            } else {
                assert(op[r1].key != op[r2].key);
            }
        }
    }
    assert(props_deps_ok(np)) by {
        assert forall|r: int, j: int|
            0 <= r < np.len() && 0 <= j < (#[trigger] np[r]).deps.len() implies 0 <= (
        #[trigger] np[r].deps[j]) < r by {
            if r < n {
                assert(op[r].deps[j] == np[r].deps[j]);
                assert(0 <= (#[trigger] op[r].deps[j]) < r);
            } else {
                assert(np[r].deps[j] == rseq[j] as int);
            }
        }
    }
    assert(props_derived_unstored(np));
    // The new property depends exactly on its declared dependencies and
    // their recorded transitive stored dependencies.
    assert forall|k: int| 0 <= k < n && !op[k].derived implies (depends_on(np, n, k)
        == new_dependent(op, odm, rseq, k)) by {
        assert(np[n].deps == p.deps);
        if depends_on(np, n, k) {
            let j = choose|j: int|
                0 <= j < np[n].deps.len() && ((#[trigger] np[n].deps[j]) == k || (0 <= np[n].deps[j]
                    < n && depends_on(np, np[n].deps[j], k)));
            assert(np[n].deps[j] == rseq[j] as int);
            if np[n].deps[j] == k {
                assert(in_ranks(rseq, k)) by {
                    assert(rseq[j] == k as usize);
                }
            } else {
                lemma_extend_depends_on(op, p, rseq[j] as int, k);
                assert(depends_on(op, rseq[j] as int, k));
                assert(dm_has(odm, k, rseq[j] as int));
            }
            assert(new_dependent(op, odm, rseq, k));
        }
        if new_dependent(op, odm, rseq, k) {
            if in_ranks(rseq, k) {
                let j = choose|j: int| 0 <= j < rseq.len() && (#[trigger] rseq[j]) == k as usize;
                assert(np[n].deps[j] == k);
                assert(depends_on(np, n, k));
            } else {
                let j = choose|j: int|
                    0 <= j < rseq.len() && dm_has(odm, k, #[trigger] rseq[j] as int);
                assert(depends_on(op, rseq[j] as int, k));
                lemma_extend_depends_on(op, p, rseq[j] as int, k);
                assert(0 <= np[n].deps[j] < n && depends_on(np, np[n].deps[j], k));
                assert(depends_on(np, n, k));
            }
        }
    }
    assert(dm_exact(ndm, np)) by {
        assert forall|k: int, x: int| 0 <= k < np.len() implies (#[trigger] dm_has(ndm, k, x)
            <==> (!np[k].derived && 0 <= x < np.len() && np[x].derived && depends_on(
            np,
            x,
            k,
        ))) by {
            if k < n {
                let grows = new_dependent(op, odm, rseq, k);
                if dm_has(ndm, k, x) {
                    let i = choose|i: int|
                        0 <= i < ndm[k]@.len() && (#[trigger] ndm[k]@[i]) == x;
                    if grows && i == odm[k]@.len() {
                        assert(x == n);
                        assert(!np[k].derived && np[n].derived && depends_on(np, n, k));
                    } else {
                        assert(ndm[k]@[i] == odm[k]@[i]);
                        assert(dm_has(odm, k, x));
                        assert(!op[k].derived && 0 <= x < n && op[x].derived && depends_on(
                            op,
                            x,
                            k,
                        ));
                        lemma_extend_depends_on(op, p, x, k);
                    }
                }
                if !np[k].derived && 0 <= x < np.len() && np[x].derived && depends_on(np, x, k) {
                    if x < n {
                        lemma_extend_depends_on(op, p, x, k);
                        assert(dm_has(odm, k, x));
                        let i = choose|i: int|
                            0 <= i < odm[k]@.len() && (#[trigger] odm[k]@[i]) == x;
                        assert(ndm[k]@[i] == x);
                        assert(dm_has(ndm, k, x));
                    } else {
                        assert(x == n);
                        assert(new_dependent(op, odm, rseq, k));
                        assert(ndm[k]@[odm[k]@.len() as int] == n as usize);
                        assert(dm_has(ndm, k, x));
                    }
                }
            } else {
                assert(k == n);
                assert(ndm[k]@.len() == 0);
                assert(!dm_has(ndm, k, x));
                if 0 <= x < np.len() && np[x].derived && depends_on(np, x, k) {
                    lemma_depends_on_bound(np, x, k);
                }
            }
        }
        assert forall|k: int, i1: int, i2: int|
            0 <= k < np.len() && 0 <= i1 < i2 < ndm[k]@.len() implies #[trigger] ndm[k]@[i1]
            != #[trigger] ndm[k]@[i2] by {
            if k < n {
                let grows = new_dependent(op, odm, rseq, k);
                if grows && i2 == odm[k]@.len() {
                    assert(ndm[k]@[i2] == n as usize);
                    assert(ndm[k]@[i1] == odm[k]@[i1]);
                    assert(dm_has(odm, k, odm[k]@[i1] as int)) by {
                        assert(odm[k]@[i1] == odm[k]@[i1]);
                    }
                    assert((odm[k]@[i1] as int) < n);
                } else {
                    assert(ndm[k]@[i1] == odm[k]@[i1]);
                    assert(ndm[k]@[i2] == odm[k]@[i2]);
                }
            }
        }
    }
    assert forall|r: int| 0 <= r < post.n_props() implies #[trigger] post.index_ok(r) by {
        if r < n {
            assert(pre.index_ok(r));
            let idx = post.property_indexes.entries@[r];
            assert(idx == pre.property_indexes.entries@[r]);
            if idx.is_enabled() {
                assert forall|kv: KeyView, e: int|
                    #[trigger] idx.has_entry(kv, e) <==> (0 <= e < idx.max_indexed && key_of_value(
                        computed_value(np, post.model().eval, r, e),
                    ) == Some(kv)) by {
                    lemma_extend_computed(op, p, pre.model().eval, r, e);
                    assert(idx.has_entry(kv, e) <==> (0 <= e < idx.max_indexed && key_of_value(
                        computed_value(op, pre.model().eval, r, e),
                    ) == Some(kv)));
                }
            }
        }
    }
}

/// A stored (non-derived) property's value is its column row.
pub proof fn lemma_value_is_stored<E: Compute>(
    props: Seq<PropModel>,
    eval: E,
    key: int,
    e: int,
)
    requires
        registered(props, key),
        !props[rank_of(props, key)].derived,
    ensures
        value_by_key(props, eval, key, e) == stored_by_key(props, key, e),
{
}

} // verus!
