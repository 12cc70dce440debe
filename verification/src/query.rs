//! The query engine.
//!
//! A query is a conjunction of `(property key, value)` predicates; the
//! empty query matches every entity. An entity matches a predicate when its
//! value for that property has the predicate value's index key — the
//! serialization-level equality that the indexes are built on.
//!
//! Evaluation has two phases. `setup` registers unregistered predicate
//! properties and brings their indexes up to date; it is the only phase
//! that mutates the table. `execute_query` probes the enabled indexes,
//! drives the scan from the smallest bucket found (or from the whole
//! population when no predicate is indexed), and filters the candidates by
//! the remaining predicates.

use vstd::prelude::*;

use crate::EntityId;
use crate::data::{
    EntityData, PropModel, registered, rank_of, value_by_key, derived_key, stored_at,
    stored_by_key, lemma_key_frame_after_extend,
};
use crate::init_list::{il_has, il_last_value};
use crate::index::{IndexValue, KeyView, index_key, id_in};
use crate::property::Compute;

verus! {

/// Whether entity `e` satisfies the predicate `(k, kv)`: its value for the
/// property registered under `k` exists and has index key `kv`. An entity
/// without a value, or a predicate on an unregistered property, matches
/// nothing.
pub open spec fn pred_matches<E: Compute>(
    props: Seq<PropModel>,
    eval: E,
    k: int,
    kv: KeyView,
    e: int,
) -> bool {
    match value_by_key(props, eval, k, e) {
        Some(b) => index_key(b) == kv,
        None => false,
    }
}

/// Whether entity `e` satisfies every predicate of the query.
pub open spec fn entity_matches<E: Compute>(
    props: Seq<PropModel>,
    eval: E,
    q: Seq<(int, KeyView)>,
    e: int,
) -> bool {
    forall|i: int|
        0 <= i < q.len() ==> pred_matches(props, eval, (#[trigger] q[i]).0, q[i].1, e)
}

/// How many of the entities `0 .. n` satisfy every predicate of the query.
pub open spec fn match_count<E: Compute>(
    props: Seq<PropModel>,
    eval: E,
    q: Seq<(int, KeyView)>,
    n: int,
) -> nat
    decreases n,
{
    if n <= 0 {
        0
    } else {
        match_count(props, eval, q, n - 1) + (if entity_matches(props, eval, q, n - 1) {
            1nat
        } else {
            0nat
        })
    }
}

/// Whether the query names the property registered under `k`.
pub open spec fn in_preds(q: Seq<(int, KeyView)>, k: int) -> bool {
    exists|i: int| 0 <= i < q.len() && (#[trigger] q[i]).0 == k
}

/// Whether the table is ready to execute the query: every predicate
/// property is registered, and every enabled index among them has been
/// caught up to the entity count.
pub open spec fn ready_for<E: Compute>(data: EntityData<E>, q: Seq<(int, KeyView)>) -> bool {
    forall|i: int|
        0 <= i < q.len() ==> {
            &&& registered(data.model().props, (#[trigger] q[i]).0)
            &&& (data.property_indexes.entries@[rank_of(data.model().props, q[i].0)].is_enabled()
                ==> data.property_indexes.entries@[rank_of(data.model().props, q[i].0)].max_indexed
                == data.model().count)
        }
}

/// A query: a conjunction of `(property key, value index key)` predicates.
pub struct Query {
    pub preds: Vec<(usize, IndexValue)>,
}

impl View for Query {
    type V = Seq<(int, KeyView)>;

    open spec fn view(&self) -> Seq<(int, KeyView)> {
        Seq::new(self.preds@.len(), |i: int| (self.preds@[i].0 as int, self.preds@[i].1@))
    }
}

impl Query {
    /// The empty query, which matches every entity.
    pub fn new() -> (r: Query)
        ensures
            r@ == Seq::<(int, KeyView)>::empty(),
    {
        let q = Query { preds: Vec::new() };
        proof {
            assert(q@ =~= Seq::<(int, KeyView)>::empty());
        }
        q
    }

    /// Adds the predicate that the property registered under `key` has the
    /// given serialized value.
    pub fn with_value(&mut self, key: usize, value: &Vec<u8>)
        ensures
            final(self)@ == old(self)@.push((key as int, index_key(value@))),
    {
        let iv = IndexValue::new(value);
        self.preds.push((key, iv));
        proof {
            assert(final(self)@ =~= old(self)@.push((key as int, index_key(value@))));
        }
    }

    /// The predicates that an initialization list's entries describe: each
    /// entry becomes the predicate that the property has that value.
    pub fn from_init(init: &crate::init_list::InitializationList) -> (r: Query)
        ensures
            r@.len() == init.entries@.len(),
            forall|i: int|
                0 <= i < r@.len() ==> #[trigger] r@[i] == (
                init.entries@[i].0 as int,
                index_key(init.entries@[i].1@),
            ),
    {
        let mut q = Query::new();
        let n = init.entries.len();
        let mut i: usize = 0;
        while i < n
            invariant
                n == init.entries@.len(),
                0 <= i <= n,
                q@.len() == i,
                forall|j: int|
                    0 <= j < i ==> #[trigger] q@[j] == (
                    init.entries@[j].0 as int,
                    index_key(init.entries@[j].1@),
                ),
            decreases n - i,
        {
            q.with_value(init.entries[i].0, &init.entries[i].1);
            i += 1;
        }
        q
    }

    /// Checks the query against one entity's property values directly,
    /// without touching any index.
    pub fn match_entity<E: Compute>(&self, data: &EntityData<E>, entity: EntityId) -> (r: bool)
        requires
            data.wf(),
        ensures
            r == entity_matches(data.model().props, data.model().eval, self@, entity.0 as int),
    {
        let n = self.preds.len();
        let mut i: usize = 0;
        while i < n
            invariant
                data.wf(),
                n == self.preds@.len(),
                0 <= i <= n,
                forall|j: int|
                    0 <= j < i ==> pred_matches(
                        data.model().props,
                        data.model().eval,
                        (#[trigger] self@[j]).0,
                        self@[j].1,
                        entity.0 as int,
                    ),
            decreases n - i,
        {
            let v = data.get_property(self.preds[i].0, entity);
            match v {
                None => {
                    proof {
                        assert(!pred_matches(
                            data.model().props,
                            data.model().eval,
                            (#[trigger] self@[i as int]).0,
                            self@[i as int].1,
                            entity.0 as int,
                        ));
                    }
                    return false;
                },
                Some(b) => {
                    let iv = IndexValue::new(&b);
                    if !iv.key_eq(&self.preds[i].1) {
                        proof {
                            assert(!pred_matches(
                                data.model().props,
                                data.model().eval,
                                (#[trigger] self@[i as int]).0,
                                self@[i as int].1,
                                entity.0 as int,
                            ));
                        }
                        return false;
                    }
                },
            }
            i += 1;
        }
        true
    }

    /// Registers every unregistered predicate property and brings every
    /// predicate property's index up to date. The only phase of a query
    /// that needs exclusive access; it changes no property value.
    pub fn setup<E: Compute>(&self, data: &mut EntityData<E>)
        requires
            old(data).wf(),
        ensures
            final(data).wf(),
            final(data).model().count == old(data).model().count,
            final(data).model().eval == old(data).model().eval,
            final(data).is_initializing == old(data).is_initializing,
            forall|k: int, j: int|
                value_by_key(final(data).model().props, final(data).model().eval, k, j)
                    == value_by_key(old(data).model().props, old(data).model().eval, k, j),
            forall|k: int|
                registered(final(data).model().props, k) == (registered(
                    old(data).model().props,
                    k,
                ) || in_preds(self@, k)),
            forall|k: int|
                derived_key(final(data).model().props, k) == derived_key(
                    old(data).model().props,
                    k,
                ),
            ready_for(*final(data), self@),
    {
        let ghost oldd = *old(data);
        let n = self.preds.len();
        let mut i: usize = 0;
        while i < n
            invariant
                n == self.preds@.len(),
                0 <= i <= n,
                oldd.wf(),
                data.wf(),
                data.model().count == oldd.model().count,
                data.model().eval == oldd.model().eval,
                data.is_initializing == oldd.is_initializing,
                forall|k: int, j: int|
                    value_by_key(data.model().props, data.model().eval, k, j) == value_by_key(
                        oldd.model().props,
                        oldd.model().eval,
                        k,
                        j,
                    ),
                forall|k: int|
                    registered(data.model().props, k) == (registered(oldd.model().props, k)
                        || exists|t: int| 0 <= t < i && (#[trigger] self@[t]).0 == k),
                forall|k: int|
                    derived_key(data.model().props, k) == derived_key(oldd.model().props, k),
                forall|t: int|
                    0 <= t < i ==> {
                        &&& registered(data.model().props, (#[trigger] self@[t]).0)
                        &&& (data.property_indexes.entries@[rank_of(data.model().props, self@[t].0)].is_enabled()
                            ==> data.property_indexes.entries@[rank_of(
                            data.model().props,
                            self@[t].0,
                        )].max_indexed == data.model().count)
                    },
            decreases n - i,
        {
            let k = self.preds[i].0;
            let ghost pre = *data;
            let rk = match data.find_rank(k) {
                Some(rk) => rk,
                None => {
                    let rk = data.property_metadata.len();
                    data.register_nonderived_property(k, String::new(), false);
                    proof {
                        assert(data.model().props[rk as int].key == k as int);
                        assert(registered(data.model().props, k as int));
                        let w = rank_of(data.model().props, k as int);
                        if w != rk as int {
                            assert(data.model().props[w].key == k as int);
                            assert(w < rk as int);
                            assert(pre.model().props[w].key == k as int);
                            assert(registered(pre.model().props, k as int));
                        }
                    }
                    rk
                },
            };
            let ghost mid = *data;
            proof {
                // A fresh registration changes no value and moves no rank.
                if mid != pre {
                    assert(!registered(pre.model().props, k as int));
                    assert(rank_of(mid.model().props, k as int) == rk as int);
                    assert forall|k2: int, j: int|
                        #![trigger value_by_key(mid.model().props, mid.model().eval, k2, j)]
                        value_by_key(mid.model().props, mid.model().eval, k2, j) == value_by_key(
                            pre.model().props,
                            pre.model().eval,
                            k2,
                            j,
                        ) by {
                        if k2 != k as int {
                            lemma_key_frame_after_extend::<E>(
                                pre.model().props,
                                mid.model().props,
                                mid.model().eval,
                                k2,
                            );
                        } else {
                            assert(mid.model().props[rk as int].column.len() == 0);
                            assert(!mid.model().props[rk as int].derived);
                            assert(value_by_key(mid.model().props, mid.model().eval, k2, j)
                                == stored_at(mid.model().props, rk as int, j));
                        }
                    }
                    assert forall|k2: int|
                        #[trigger] registered(mid.model().props, k2) == (registered(
                            pre.model().props,
                            k2,
                        ) || k2 == k as int) by {
                        if k2 != k as int {
                            lemma_key_frame_after_extend::<E>(
                                pre.model().props,
                                mid.model().props,
                                mid.model().eval,
                                k2,
                            );
                        }
                    }
                    assert forall|k2: int|
                        #[trigger] derived_key(mid.model().props, k2) == derived_key(
                            pre.model().props,
                            k2,
                        ) by {
                        if k2 != k as int {
                            lemma_key_frame_after_extend::<E>(
                                pre.model().props,
                                mid.model().props,
                                mid.model().eval,
                                k2,
                            );
                            if registered(pre.model().props, k2) {
                                let r2 = rank_of(pre.model().props, k2);
                                assert(rank_of(mid.model().props, k2) == r2);
                                assert(mid.model().props[r2] == pre.model().props[r2]);
                            }
                        } else {
                            assert(!mid.model().props[rk as int].derived);
                        }
                    }
                }
                // Earlier predicates keep their registration and rank.
                assert forall|t: int| 0 <= t < i implies registered(
                    mid.model().props,
                    (#[trigger] self@[t]).0,
                ) && rank_of(mid.model().props, self@[t].0) == rank_of(
                    pre.model().props,
                    self@[t].0,
                ) && mid.property_indexes.entries@[rank_of(pre.model().props, self@[t].0)]
                    == pre.property_indexes.entries@[rank_of(pre.model().props, self@[t].0)] by {
                    if mid != pre {
                        if self@[t].0 != k as int {
                            lemma_key_frame_after_extend::<E>(
                                pre.model().props,
                                mid.model().props,
                                mid.model().eval,
                                self@[t].0,
                            );
                        } else {
                            assert(registered(pre.model().props, k as int));
                        }
                        assert((rank_of(pre.model().props, self@[t].0))
                            < pre.property_indexes.entries@.len());
                    }
                }
            }
            data.index_unindexed_entities(rk);
            i += 1;
            proof {
                assert(data.model() == mid.model());
                assert forall|t: int| 0 <= t < i implies {
                    &&& registered(data.model().props, (#[trigger] self@[t]).0)
                    &&& (data.property_indexes.entries@[rank_of(data.model().props, self@[t].0)].is_enabled()
                        ==> data.property_indexes.entries@[rank_of(
                        data.model().props,
                        self@[t].0,
                    )].max_indexed == data.model().count)
                } by {
                    let rt = rank_of(data.model().props, self@[t].0);
                    if t == i - 1 {
                        assert(rt == rk as int);
                    } else {
                        if rt != rk as int {
                            assert(data.property_indexes.entries@[rt] == mid.property_indexes.entries@[rt]);
                        }
                    }
                }
                assert(self@[i - 1].0 == k as int);
                assert(registered(mid.model().props, k as int));
                assert forall|k2: int|
                    registered(data.model().props, k2) == (registered(oldd.model().props, k2)
                        || exists|t: int|
                        0 <= t < i && (#[trigger] self@[t]).0 == k2) by {
                    if registered(data.model().props, k2) && !registered(oldd.model().props, k2) {
                        if registered(pre.model().props, k2) {
                            let t = choose|t: int|
                                0 <= t < i - 1 && (#[trigger] self@[t]).0 == k2;
                            assert(0 <= t < i && self@[t].0 == k2);
                        } else {
                            assert(mid != pre);
                            assert(registered(mid.model().props, k2) == (registered(
                                pre.model().props,
                                k2,
                            ) || k2 == k as int));
                            assert(k2 == k as int);
                            assert((#[trigger] self@[i - 1]).0 == k2);
                        }
                    }
                    if exists|t: int| 0 <= t < i && (#[trigger] self@[t]).0 == k2 {
                        let t = choose|t: int| 0 <= t < i && (#[trigger] self@[t]).0 == k2;
                        if t < i - 1 {
                            assert(registered(pre.model().props, k2));
                            if mid != pre {
                                assert(registered(mid.model().props, k2));
                            }
                        } else {
                            assert(k2 == k as int);
                        }
                        assert(registered(mid.model().props, k2));
                    }
                }
            }
        }
        proof {
            assert forall|k2: int|
                registered(final(data).model().props, k2) == (registered(oldd.model().props, k2)
                    || in_preds(self@, k2)) by {
                if in_preds(self@, k2) {
                    let t = choose|t: int| 0 <= t < self@.len() && (#[trigger] self@[t]).0 == k2;
                }
                if exists|t: int| 0 <= t < n && (#[trigger] self@[t]).0 == k2 {
                    let t = choose|t: int| 0 <= t < n && (#[trigger] self@[t]).0 == k2;
                    assert(in_preds(self@, k2));
                }
            }
        }
    }
}

/// No entity below `n` matches, so the count is zero.
pub proof fn lemma_match_count_zero<E: Compute>(
    props: Seq<PropModel>,
    eval: E,
    q: Seq<(int, KeyView)>,
    n: int,
)
    requires
        forall|e: int| 0 <= e < n ==> !entity_matches(props, eval, q, e),
    ensures
        match_count(props, eval, q, n) == 0,
    decreases n,
{
    if n > 0 {
        lemma_match_count_zero(props, eval, q, n - 1);
    }
}

/// A duplicate-free sequence holding exactly the entities below `n` that
/// match the query is as long as the match count: the count and the list
/// of matches agree.
pub proof fn lemma_matching_card<E: Compute>(
    props: Seq<PropModel>,
    eval: E,
    q: Seq<(int, KeyView)>,
    n: int,
    ids: Seq<EntityId>,
)
    requires
        forall|i1: int, i2: int| 0 <= i1 < i2 < ids.len() ==> ids[i1] != ids[i2],
        forall|i: int|
            0 <= i < ids.len() ==> 0 <= (#[trigger] ids[i]).0 < n && entity_matches(
                props,
                eval,
                q,
                ids[i].0 as int,
            ),
        forall|e: int| 0 <= e < n && entity_matches(props, eval, q, e) ==> id_in(ids, e),
    ensures
        ids.len() == match_count(props, eval, q, n),
    decreases n,
{
    if n <= 0 {
        assert(ids.len() == 0) by {
            if ids.len() > 0 {
                assert(0 <= ids[0].0 < n);
            }
        }
    } else {
        if entity_matches(props, eval, q, n - 1) {
            assert(id_in(ids, n - 1));
            let pos = choose|pos: int| 0 <= pos < ids.len() && ids[pos].0 == n - 1;
            let ids2 = ids.remove(pos);
            assert(ids2.len() == ids.len() - 1);
            assert(forall|j: int|
                0 <= j < pos ==> #[trigger] ids2[j] == ids[j]);
            assert(forall|j: int|
                pos <= j < ids2.len() ==> #[trigger] ids2[j] == ids[j + 1]);
            assert forall|i1: int, i2: int| 0 <= i1 < i2 < ids2.len() implies ids2[i1]
                != ids2[i2] by {
                let a1: int = if i1 < pos { i1 } else { i1 + 1 };
                let a2: int = if i2 < pos { i2 } else { i2 + 1 };
                assert(ids2[i1] == ids[a1] && ids2[i2] == ids[a2]);
            }
            assert forall|i: int| 0 <= i < ids2.len() implies 0 <= (#[trigger] ids2[i]).0 < n - 1
                && entity_matches(props, eval, q, ids2[i].0 as int) by {
                let a: int = if i < pos { i } else { i + 1 };
                assert(ids2[i] == ids[a]);
                assert(ids2[i].0 != n - 1) by {
                    if ids2[i].0 == n - 1 {
                        assert(ids[a] == ids[pos]) by {
                            assert(ids[a].0 == ids[pos].0);
                        }
                        if a < pos {
                            assert(ids[a] != ids[pos]);
                        } else {
                            assert(ids[pos] != ids[a]);
                        }
                    }
                }
            }
            assert forall|e: int| 0 <= e < n - 1 && entity_matches(props, eval, q, e) implies id_in(
                ids2,
                e,
            ) by {
                assert(id_in(ids, e));
                let w = choose|w: int| 0 <= w < ids.len() && ids[w].0 == e;
                assert(w != pos);
                if w < pos {
                    assert(ids2[w].0 == e);
                } else {
                    assert(ids2[w - 1] == ids[w]);
                    assert(ids2[w - 1].0 == e);
                }
                assert(id_in(ids2, e));
            }
            lemma_matching_card(props, eval, q, n - 1, ids2);
        } else {
            assert forall|i: int| 0 <= i < ids.len() implies 0 <= (#[trigger] ids[i]).0 < n - 1
                && entity_matches(props, eval, q, ids[i].0 as int) by {
                if ids[i].0 == n - 1 {
                    assert(entity_matches(props, eval, q, n - 1));
                }
            }
            lemma_matching_card(props, eval, q, n - 1, ids);
        }
    }
}

/// One matching-bucket record from the probing phase: which predicate it
/// belongs to, which bucket position, and the bucket's size.
struct Probe {
    pred: usize,
    bucket: usize,
    len: usize,
}

impl Query {
    /// Executes the query against the table: the ids of the entities that
    /// satisfy every predicate, each exactly once, in no specified order.
    /// The scan is driven by the smallest bucket among the enabled indexed
    /// predicates, and falls back to the whole population when none is
    /// indexed.
    pub fn execute_query<E: Compute>(&self, data: &EntityData<E>) -> (r: Vec<EntityId>)
        requires
            data.wf(),
            ready_for(*data, self@),
        ensures
            forall|i1: int, i2: int| 0 <= i1 < i2 < r@.len() ==> r@[i1] != r@[i2],
            forall|e: int|
                id_in(r@, e) <==> (0 <= e < data.model().count && entity_matches(
                    data.model().props,
                    data.model().eval,
                    self@,
                    e,
                )),
            r@.len() == match_count(
                data.model().props,
                data.model().eval,
                self@,
                data.model().count,
            ),
    {
        let ghost props = data.model().props;
        let ghost ev = data.model().eval;
        let ghost count = data.model().count;
        let n = self.preds.len();
        // Probe the enabled indexes and keep the smallest bucket.
        let mut best: Option<Probe> = None;
        let mut i: usize = 0;
        while i < n
            invariant
                data.wf(),
                ready_for(*data, self@),
                props == data.model().props,
                ev == data.model().eval,
                count == data.model().count,
                n == self.preds@.len(),
                0 <= i <= n,
                match best {
                    Some(p) => {
                        &&& (p.pred as int) < i
                        &&& {
                            let rkp = rank_of(props, self@[p.pred as int].0);
                            let idxp = data.property_indexes.entries@[rkp];
                            &&& idxp.is_enabled()
                            &&& (p.bucket as int) < idxp.buckets().len()
                            &&& idxp.buckets()[p.bucket as int].key@ == self@[p.pred as int].1
                        }
                    },
                    None => true,
                },
            decreases n - i,
        {
            let k = self.preds[i].0;
            let rk = match data.find_rank(k) {
                Some(rk) => rk,
                None => {
                    proof {
                        assert(registered(props, (#[trigger] self@[i as int]).0));
                        assert(false);
                    }
                    return Vec::new();
                },
            };
            let idx = data.get_index_ref(rk);
            if idx.lookup.is_some() {
                match idx.find_bucket(&self.preds[i].1) {
                    None => {
                        // The predicate's value has no bucket: nothing can
                        // match.
                        proof {
                            assert(registered(props, (#[trigger] self@[i as int]).0));
                            assert(rk as int == rank_of(props, self@[i as int].0));
                            assert(data.index_ok(rk as int));
                            assert(idx.max_indexed == count);
                            assert forall|e: int|
                                0 <= e < count implies !entity_matches(props, ev, self@, e) by {
                                if entity_matches(props, ev, self@, e) {
                                    assert(pred_matches(
                                        props,
                                        ev,
                                        (#[trigger] self@[i as int]).0,
                                        self@[i as int].1,
                                        e,
                                    ));
                                    let b = value_by_key(props, ev, self@[i as int].0, e).unwrap();
                                    assert(idx.has_entry(index_key(b), e));
                                }
                            }
                            lemma_match_count_zero(props, ev, self@, count);
                            assert forall|e: int| !id_in(Seq::<EntityId>::empty(), e) by {}
                        }
                        return Vec::new();
                    },
                    Some(b) => {
                        let blen = idx.bucket_len(b);
                        let better = match &best {
                            None => true,
                            Some(p) => blen < p.len,
                        };
                        if better {
                            best = Some(Probe { pred: i, bucket: b, len: blen });
                        }
                    },
                }
            }
            i += 1;
        }
        match best {
            Some(probe) => {
                // Drive the scan from the chosen bucket and filter by the
                // full match.
                let k = self.preds[probe.pred].0;
                let rk = match data.find_rank(k) {
                    Some(rk) => rk,
                    None => {
                        proof {
                            assert(registered(props, (#[trigger] self@[probe.pred as int]).0));
                            assert(false);
                        }
                        return Vec::new();
                    },
                };
                let idx = data.get_index_ref(rk);
                proof {
                    assert(rk as int == rank_of(props, self@[probe.pred as int].0));
                }
                proof {
                    assert(data.index_ok(rk as int));
                }
                let cands = idx.bucket_ids(probe.bucket);
                proof {
                    assert forall|i1: int, i2: int|
                        0 <= i1 < i2 < cands@.len() implies cands@[i1] != cands@[i2] by {
                        let bs = data.property_indexes.entries@[rk as int].buckets();
                        assert(bs[probe.bucket as int].ids@[i1] != bs[probe.bucket as int].ids@[i2]);
                    }
                }
                let m = cands.len();
                let mut out: Vec<EntityId> = Vec::new();
                let mut c: usize = 0;
                while c < m
                    invariant
                        data.wf(),
                        props == data.model().props,
                        ev == data.model().eval,
                        count == data.model().count,
                        m == cands@.len(),
                        0 <= c <= m,
                        (rk as int) < data.property_indexes.entries@.len(),
                        data.property_indexes.entries@[rk as int].is_enabled(),
                        (probe.bucket as int)
                            < data.property_indexes.entries@[rk as int].buckets().len(),
                        cands@ == data.property_indexes.entries@[rk as int].buckets()[probe.bucket as int].ids@,
                        forall|i1: int, i2: int|
                            0 <= i1 < i2 < cands@.len() ==> cands@[i1] != cands@[i2],
                        forall|i1: int, i2: int|
                            0 <= i1 < i2 < out@.len() ==> out@[i1] != out@[i2],
                        forall|e: int|
                            id_in(out@, e) <==> (exists|j: int|
                                0 <= j < c && (#[trigger] cands@[j]).0 == e && entity_matches(
                                    props,
                                    ev,
                                    self@,
                                    e,
                                )),
                    decreases m - c,
                {
                    let cand = cands[c];
                    let ghost out0 = out@;
                    let matched = self.match_entity(data, cand);
                    if matched {
                        proof {
                            if id_in(out0, cand.0 as int) {
                                let j = choose|j: int|
                                    0 <= j < c && (#[trigger] cands@[j]).0 == cand.0 as int
                                        && entity_matches(props, ev, self@, cand.0 as int);
                                assert(cands@[j] == cands@[c as int]) by {
                                    assert(cands@[j].0 == cands@[c as int].0);
                                }
                            }
                        }
                        out.push(cand);
                    }
                    proof {
                        if matched {
                            assert(out@ == out0.push(cand));
                            assert(forall|w: int| 0 <= w < out0.len() ==> out@[w] == out0[w]);
                            assert(out@[out0.len() as int] == cand);
                        } else {
                            assert(out@ == out0);
                        }
                        assert forall|e: int|
                            id_in(out@, e) <==> (exists|j: int|
                                0 <= j < c + 1 && (#[trigger] cands@[j]).0 == e && entity_matches(
                                    props,
                                    ev,
                                    self@,
                                    e,
                                )) by {
                            if id_in(out@, e) {
                                let w = choose|w: int|
                                    0 <= w < out@.len() && (#[trigger] out@[w]).0 == e;
                                if w < out0.len() {
                                    assert(out0[w].0 == e);
                                    assert(id_in(out0, e));
                                    let j = choose|j: int|
                                        0 <= j < c && (#[trigger] cands@[j]).0 == e
                                            && entity_matches(props, ev, self@, e);
                                    assert(0 <= j < c + 1 && cands@[j].0 == e);
                                } else {
                                    assert(matched && out@[w] == cand);
                                    assert((#[trigger] cands@[c as int]).0 == e);
                                }
                            }
                            if exists|j: int|
                                0 <= j < c + 1 && (#[trigger] cands@[j]).0 == e && entity_matches(
                                    props,
                                    ev,
                                    self@,
                                    e,
                                ) {
                                let j = choose|j: int|
                                    0 <= j < c + 1 && (#[trigger] cands@[j]).0 == e
                                        && entity_matches(props, ev, self@, e);
                                if j < c {
                                    assert(id_in(out0, e));
                                    let w = choose|w: int|
                                        0 <= w < out0.len() && (#[trigger] out0[w]).0 == e;
                                    assert(out@[w].0 == e);
                                    assert(id_in(out@, e));
                                } else {
                                    assert(cands@[c as int].0 == e);
                                    assert(entity_matches(props, ev, self@, cand.0 as int));
                                    assert(matched);
                                    assert(out@[out0.len() as int].0 == e);
                                    assert(id_in(out@, e));
                                }
                            }
                        }
                    }
                    c += 1;
                }
                proof {
                    let idxg = data.property_indexes.entries@[rk as int];
                    let kv = self@[probe.pred as int].1;
                    assert(data.index_ok(rk as int));
                    assert(idxg.max_indexed == count);
                    assert(idxg.buckets()[probe.bucket as int].key@ == kv);
                    assert forall|e: int|
                        id_in(out@, e) <==> (0 <= e < count && entity_matches(
                            props,
                            ev,
                            self@,
                            e,
                        )) by {
                        if id_in(out@, e) {
                            let j = choose|j: int|
                                0 <= j < m && (#[trigger] cands@[j]).0 == e && entity_matches(
                                    props,
                                    ev,
                                    self@,
                                    e,
                                );
                            assert(id_in(idxg.buckets()[probe.bucket as int].ids@, e));
                            assert(idxg.has_entry(kv, e));
                            assert(0 <= e < idxg.max_indexed);
                        }
                        if 0 <= e < count && entity_matches(props, ev, self@, e) {
                            assert(pred_matches(
                                props,
                                ev,
                                (#[trigger] self@[probe.pred as int]).0,
                                kv,
                                e,
                            ));
                            let b = value_by_key(props, ev, self@[probe.pred as int].0, e).unwrap();
                            assert(idxg.has_entry(index_key(b), e));
                            assert(index_key(b) == kv);
                            let b2 = choose|b2: int|
                                0 <= b2 < idxg.buckets().len() && (#[trigger] idxg.buckets()[b2]).key@
                                    == kv && id_in(idxg.buckets()[b2].ids@, e);
                            assert(b2 == probe.bucket as int) by {
                                if b2 < probe.bucket as int {
                                    assert(idxg.buckets()[b2].key@ != idxg.buckets()[probe.bucket as int].key@);
                                } else if b2 > probe.bucket as int {
                                    assert(idxg.buckets()[probe.bucket as int].key@ != idxg.buckets()[b2].key@);
                                }
                            }
                            let w = choose|w: int|
                                0 <= w < cands@.len() && (#[trigger] cands@[w]).0 == e;
                            assert(cands@[w].0 == e && entity_matches(props, ev, self@, e));
                            assert(id_in(out@, e));
                        }
                    }
                    assert forall|i1: int|
                        0 <= i1 < out@.len() implies 0 <= (#[trigger] out@[i1]).0 < count
                        && entity_matches(props, ev, self@, out@[i1].0 as int) by {
                        assert(id_in(out@, out@[i1].0 as int)) by {
                            assert(out@[i1].0 == out@[i1].0);
                        }
                    }
                    lemma_matching_card(props, ev, self@, count, out@);
                }
                out
            },
            None => {
                // No usable index: scan the whole population.
                let cnt = data.entity_count;
                let mut out: Vec<EntityId> = Vec::new();
                let mut e: usize = 0;
                while e < cnt
                    invariant
                        data.wf(),
                        props == data.model().props,
                        ev == data.model().eval,
                        count == data.model().count,
                        cnt == count,
                        0 <= e <= cnt,
                        forall|i1: int, i2: int|
                            0 <= i1 < i2 < out@.len() ==> out@[i1] != out@[i2],
                        forall|x: int| id_in(out@, x) ==> 0 <= x < e,
                        forall|x: int|
                            id_in(out@, x) <==> (0 <= x < e && entity_matches(
                                props,
                                ev,
                                self@,
                                x,
                            )),
                    decreases cnt - e,
                {
                    let cand = EntityId(e);
                    let ghost out0 = out@;
                    let matched = self.match_entity(data, cand);
                    if matched {
                        out.push(cand);
                    }
                    proof {
                        if matched {
                            assert(out@ == out0.push(cand));
                            assert(forall|w: int| 0 <= w < out0.len() ==> out@[w] == out0[w]);
                            assert(out@[out0.len() as int] == cand);
                            assert forall|w: int| 0 <= w < out0.len() implies out0[w] != cand by {
                                assert(id_in(out0, (#[trigger] out0[w]).0 as int)) by {
                                    assert(out0[w].0 == out0[w].0);
                                }
                            }
                        } else {
                            assert(out@ == out0);
                        }
                        assert forall|x: int|
                            id_in(out@, x) <==> (0 <= x < e + 1 && entity_matches(
                                props,
                                ev,
                                self@,
                                x,
                            )) by {
                            if id_in(out@, x) {
                                let w = choose|w: int|
                                    0 <= w < out@.len() && (#[trigger] out@[w]).0 == x;
                                if w < out0.len() {
                                    assert(out0[w].0 == x);
                                    assert(id_in(out0, x));
                                } else {
                                    assert(matched && out@[w] == cand);
                                }
                            }
                            if 0 <= x < e + 1 && entity_matches(props, ev, self@, x) {
                                if x < e {
                                    assert(id_in(out0, x));
                                    let w = choose|w: int|
                                        0 <= w < out0.len() && (#[trigger] out0[w]).0 == x;
                                    assert(out@[w].0 == x);
                                    assert(id_in(out@, x));
                                } else {
                                    assert(matched);
                                    assert(out@[out0.len() as int].0 == x);
                                    assert(id_in(out@, x));
                                }
                            }
                        }
                    }
                    e += 1;
                }
                proof {
                    assert forall|i1: int|
                        0 <= i1 < out@.len() implies 0 <= (#[trigger] out@[i1]).0 < count
                        && entity_matches(props, ev, self@, out@[i1].0 as int) by {
                        assert(id_in(out@, out@[i1].0 as int)) by {
                            assert(out@[i1].0 == out@[i1].0);
                        }
                    }
                    lemma_matching_card(props, ev, self@, count, out@);
                }
                out
            },
        }
    }
}

/// Combines two queries into their conjunction: useful to construct a
/// query in parts.
pub struct QueryAnd {
    pub queries: (Query, Query),
}

impl QueryAnd {
    /// The conjunction of the two queries.
    pub fn new(q1: Query, q2: Query) -> (r: QueryAnd)
        ensures
            r.queries.0@ == q1@,
            r.queries.1@ == q2@,
    {
        QueryAnd { queries: (q1, q2) }
    }

    /// The combined query: the predicates of both, in order.
    pub fn query(self) -> (r: Query)
        ensures
            r@ == self.queries.0@ + self.queries.1@,
    {
        let QueryAnd { queries: (mut q1, mut q2) } = self;
        q1.preds.append(&mut q2.preds);
        proof {
            assert(q1@ =~= self.queries.0@ + self.queries.1@);
        }
        q1
    }
}

/// Two states that give every property the same value for every entity
/// satisfy the same queries: in particular, enabling or refreshing an index
/// never changes any query's result, only its cost.
pub proof fn lemma_match_same_values<E: Compute>(
    p1: Seq<PropModel>,
    ev1: E,
    p2: Seq<PropModel>,
    ev2: E,
    q: Seq<(int, KeyView)>,
    e: int,
)
    requires
        forall|k: int, j: int| value_by_key(p1, ev1, k, j) == value_by_key(p2, ev2, k, j),
    ensures
        entity_matches(p1, ev1, q, e) == entity_matches(p2, ev2, q, e),
{
    assert forall|i: int| 0 <= i < q.len() implies pred_matches(
        p1,
        ev1,
        (#[trigger] q[i]).0,
        q[i].1,
        e,
    ) == pred_matches(p2, ev2, q[i].0, q[i].1, e) by {
        assert(value_by_key(p1, ev1, q[i].0, e) == value_by_key(p2, ev2, q[i].0, e));
    }
}

/// As `lemma_match_same_values`, for the number of matches.
pub proof fn lemma_count_same_values<E: Compute>(
    p1: Seq<PropModel>,
    ev1: E,
    p2: Seq<PropModel>,
    ev2: E,
    q: Seq<(int, KeyView)>,
    n: int,
)
    requires
        forall|k: int, j: int| value_by_key(p1, ev1, k, j) == value_by_key(p2, ev2, k, j),
    ensures
        match_count(p1, ev1, q, n) == match_count(p2, ev2, q, n),
    decreases n,
{
    if n > 0 {
        lemma_count_same_values(p1, ev1, p2, ev2, q, n - 1);
        lemma_match_same_values(p1, ev1, p2, ev2, q, n - 1);
    }
}

/// Whether the query carries the given predicate.
pub open spec fn in_query(q: Seq<(int, KeyView)>, pred: (int, KeyView)) -> bool {
    exists|j: int| 0 <= j < q.len() && (#[trigger] q[j]) == pred
}

/// Whether every predicate of `q1` occurs in `q2`.
pub open spec fn subquery(q1: Seq<(int, KeyView)>, q2: Seq<(int, KeyView)>) -> bool {
    forall|i: int| 0 <= i < q1.len() ==> in_query(q2, #[trigger] q1[i])
}

/// Adding predicates never grows the result: a query whose predicates all
/// occur in a second query matches at least as many entities.
pub proof fn lemma_query_monotone<E: Compute>(
    props: Seq<PropModel>,
    eval: E,
    q1: Seq<(int, KeyView)>,
    q2: Seq<(int, KeyView)>,
    n: int,
)
    requires
        subquery(q1, q2),
    ensures
        match_count(props, eval, q2, n) <= match_count(props, eval, q1, n),
    decreases n,
{
    if n > 0 {
        lemma_query_monotone(props, eval, q1, q2, n - 1);
        if entity_matches(props, eval, q2, n - 1) {
            assert forall|i: int| 0 <= i < q1.len() implies pred_matches(
                props,
                eval,
                (#[trigger] q1[i]).0,
                q1[i].1,
                n - 1,
            ) by {
                assert(in_query(q2, q1[i]));
                let j = choose|j: int| 0 <= j < q2.len() && (#[trigger] q2[j]) == q1[i];
                assert(pred_matches(props, eval, q2[j].0, q2[j].1, n - 1));
            }
            assert(entity_matches(props, eval, q1, n - 1));
        }
    }
}

/// With distinct keys, the value an initialization list leaves in a listed
/// property is the listed value.
pub proof fn lemma_il_last_distinct(entries: Seq<(usize, Vec<u8>)>, n: int, i: int)
    requires
        forall|i1: int, i2: int|
            0 <= i1 < i2 < entries.len() ==> (#[trigger] entries[i1]).0 != (
            #[trigger] entries[i2]).0,
        0 <= i < n <= entries.len(),
    ensures
        il_last_value(entries, n, entries[i].0 as int) == Some(entries[i].1@),
    decreases n,
{
    if entries[n - 1].0 == entries[i].0 {
        if i < n - 1 {
            assert((#[trigger] entries[i]).0 != (#[trigger] entries[n - 1]).0);
        }
        assert(i == n - 1);
    } else {
        lemma_il_last_distinct(entries, n - 1, i);
    }
}

/// An entity created with an initialization list of distinct stored
/// properties matches the query that asks for exactly those values: a new
/// entity is found by a query over its initial properties.
pub proof fn lemma_new_entity_matches<E: Compute>(
    props: Seq<PropModel>,
    eval: E,
    entries: Seq<(usize, Vec<u8>)>,
    q: Seq<(int, KeyView)>,
    e: int,
)
    requires
        q.len() == entries.len(),
        forall|i: int|
            0 <= i < q.len() ==> #[trigger] q[i] == (
                entries[i].0 as int,
                index_key(entries[i].1@),
            ),
        forall|i: int|
            0 <= i < entries.len() ==> registered(props, (#[trigger] entries[i]).0 as int)
                && !props[rank_of(props, entries[i].0 as int)].derived,
        forall|k: int|
            il_has(entries, k) ==> stored_by_key(props, k, e) == il_last_value(
                entries,
                entries.len() as int,
                k,
            ),
        forall|i1: int, i2: int|
            0 <= i1 < i2 < entries.len() ==> (#[trigger] entries[i1]).0 != (
            #[trigger] entries[i2]).0,
    ensures
        entity_matches(props, eval, q, e),
{
    assert forall|i: int| 0 <= i < q.len() implies pred_matches(
        props,
        eval,
        (#[trigger] q[i]).0,
        q[i].1,
        e,
    ) by {
        let k = entries[i].0 as int;
        assert(il_has(entries, k)) by {
            assert((#[trigger] entries[i]).0 as int == k);
        }
        lemma_il_last_distinct(entries, entries.len() as int, i);
        assert(stored_by_key(props, k, e) == Some(entries[i].1@));
        crate::data::lemma_value_is_stored(props, eval, k, e);
        assert(value_by_key(props, eval, k, e) == Some(entries[i].1@));
    }
}

/// After an index has been enabled and caught up — as every query leaves
/// it — every entity with a value for the property stands in the bucket of
/// that value's index key.
pub proof fn lemma_index_complete<E: Compute>(data: EntityData<E>, key: int, e: int, v: Seq<u8>)
    requires
        data.wf(),
        registered(data.model().props, key),
        data.property_indexes.entries@[rank_of(data.model().props, key)].is_enabled(),
        data.property_indexes.entries@[rank_of(data.model().props, key)].max_indexed == data.model().count,
        value_by_key(data.model().props, data.model().eval, key, e) == Some(v),
        0 <= e < data.model().count,
    ensures
        data.property_indexes.entries@[rank_of(data.model().props, key)].has_entry(index_key(v), e),
{
    let rk = rank_of(data.model().props, key);
    assert(data.index_ok(rk));
}

} // verus!
