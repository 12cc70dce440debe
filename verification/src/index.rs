//! Secondary indexes.
//!
//! An [`IndexValue`] is the lookup key for index entries: the serialized
//! byte string of a property value, stored inline as a 128-bit integer when
//! it fits in 16 bytes (padded with zeros, read little-endian), and as the
//! byte vector itself otherwise. Two values whose byte strings collide under
//! this scheme are deliberately treated as equal: index-key equality is a
//! serialization-level equality, not a cryptographic hash.
//!
//! An [`Index`] is the per-property secondary index: an optional table from
//! index key to the set of entities whose value has that key, plus the
//! watermark `max_indexed`, the smallest entity id not yet reflected in the
//! table.

use vstd::prelude::*;

use crate::EntityId;
use crate::bytes::{le_val, le_u128, bytes_eq, copy_bytes, lemma_le_val_bound, lemma_le_val_injective, lemma_pow256_16, lemma_pow256_le};

verus! {

/// The mathematical value of an index key: either a 128-bit integer (short
/// serializations, zero-padded) or the byte string itself (long ones).
pub enum KeyView {
    Fixed(u128),
    Variable(Seq<u8>),
}

/// The index key of a serialized value.
pub open spec fn index_key(s: Seq<u8>) -> KeyView {
    if s.len() <= 16 {
        KeyView::Fixed(le_val(s) as u128)
    } else {
        KeyView::Variable(s)
    }
}

/// The lookup key for entries in an index: a serialized property value,
/// inline when it fits in 16 bytes, as a byte vector otherwise.
#[derive(PartialEq, Eq, Hash, Debug)]
pub enum IndexValue {
    Fixed(u128),
    Variable(Vec<u8>),
}

impl View for IndexValue {
    type V = KeyView;

    open spec fn view(&self) -> KeyView {
        match self {
            IndexValue::Fixed(x) => KeyView::Fixed(*x),
            IndexValue::Variable(v) => KeyView::Variable(v@),
        }
    }
}

impl IndexValue {
    /// The index key of the given serialized value.
    pub fn new(bytes: &Vec<u8>) -> (r: IndexValue)
        ensures
            r@ == index_key(bytes@),
    {
        if bytes.len() <= 16 {
            IndexValue::Fixed(le_u128(bytes))
        } else {
            IndexValue::Variable(copy_bytes(bytes))
        }
    }

    /// Structural equality of two index keys.
    pub fn key_eq(&self, other: &IndexValue) -> (r: bool)
        ensures
            r == (self@ == other@),
    {
        match (self, other) {
            (IndexValue::Fixed(a), IndexValue::Fixed(b)) => *a == *b,
            (IndexValue::Variable(a), IndexValue::Variable(b)) => bytes_eq(a, b),
            _ => false,
        }
    }

}

/// Serialized values of the same length have equal index keys exactly when
/// they are equal byte for byte: inlining a short value loses nothing.
pub proof fn lemma_index_key_same_len(s: Seq<u8>, t: Seq<u8>)
    requires
        s.len() == t.len(),
    ensures
        (index_key(s) == index_key(t)) <==> (s == t),
{
    if s.len() <= 16 {
        lemma_le_val_bound(s);
        lemma_le_val_bound(t);
        lemma_pow256_16();
        lemma_pow256_le(s.len(), 16);
        if index_key(s) == index_key(t) {
            assert(le_val(s) < 0x100000000000000000000000000000000nat);
            assert(le_val(t) < 0x100000000000000000000000000000000nat);
            assert(le_val(s) as u128 == le_val(t) as u128);
            assert(le_val(s) == le_val(t));
            lemma_le_val_injective(s, t);
        }
    }
}

/// A serialized value that fits in 16 bytes never collides with one that
/// does not: index keys on the two sides of the inline boundary differ.
pub proof fn lemma_index_key_boundary(s: Seq<u8>, t: Seq<u8>)
    requires
        s.len() <= 16,
        t.len() > 16,
    ensures
        index_key(s) != index_key(t),
{
}

/// One bucket of an index: the entities whose value has this index key.
pub struct IndexBucket {
    pub key: IndexValue,
    pub ids: Vec<EntityId>,
}

/// Whether the sequence of entity ids contains the id `e`.
pub open spec fn id_in(ids: Seq<EntityId>, e: int) -> bool {
    exists|i: int| 0 <= i < ids.len() && ids[i].0 == e
}

/// A per-property secondary index. `lookup` is `None` while the property is
/// not indexed; enabling the index sets it to an empty table, populated
/// lazily. `max_indexed` is the smallest entity id not yet reflected here.
pub struct Index {
    pub lookup: Option<Vec<IndexBucket>>,
    pub max_indexed: usize,
}

impl Index {
    /// Whether the index is enabled (its table exists).
    pub open spec fn is_enabled(self) -> bool {
        self.lookup is Some
    }

    /// The buckets of the table, empty when disabled.
    pub open spec fn buckets(self) -> Seq<IndexBucket> {
        match self.lookup {
            Some(v) => v@,
            None => Seq::empty(),
        }
    }

    /// Whether entity `e` stands in the bucket keyed `kv`.
    pub open spec fn has_entry(self, kv: KeyView, e: int) -> bool {
        self.is_enabled() && exists|b: int|
            0 <= b < self.buckets().len() && (#[trigger] self.buckets()[b]).key@ == kv && id_in(
                self.buckets()[b].ids@,
                e,
            )
    }

    /// Structural well-formedness of the table: bucket keys are distinct,
    /// no bucket is empty, and no bucket lists an entity twice.
    pub open spec fn buckets_wf(self) -> bool {
        let bs = self.buckets();
        &&& forall|b1: int, b2: int|
            0 <= b1 < b2 < bs.len() ==> (#[trigger] bs[b1]).key@ != (#[trigger] bs[b2]).key@
        &&& forall|b: int| 0 <= b < bs.len() ==> (#[trigger] bs[b]).ids@.len() > 0
        &&& forall|b: int, i1: int, i2: int|
            0 <= b < bs.len() && 0 <= i1 < i2 < bs[b].ids@.len() ==> #[trigger] bs[b].ids@[i1]
                != #[trigger] bs[b].ids@[i2]
    }

    /// A new index: disabled, nothing indexed.
    pub fn new() -> (r: Index)
        ensures
            !r.is_enabled(),
            r.max_indexed == 0,
            r.buckets() == Seq::<IndexBucket>::empty(),
            r.buckets_wf(),
    {
        Index { lookup: None, max_indexed: 0 }
    }

    /// Enables the index: gives it an empty table. Does not populate it.
    /// A no-op if the index is already enabled.
    pub fn enable(&mut self)
        ensures
            final(self).is_enabled(),
            final(self).max_indexed == old(self).max_indexed,
            old(self).is_enabled() ==> *final(self) == *old(self),
            !old(self).is_enabled() ==> final(self).buckets() == Seq::<IndexBucket>::empty(),
    {
        if self.lookup.is_none() {
            self.lookup = Some(Vec::new());
        }
    }

    /// The position of the bucket keyed like `iv`, if the table has one.
    pub fn find_bucket(&self, iv: &IndexValue) -> (r: Option<usize>)
        requires
            self.is_enabled(),
        ensures
            match r {
                Some(b) => b < self.buckets().len() && self.buckets()[b as int].key@ == iv@,
                None => forall|b: int|
                    0 <= b < self.buckets().len() ==> (#[trigger] self.buckets()[b]).key@ != iv@,
            },
    {
        let bs = match &self.lookup {
            Some(v) => v,
            None => {
                return None;
            },
        };
        let n = bs.len();
        let mut b: usize = 0;
        while b < n
            invariant
                n == bs@.len(),
                bs@ == self.buckets(),
                0 <= b <= n,
                forall|j: int| 0 <= j < b ==> (#[trigger] bs@[j]).key@ != iv@,
            decreases n - b,
        {
            if bs[b].key.key_eq(iv) {
                return Some(b);
            }
            b += 1;
        }
        None
    }

    /// The number of entities in bucket `b`.
    pub fn bucket_len(&self, b: usize) -> (r: usize)
        requires
            b < self.buckets().len(),
        ensures
            r == self.buckets()[b as int].ids@.len(),
    {
        match &self.lookup {
            Some(v) => v[b].ids.len(),
            None => 0,
        }
    }

    /// A copy of the entity ids in bucket `b`.
    pub fn bucket_ids(&self, b: usize) -> (r: Vec<EntityId>)
        requires
            b < self.buckets().len(),
        ensures
            r@ == self.buckets()[b as int].ids@,
    {
        let bs = match &self.lookup {
            Some(v) => v,
            None => {
                return Vec::new();
            },
        };
        let ids = &bs[b].ids;
        let n = ids.len();
        let mut out: Vec<EntityId> = Vec::new();
        let mut i: usize = 0;
        while i < n
            invariant
                n == ids@.len(),
                0 <= i <= n,
                out@ == ids@.subrange(0, i as int),
            decreases n - i,
        {
            out.push(ids[i]);
            proof {
                assert(out@ =~= ids@.subrange(0, i + 1));
            }
            i += 1;
        }
        proof {
            assert(out@ =~= ids@);
        }
        out
    }

    /// Whether entity `e` stands in the bucket keyed like `iv`.
    pub fn contains_entry(&self, iv: &IndexValue, e: EntityId) -> (r: bool)
        requires
            self.buckets_wf(),
        ensures
            r == self.has_entry(iv@, e.0 as int),
    {
        if self.lookup.is_none() {
            return false;
        }
        match self.find_bucket(iv) {
            None => false,
            Some(b) => {
                let bs = match &self.lookup {
                    Some(v) => v,
                    None => {
                        return false;
                    },
                };
                let ids = &bs[b].ids;
                let n = ids.len();
                let mut i: usize = 0;
                while i < n
                    invariant
                        self.buckets_wf(),
                        b < self.buckets().len(),
                        self.buckets()[b as int].key@ == iv@,
                        ids@ == self.buckets()[b as int].ids@,
                        n == ids@.len(),
                        0 <= i <= n,
                        forall|j: int| 0 <= j < i ==> (#[trigger] ids@[j]).0 != e.0,
                    decreases n - i,
                {
                    if ids[i].0 == e.0 {
                        proof {
                            assert(id_in(ids@, e.0 as int)) by {
                                assert(ids@[i as int].0 == e.0);
                            }
                            assert(self.buckets()[b as int].key@ == iv@);
                        }
                        return true;
                    }
                    i += 1;
                }
                proof {
                    assert(!self.has_entry(iv@, e.0 as int)) by {
                        if self.has_entry(iv@, e.0 as int) {
                            let b2 = choose|b2: int|
                                0 <= b2 < self.buckets().len() && (#[trigger] self.buckets()[b2]).key@
                                    == iv@ && id_in(self.buckets()[b2].ids@, e.0 as int);
                            assert(b2 == b);
                            let i2 = choose|i2: int|
                                0 <= i2 < ids@.len() && ids@[i2].0 == e.0 as int;
                            assert(ids@[i2].0 != e.0);
                        }
                    }
                }
                false
            },
        }
    }

    /// Adds `entity` to the bucket for the given index key, creating the
    /// bucket if absent. A no-op if the entry is already present.
    pub fn insert(&mut self, entry: (EntityId, IndexValue))
        requires
            old(self).is_enabled(),
            old(self).buckets_wf(),
        ensures
            final(self).is_enabled(),
            final(self).buckets_wf(),
            final(self).max_indexed == old(self).max_indexed,
            forall|kv: KeyView, e: int|
                #[trigger] final(self).has_entry(kv, e) == (old(self).has_entry(kv, e) || (kv
                    == entry.1@ && e == entry.0.0 as int)),
    {
        let (id, iv) = entry;
        if self.contains_entry(&iv, id) {
            return;
        }
        let found = self.find_bucket(&iv);
        let ghost old_self = *self;
        match found {
            Some(b) => {
                match &mut self.lookup {
                    Some(v) => {
                        let bucket = &mut v[b];
                        bucket.ids.push(id);
                    },
                    None => {},
                }
                proof {
                    let obs = old_self.buckets();
                    let nbs = self.buckets();
                    assert(nbs.len() == obs.len());
                    assert(forall|j: int|
                        0 <= j < nbs.len() && j != b ==> nbs[j] == obs[j]);
                    assert(nbs[b as int].key == obs[b as int].key);
                    assert(nbs[b as int].ids@ == obs[b as int].ids@.push(id));
                    assert(!id_in(obs[b as int].ids@, id.0 as int)) by {
                        if id_in(obs[b as int].ids@, id.0 as int) {
                            assert(old_self.has_entry(iv@, id.0 as int));
                        }
                    }
                    assert(final(self).buckets_wf()) by {
                        assert(forall|i1: int|
                            0 <= i1 < obs[b as int].ids@.len() ==> (#[trigger] obs[b as int].ids@[i1]).0
                                != id.0);
                    }
                    assert forall|kv: KeyView, e: int|
                        #[trigger] final(self).has_entry(kv, e) == (old_self.has_entry(kv, e) || (kv
                            == iv@ && e == id.0 as int)) by {
                        if final(self).has_entry(kv, e) {
                            let b2 = choose|b2: int|
                                0 <= b2 < nbs.len() && (#[trigger] nbs[b2]).key@ == kv && id_in(
                                    nbs[b2].ids@,
                                    e,
                                );
                            if b2 == b {
                                let i2 = choose|i2: int|
                                    0 <= i2 < nbs[b2].ids@.len() && nbs[b2].ids@[i2].0 == e;
                                if i2 < obs[b as int].ids@.len() {
                                    assert(id_in(obs[b as int].ids@, e));
                                    assert(old_self.has_entry(kv, e));
                                } else {
                                    assert(nbs[b2].ids@[i2] == id);
                                }
                            } else {
                                assert(old_self.has_entry(kv, e)) by {
                                    assert(obs[b2].key@ == kv && id_in(obs[b2].ids@, e));
                                }
                            }
                        }
                        if old_self.has_entry(kv, e) {
                            let b2 = choose|b2: int|
                                0 <= b2 < obs.len() && (#[trigger] obs[b2]).key@ == kv && id_in(
                                    obs[b2].ids@,
                                    e,
                                );
                            if b2 == b {
                                let i2 = choose|i2: int|
                                    0 <= i2 < obs[b2].ids@.len() && obs[b2].ids@[i2].0 == e;
                                assert(nbs[b2].ids@[i2].0 == e);
                                assert(final(self).has_entry(kv, e));
                            } else {
                                assert(nbs[b2].key@ == kv && id_in(nbs[b2].ids@, e));
                                assert(final(self).has_entry(kv, e));
                            }
                        }
                        if kv == iv@ && e == id.0 as int {
                            assert(nbs[b as int].ids@[obs[b as int].ids@.len() as int] == id);
                            assert(id_in(nbs[b as int].ids@, e));
                            assert(final(self).has_entry(kv, e));
                        }
                    }
                }
            },
            None => {
                let mut ids: Vec<EntityId> = Vec::new();
                ids.push(id);
                let nb = IndexBucket { key: iv, ids };
                let ghost nbg = nb;
                match &mut self.lookup {
                    Some(v) => {
                        v.push(nb);
                    },
                    None => {},
                }
                proof {
                    let obs = old_self.buckets();
                    let nbs = self.buckets();
                    assert(nbs == obs.push(nbg));
                    assert(nbs[obs.len() as int] == nbg);
                    assert(forall|j: int| 0 <= j < obs.len() ==> nbs[j] == obs[j]);
                    assert(final(self).buckets_wf()) by {
                        assert(forall|j: int|
                            0 <= j < obs.len() ==> (#[trigger] obs[j]).key@ != nbg.key@);
                        assert(nbg.ids@.len() == 1);
                    }
                    assert forall|kv: KeyView, e: int|
                        #[trigger] final(self).has_entry(kv, e) == (old_self.has_entry(kv, e) || (kv
                            == nbg.key@ && e == id.0 as int)) by {
                        if final(self).has_entry(kv, e) {
                            let b2 = choose|b2: int|
                                0 <= b2 < nbs.len() && (#[trigger] nbs[b2]).key@ == kv && id_in(
                                    nbs[b2].ids@,
                                    e,
                                );
                            if b2 == obs.len() {
                                let i2 = choose|i2: int|
                                    0 <= i2 < nbg.ids@.len() && nbg.ids@[i2].0 == e;
                                assert(nbg.ids@[i2] == id);
                            } else {
                                assert(obs[b2].key@ == kv && id_in(obs[b2].ids@, e));
                                assert(old_self.has_entry(kv, e));
                            }
                        }
                        if old_self.has_entry(kv, e) {
                            let b2 = choose|b2: int|
                                0 <= b2 < obs.len() && (#[trigger] obs[b2]).key@ == kv && id_in(
                                    obs[b2].ids@,
                                    e,
                                );
                            assert(nbs[b2].key@ == kv && id_in(nbs[b2].ids@, e));
                            assert(final(self).has_entry(kv, e));
                        }
                        if kv == nbg.key@ && e == id.0 as int {
                            assert(nbg.ids@[0].0 == e);
                            assert(id_in(nbg.ids@, e));
                            assert(nbs[obs.len() as int].key@ == kv);
                            assert(final(self).has_entry(kv, e));
                        }
                    }
                }
            },
        }
    }

    /// Removes `entity` from the bucket for the given index key, dropping
    /// the bucket if it becomes empty. A no-op if the entry is absent.
    pub fn remove_entry(&mut self, entity: EntityId, iv: &IndexValue)
        requires
            old(self).is_enabled(),
            old(self).buckets_wf(),
        ensures
            final(self).is_enabled(),
            final(self).buckets_wf(),
            final(self).max_indexed == old(self).max_indexed,
            forall|kv: KeyView, e: int|
                #[trigger] final(self).has_entry(kv, e) == (old(self).has_entry(kv, e) && !(kv
                    == iv@ && e == entity.0 as int)),
    {
        let found = self.find_bucket(iv);
        let b = match found {
            Some(b) => b,
            None => {
                proof {
                    assert forall|kv: KeyView, e: int|
                        #[trigger] final(self).has_entry(kv, e) == (old(self).has_entry(kv, e)
                            && !(kv == iv@ && e == entity.0 as int)) by {
                        if old(self).has_entry(kv, e) && kv == iv@ {
                            let b2 = choose|b2: int|
                                0 <= b2 < old(self).buckets().len() && (#[trigger] old(
                                    self,
                                ).buckets()[b2]).key@ == kv && id_in(old(self).buckets()[b2].ids@, e);
                        }
                    }
                }
                return ;
            },
        };
        // Position of the entity within the bucket, if present.
        let pos_opt = {
            let bs = match &self.lookup {
                Some(v) => v,
                None => {
                    return ;
                },
            };
            let ids = &bs[b].ids;
            let n = ids.len();
            let mut i: usize = 0;
            let mut r: Option<usize> = None;
            while i < n
                invariant
                    n == ids@.len(),
                    0 <= i <= n,
                    match r {
                        Some(p) => p < n && ids@[p as int].0 == entity.0,
                        None => forall|j: int| 0 <= j < i ==> (#[trigger] ids@[j]).0 != entity.0,
                    },
                decreases n - i,
            {
                if r.is_none() && ids[i].0 == entity.0 {
                    r = Some(i);
                }
                i += 1;
            }
            r
        };
        let ghost old_self = *self;
        match pos_opt {
            None => {
                proof {
                    let obs = old_self.buckets();
                    assert forall|kv: KeyView, e: int|
                        #[trigger] final(self).has_entry(kv, e) == (old_self.has_entry(kv, e)
                            && !(kv == iv@ && e == entity.0 as int)) by {
                        if old_self.has_entry(kv, e) && kv == iv@ && e == entity.0 as int {
                            let b2 = choose|b2: int|
                                0 <= b2 < obs.len() && (#[trigger] obs[b2]).key@ == kv && id_in(
                                    obs[b2].ids@,
                                    e,
                                );
                            assert(b2 == b);
                            let i2 = choose|i2: int|
                                0 <= i2 < obs[b2].ids@.len() && obs[b2].ids@[i2].0 == e;
                        }
                    }
                }
            },
            Some(pos) => {
                let mut drop_bucket = false;
                match &mut self.lookup {
                    Some(v) => {
                        let bucket = &mut v[b];
                        bucket.ids.swap_remove(pos);
                        if bucket.ids.len() == 0 {
                            drop_bucket = true;
                        }
                    },
                    None => {},
                }
                let ghost mid = *self;
                proof {
                    let obs = old_self.buckets();
                    let shrunk = obs[b as int].ids@.update(pos as int, obs[b as int].ids@.last()).drop_last();
                    assert(mid.buckets().len() == obs.len());
                    assert(forall|j: int|
                        0 <= j < obs.len() && j != b ==> mid.buckets()[j] == obs[j]);
                    assert(mid.buckets()[b as int].key == obs[b as int].key);
                    assert(mid.buckets()[b as int].ids@ == shrunk);
                }
                if drop_bucket {
                    match &mut self.lookup {
                        Some(v) => {
                            v.swap_remove(b);
                        },
                        None => {},
                    }
                    proof {
                        let obs = old_self.buckets();
                        assert(self.buckets() =~= obs.update(b as int, obs.last()).drop_last()) by {
                            assert(self.buckets() == mid.buckets().update(
                                b as int,
                                mid.buckets().last(),
                            ).drop_last());
                        }
                    }
                }
                proof {
                    self.lemma_remove_entry_post(old_self, b as int, pos as int, entity, iv@);
                }
            },
        }
    }

    /// What removing position `pos` from bucket `b` (and dropping the bucket
    /// if it emptied) does to the entry set.
    proof fn lemma_remove_entry_post(
        self,
        old_self: Index,
        b: int,
        pos: int,
        entity: EntityId,
        kv0: KeyView,
    )
        requires
            old_self.is_enabled(),
            old_self.buckets_wf(),
            0 <= b < old_self.buckets().len(),
            old_self.buckets()[b].key@ == kv0,
            0 <= pos < old_self.buckets()[b].ids@.len(),
            old_self.buckets()[b].ids@[pos].0 == entity.0,
            self.is_enabled(),
            self.max_indexed == old_self.max_indexed,
            ({
                let obs = old_self.buckets();
                let shrunk = obs[b].ids@.update(pos, obs[b].ids@.last()).drop_last();
                if shrunk.len() == 0 {
                    self.buckets() == obs.update(b, obs.last()).drop_last()
                        && obs[b].ids@.len() == 1
                } else {
                    self.buckets().len() == obs.len() && (forall|j: int|
                        0 <= j < obs.len() && j != b ==> self.buckets()[j] == obs[j])
                        && self.buckets()[b].key == obs[b].key && self.buckets()[b].ids@ == shrunk
                }
            }),
        ensures
            self.buckets_wf(),
            forall|kv: KeyView, e: int|
                #[trigger] self.has_entry(kv, e) == (old_self.has_entry(kv, e) && !(kv == kv0 && e
                    == entity.0 as int)),
    {
        let obs = old_self.buckets();
        let nbs = self.buckets();
        let oids = obs[b].ids@;
        let shrunk = oids.update(pos, oids.last()).drop_last();
        // The shrunk bucket holds exactly the old ids minus the removed one.
        assert forall|e: int| id_in(shrunk, e) == (id_in(oids, e) && e != entity.0 as int) by {
            if id_in(shrunk, e) {
                let i2 = choose|i2: int| 0 <= i2 < shrunk.len() && shrunk[i2].0 == e;
                if i2 == pos {
                    assert(shrunk[i2] == oids.last());
                    assert(id_in(oids, e)) by {
                        assert(oids[oids.len() - 1].0 == e);
                    }
                    assert(pos < oids.len() - 1);
                    assert(oids[pos] != oids[oids.len() - 1]);
                    assert(e != entity.0 as int);
                } else {
                    assert(shrunk[i2] == oids[i2]);
                    assert(id_in(oids, e));
                    assert(oids[i2] != oids[pos] || i2 == pos);
                    assert(e != entity.0 as int) by {
                        if e == entity.0 as int {
                            assert(oids[i2].0 == oids[pos].0);
                            if i2 < pos {
                                assert(oids[i2] != oids[pos]);
                            } else {
                                assert(oids[pos] != oids[i2]);
                            }
                        }
                    }
                }
            }
            if id_in(oids, e) && e != entity.0 as int {
                let i2 = choose|i2: int| 0 <= i2 < oids.len() && oids[i2].0 == e;
                assert(i2 != pos);
                if i2 == oids.len() - 1 {
                    assert(pos < oids.len() - 1);
                    assert(shrunk[pos].0 == e);
                    assert(id_in(shrunk, e));
                } else {
                    assert(shrunk[i2].0 == e);
                    assert(id_in(shrunk, e));
                }
            }
        }
        if shrunk.len() == 0 {
            // The bucket emptied and was dropped.
            assert(forall|j: int|
                0 <= j < nbs.len() ==> #[trigger] nbs[j] == if j == b {
                    obs[obs.len() - 1]
                } else {
                    obs[j]
                });
            assert(self.buckets_wf()) by {
                assert forall|b1: int, b2: int| 0 <= b1 < b2 < nbs.len() implies (
                #[trigger] nbs[b1]).key@ != (#[trigger] nbs[b2]).key@ by {
                    let a1: int = if b1 == b {
                        obs.len() - 1
                    } else {
                        b1
                    };
                    let a2: int = if b2 == b {
                        obs.len() - 1
                    } else {
                        b2
                    };
                    assert(nbs[b1] == obs[a1]);
                    assert(nbs[b2] == obs[a2]);
                    assert(a1 != a2);
                    if a1 < a2 {
                        assert(obs[a1].key@ != obs[a2].key@);
                    } else {
                        assert(obs[a2].key@ != obs[a1].key@);
                    }
                }
                assert forall|b1: int| 0 <= b1 < nbs.len() implies (#[trigger] nbs[b1]).ids@.len()
                    > 0 by {
                    let a1: int = if b1 == b {
                        obs.len() - 1
                    } else {
                        b1
                    };
                    assert(nbs[b1] == obs[a1]);
                }
                assert forall|b1: int, i1: int, i2: int|
                    0 <= b1 < nbs.len() && 0 <= i1 < i2 < nbs[b1].ids@.len() implies #[trigger] nbs[b1].ids@[i1]
                    != #[trigger] nbs[b1].ids@[i2] by {
                    let a1: int = if b1 == b {
                        obs.len() - 1
                    } else {
                        b1
                    };
                    assert(nbs[b1] == obs[a1]);
                }
            }
            assert forall|kv: KeyView, e: int|
                #[trigger] self.has_entry(kv, e) == (old_self.has_entry(kv, e) && !(kv == kv0 && e
                    == entity.0 as int)) by {
                if self.has_entry(kv, e) {
                    let b2 = choose|b2: int|
                        0 <= b2 < nbs.len() && (#[trigger] nbs[b2]).key@ == kv && id_in(
                            nbs[b2].ids@,
                            e,
                        );
                    let ob2: int = if b2 == b { obs.len() - 1 } else { b2 };
                    assert(nbs[b2] == obs[ob2]);
                    assert(old_self.has_entry(kv, e));
                    assert(ob2 != b) by {
                        if b2 == b {
                            assert(b < obs.len() - 1 || nbs.len() <= b);
                        }
                    }
                    assert(!(kv == kv0 && e == entity.0 as int)) by {
                        if kv == kv0 {
                            assert(obs[ob2].key@ == obs[b].key@);
                            assert(ob2 == b);
                        }
                    }
                }
                if old_self.has_entry(kv, e) && !(kv == kv0 && e == entity.0 as int) {
                    let b2 = choose|b2: int|
                        0 <= b2 < obs.len() && (#[trigger] obs[b2]).key@ == kv && id_in(
                            obs[b2].ids@,
                            e,
                        );
                    assert(b2 != b) by {
                        if b2 == b {
                            assert(kv == kv0);
                            assert(oids.len() == 1);
                            let i2 = choose|i2: int| 0 <= i2 < oids.len() && oids[i2].0 == e;
                            assert(i2 == pos);
                        }
                    }
                    if b2 == obs.len() - 1 {
                        if b < nbs.len() {
                            assert(nbs[b] == obs[b2]);
                            assert(id_in(nbs[b].ids@, e));
                            assert(self.has_entry(kv, e));
                        } else {
                            assert(b == obs.len() - 1);
                        }
                    } else {
                        assert(nbs[b2] == obs[b2]);
                        assert(self.has_entry(kv, e));
                    }
                }
            }
        } else {
            // The bucket shrank in place.
            assert forall|i1: int, i2: int|
                0 <= i1 < i2 < shrunk.len() implies #[trigger] shrunk[i1]
                != #[trigger] shrunk[i2] by {
                let a1: int = if i1 == pos {
                    oids.len() - 1
                } else {
                    i1
                };
                let a2: int = if i2 == pos {
                    oids.len() - 1
                } else {
                    i2
                };
                assert(shrunk[i1] == oids[a1]);
                assert(shrunk[i2] == oids[a2]);
                assert(a1 != a2);
                if a1 < a2 {
                    assert(oids[a1] != oids[a2]);
                } else {
                    assert(oids[a2] != oids[a1]);
                }
            }
            assert(self.buckets_wf()) by {
                assert forall|b1: int, b2: int| 0 <= b1 < b2 < nbs.len() implies (
                #[trigger] nbs[b1]).key@ != (#[trigger] nbs[b2]).key@ by {
                    assert(nbs[b1].key@ == obs[b1].key@);
                    assert(nbs[b2].key@ == obs[b2].key@);
                }
                assert forall|b1: int| 0 <= b1 < nbs.len() implies (#[trigger] nbs[b1]).ids@.len()
                    > 0 by {
                    if b1 != b {
                        assert(nbs[b1] == obs[b1]);
                    } else {
                        assert(nbs[b1].ids@ == shrunk);
                    }
                }
                assert forall|b1: int, i1: int, i2: int|
                    0 <= b1 < nbs.len() && 0 <= i1 < i2 < nbs[b1].ids@.len() implies #[trigger] nbs[b1].ids@[i1]
                    != #[trigger] nbs[b1].ids@[i2] by {
                    if b1 != b {
                        assert(nbs[b1] == obs[b1]);
                    } else {
                        assert(nbs[b1].ids@ == shrunk);
                        assert(shrunk[i1] != shrunk[i2]);
                    }
                }
            }
            assert forall|kv: KeyView, e: int|
                #[trigger] self.has_entry(kv, e) == (old_self.has_entry(kv, e) && !(kv == kv0 && e
                    == entity.0 as int)) by {
                if self.has_entry(kv, e) {
                    let b2 = choose|b2: int|
                        0 <= b2 < nbs.len() && (#[trigger] nbs[b2]).key@ == kv && id_in(
                            nbs[b2].ids@,
                            e,
                        );
                    if b2 == b {
                        assert(id_in(oids, e) && e != entity.0 as int);
                        assert(old_self.has_entry(kv, e));
                        assert(!(kv == kv0 && e == entity.0 as int));
                    } else {
                        assert(nbs[b2] == obs[b2]);
                        assert(old_self.has_entry(kv, e));
                        assert(!(kv == kv0)) by {
                            if kv == kv0 {
                                assert(obs[b2].key@ == obs[b].key@);
                            }
                        }
                    }
                }
                if old_self.has_entry(kv, e) && !(kv == kv0 && e == entity.0 as int) {
                    let b2 = choose|b2: int|
                        0 <= b2 < obs.len() && (#[trigger] obs[b2]).key@ == kv && id_in(
                            obs[b2].ids@,
                            e,
                        );
                    if b2 == b {
                        assert(kv == kv0);
                        assert(e != entity.0 as int);
                        assert(id_in(shrunk, e));
                        assert(nbs[b].key@ == kv);
                        assert(self.has_entry(kv, e));
                    } else {
                        assert(nbs[b2] == obs[b2]);
                        assert(self.has_entry(kv, e));
                    }
                }
            }
        }
    }
}

/// The per-property indexes, one per registered property, in rank order:
/// the container that the entity table keeps its `Index` values in.
pub struct IndexMap {
    pub entries: Vec<Index>,
}

impl IndexMap {
    /// An empty container.
    pub fn new() -> (r: IndexMap)
        ensures
            r.entries@ == Seq::<Index>::empty(),
    {
        IndexMap { entries: Vec::new() }
    }

    /// Appends the index of the next registered property.
    pub fn insert(&mut self, index: Index)
        ensures
            final(self).entries@ == old(self).entries@.push(index),
    {
        self.entries.push(index);
    }

    /// Whether a property of rank `r` has an index slot.
    pub fn contains_key(&self, r: usize) -> (b: bool)
        ensures
            b == (r < self.entries@.len()),
    {
        r < self.entries.len()
    }

    /// The index of the property ranked `r`, if that rank is registered.
    pub fn get(&self, r: usize) -> (idx: Option<&Index>)
        ensures
            match idx {
                Some(ix) => r < self.entries@.len() && *ix == self.entries@[r as int],
                None => r >= self.entries@.len(),
            },
    {
        if r < self.entries.len() {
            Some(&self.entries[r])
        } else {
            None
        }
    }

    /// Exclusive access to the index of the property ranked `r`.
    pub fn get_mut(&mut self, r: usize) -> (idx: &mut Index)
        requires
            r < old(self).entries@.len(),
        ensures
            *idx == old(self).entries@[r as int],
            final(self).entries@ == old(self).entries@.update(r as int, *final(idx)),
    {
        &mut self.entries[r]
    }
}

} // verus!
