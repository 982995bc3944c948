//! The store: one sparse table per component type, the per-entity membership
//! index that mirrors them, and the lazily rebuilt query cache.
use vstd::prelude::*;
use vstd::std_specs::iter::IteratorSpec;
use vstd::std_specs::cmp::OrdSpec;
use std::collections::BTreeMap;
use crate::{ComponentType, EntityId};
use crate::bitset::{ComponentTypeSet, words_for};
use crate::model::{
    DirtyFlags, EcsModel, ascending, in_all, is_join_result, join_scan, lemma_cache_sound_step, lemma_join_scan,
    lemma_marked_empty, lemma_marked_union, lemma_prefix_push, marked, stale_of, deref_entry,
};
use crate::schema::{MAX_TYPES, Schema, valid_queries};
use crate::table::map_get_mut;

verus! {

broadcast use vstd::std_specs::btree::group_btree_axioms, vstd::laws_cmp::group_laws_cmp;

/// The entity/component store, over payloads of type `V`.
pub struct EcsCtx<V> {
    schema: Schema,
    tables: Vec<BTreeMap<EntityId, Option<V>>>,
    tracker: BTreeMap<EntityId, ComponentTypeSet>,
    dirty: Vec<Vec<DirtyFlags>>,
    cache: Vec<Vec<EntityId>>,
}

impl<V> View for EcsCtx<V> {
    type V = EcsModel<V>;

    closed spec fn view(&self) -> EcsModel<V> {
        EcsModel {
            is_flag: self.schema.flags(),
            queries: self.schema.query_list(),
            tables: Seq::new(self.tables@.len(), |c: int| self.tables@[c]@),
            dirty: self.dirty@.map_values(|d: Vec<DirtyFlags>| d@),
            cache: self.cache@.map_values(|r: Vec<EntityId>| r@),
        }
    }
}

impl<V> EcsCtx<V> {
    /// The membership index: for each entity that holds anything, the set of
    /// component types it holds.
    pub closed spec fn tracked_types(&self) -> Map<EntityId, Set<nat>> {
        Map::new(|e: EntityId| self.tracker@.contains_key(e), |e: EntityId| self.tracker@[e]@)
    }

    closed spec fn dirty_shaped(&self) -> bool {
        &&& self.dirty@.len() == self.schema.query_list().len()
        &&& forall|q: int| 0 <= q < self.dirty@.len() ==> (#[trigger] self.dirty@[q])@.len() == self.schema.query_list()[q].len()
    }

    /// The store's invariant: tables, dirty flags and caches match the schema,
    /// each payload matches its component's kind, the membership index holds
    /// exactly the entities with a component, each with exactly the types it
    /// holds, and every fresh cache holds only current join rows.
    pub closed spec fn wf(&self) -> bool {
        self.wf_core() && self.cache_tracked()
    }

    /// The membership index credits `e` with every component type of `cs`.
    closed spec fn tracks_all(&self, cs: Seq<usize>, e: EntityId) -> bool {
        &&& self.tracker@.contains_key(e)
        &&& forall|k: int| 0 <= k < cs.len() ==> #[trigger] self.tracker@[e]@.contains(cs[k] as nat)
    }

    /// Every fresh cache is ascending and lists only entities that the
    /// membership index credits with every required component.
    closed spec fn cache_tracked(&self) -> bool {
        forall|q: int|
            0 <= q < self.schema.query_list().len() && !stale_of(self.schema.flags(), self.schema.query_list()[q], self.dirty@[q]@) ==> {
                &&& ascending(self.cache@[q]@)
                &&& forall|i: int| 0 <= i < self.cache@[q]@.len() ==> self.tracks_all(self.schema.query_list()[q], #[trigger] self.cache@[q]@[i])
            }
    }

    /// Under the other parts of the invariant, the cache holds current join
    /// rows exactly when the membership index says so.
    proof fn lemma_cache_forms(&self)
        requires
            self.wf_core(),
        ensures
            self.cache_tracked() <==> self@.cache_sound(),
    {
        let m = self@;
        let n = self.tables@.len();
        assert forall|q: int| 0 <= q < m.queries.len() implies #[trigger] m.dirty[q] == self.dirty@[q]@ && m.cache[q]
            == self.cache@[q]@ && m.stale(q) == stale_of(self.schema.flags(), self.schema.query_list()[q], self.dirty@[q]@) by {
        }
        assert forall|q: int, e: EntityId| 0 <= q < m.queries.len() implies (in_all(m.tables, m.queries[q], e)
            <==> #[trigger] self.tracks_all(m.queries[q], e)) by {
            let cs = m.queries[q];
            assert(cs.len() > 0);
            if in_all(m.tables, cs, e) {
                assert(m.tables[cs[0] as int].contains_key(e));
                assert(cs[0] < n);
                assert(self.tables@[cs[0] as int]@.contains_key(e));
                assert forall|k: int| 0 <= k < cs.len() implies #[trigger] self.tracker@[e]@.contains(cs[k] as nat) by {
                    assert(m.tables[cs[k] as int].contains_key(e));
                    assert(cs[k] < n);
                }
            }
            if self.tracks_all(cs, e) {
                assert forall|k: int| 0 <= k < cs.len() implies (#[trigger] m.tables[cs[k] as int]).contains_key(e) by {
                    assert(self.tracker@[e]@.contains(cs[k] as nat));
                }
            }
        }
        if self.cache_tracked() {
            assert forall|q: int| 0 <= q < m.queries.len() && !m.stale(q) implies {
                &&& ascending(m.cache[q])
                &&& forall|i: int| 0 <= i < m.cache[q].len() ==> in_all(m.tables, m.queries[q], #[trigger] m.cache[q][i])
            } by {
                assert forall|i: int| 0 <= i < m.cache[q].len() implies in_all(m.tables, m.queries[q], #[trigger] m.cache[q][i]) by {
                    assert(self.tracks_all(m.queries[q], self.cache@[q]@[i]));
                }
            }
        }
        if m.cache_sound() {
            assert forall|q: int|
                0 <= q < self.schema.query_list().len() && !stale_of(self.schema.flags(), self.schema.query_list()[q], self.dirty@[q]@) implies {
                &&& ascending(self.cache@[q]@)
                &&& forall|i: int| 0 <= i < self.cache@[q]@.len() ==> self.tracks_all(self.schema.query_list()[q], #[trigger] self.cache@[q]@[i])
            } by {
                assert(!m.stale(q));
                assert forall|i: int| 0 <= i < self.cache@[q]@.len() implies self.tracks_all(self.schema.query_list()[q], #[trigger] self.cache@[q]@[i]) by {
                    assert(in_all(m.tables, m.queries[q], m.cache[q][i]));
                }
            }
        }
    }

    closed spec fn wf_core(&self) -> bool {
        let n = self.tables@.len();
        &&& self.schema.valid()
        &&& self.schema.flags().len() == n
        &&& self.dirty_shaped()
        &&& self.cache@.len() == self.schema.query_list().len()
        &&& forall|c: int, e: EntityId|
            0 <= c < n && #[trigger] self.tables@[c]@.contains_key(e) ==> (self.tables@[c]@[e] is Some
                <==> !self.schema.flags()[c])
        &&& forall|e: EntityId| #[trigger]
            self.tracker@.contains_key(e) ==> {
                &&& forall|c: nat| #[trigger] self.tracker@[e]@.contains(c) <==> c < n && self.tables@[c as int]@.contains_key(e)
                &&& self.tracker@[e]@ != Set::<nat>::empty()
                &&& self.tracker@[e].capacity() == words_for(n as nat) * 64
            }
        &&& forall|e: EntityId, c: int|
            !self.tracker@.contains_key(e) && 0 <= c < n ==> !(#[trigger] self.tables@[c]@.contains_key(e))
    }

    /// Every entity and component type: the entity is in the component's
    /// table exactly when the membership index lists the type for it, and the
    /// index lists only entities that hold something.
    pub proof fn lemma_tracker_agrees_with_tables(&self, c: nat, e: EntityId)
        requires
            self.wf(),
            c < self@.tables.len(),
        ensures
            self@.has(c as int, e) == (self.tracked_types().contains_key(e) && self.tracked_types()[e].contains(c)),
            self.tracked_types().contains_key(e) ==> self.tracked_types()[e] != Set::<nat>::empty(),
    {
    }

    /// The membership index lists for `e` exactly the types it holds.
    proof fn lemma_tracked_is_entity_types(&self, e: EntityId)
        requires
            self.wf(),
        ensures
            self.tracker@.contains_key(e) ==> self.tracker@[e]@ == self@.entity_types(e),
            !self.tracker@.contains_key(e) ==> self@.entity_types(e) == Set::<nat>::empty(),
    {
        if self.tracker@.contains_key(e) {
            assert(self.tracker@[e]@ =~= self@.entity_types(e));
        } else {
            assert(self@.entity_types(e) =~= Set::<nat>::empty());
        }
    }

    /// The model's sequences agree in length with the schema, its queries
    /// name only declared component types, and its caches are sound.
    pub proof fn lemma_shape(&self)
        requires
            self.wf(),
        ensures
            self@.tables.len() == self@.is_flag.len(),
            self@.cache.len() == self@.queries.len(),
            self@.dirty.len() == self@.queries.len(),
            forall|q: int| 0 <= q < self@.queries.len() ==> (#[trigger] self@.dirty[q]).len() == self@.queries[q].len(),
            self@.tables.len() <= MAX_TYPES,
            valid_queries(self@.tables.len(), self@.queries),
            self@.cache_sound(),
    {
        self.lemma_cache_forms();
    }

    /// An empty store for `schema`.
    pub fn new(schema: Schema) -> (r: Self)
        requires
            schema.valid(),
        ensures
            r.wf(),
            r@.is_flag == schema.flags(),
            r@.queries == schema.query_list(),
            r@.tables.len() == schema.flags().len(),
            forall|c: int| 0 <= c < r@.tables.len() ==> #[trigger] r@.tables[c] == Map::<EntityId, Option<V>>::empty(),
            forall|q: int| 0 <= q < r@.queries.len() ==> #[trigger] r@.cache[q] == Seq::<EntityId>::empty(),
            forall|q: int, k: int|
                0 <= q < r@.queries.len() && 0 <= k < r@.queries[q].len() ==> #[trigger] r@.dirty[q][k] == (DirtyFlags {
                    insert: false,
                    remove: false,
                }),
    {
        let n = schema.num_components();
        let nq = schema.num_queries();
        let mut tables: Vec<BTreeMap<EntityId, Option<V>>> = Vec::new();
        while tables.len() < n
            invariant
                tables@.len() <= n,
                forall|c: int| 0 <= c < tables@.len() ==> (#[trigger] tables@[c])@ == Map::<EntityId, Option<V>>::empty(),
            decreases n - tables@.len(),
        {
            tables.push(BTreeMap::new());
        }
        let mut cache: Vec<Vec<EntityId>> = Vec::new();
        let mut dirty: Vec<Vec<DirtyFlags>> = Vec::new();
        let mut q: usize = 0;
        while q < nq
            invariant
                nq == schema.query_list().len(),
                q <= nq,
                cache@.len() == q,
                dirty@.len() == q,
                forall|j: int| 0 <= j < q ==> (#[trigger] cache@[j])@.len() == 0,
                forall|j: int| 0 <= j < q ==> (#[trigger] dirty@[j])@.len() == schema.query_list()[j].len(),
                forall|j: int, k: int|
                    0 <= j < q && 0 <= k < dirty@[j]@.len() ==> #[trigger] dirty@[j]@[k] == (DirtyFlags {
                        insert: false,
                        remove: false,
                    }),
            decreases nq - q,
        {
            let len = schema.query(q).len();
            let mut row: Vec<DirtyFlags> = Vec::new();
            while row.len() < len
                invariant
                    row@.len() <= len,
                    forall|k: int| 0 <= k < row@.len() ==> #[trigger] row@[k] == (DirtyFlags { insert: false, remove: false }),
                decreases len - row@.len(),
            {
                row.push(DirtyFlags { insert: false, remove: false });
            }
            dirty.push(row);
            cache.push(Vec::new());
            q = q + 1;
        }
        let r = EcsCtx { schema, tables, tracker: BTreeMap::new(), dirty, cache };
        proof {
            assert(r@.cache_sound()) by {
                assert forall|q: int| 0 <= q < r@.queries.len() implies #[trigger] r@.cache[q] == Seq::<EntityId>::empty() by {
                    assert(r@.cache[q] =~= Seq::<EntityId>::empty());
                }
            }
            r.lemma_cache_forms();
        }
        r
    }

    /// The schema the store was made for.
    pub fn schema(&self) -> (r: &Schema)
        ensures
            r.flags() == self@.is_flag,
            r.query_list() == self@.queries,
    {
        &self.schema
    }

    /// Adds `ins` and `rem` to the dirty flags of every query position that
    /// names component `c`.
    fn mark(&mut self, c: ComponentType, ins: bool, rem: bool)
        requires
            old(self).dirty_shaped(),
        ensures
            final(self).dirty_shaped(),
            final(self)@.dirty == marked(old(self)@.dirty, old(self)@.queries, set![c as nat], ins, rem),
            final(self).schema == old(self).schema,
            final(self).tables == old(self).tables,
            final(self).tracker == old(self).tracker,
            final(self).cache == old(self).cache,
    {
        let ghost d0 = old(self)@.dirty;
        let ghost target = marked(d0, old(self)@.queries, set![c as nat], ins, rem);
        let nq = self.dirty.len();
        let mut q: usize = 0;
        while q < nq
            invariant
                self.dirty_shaped(),
                old(self).dirty_shaped(),
                nq == self.dirty@.len(),
                q <= nq,
                d0 == old(self)@.dirty,
                target == marked(d0, old(self)@.queries, set![c as nat], ins, rem),
                target.len() == nq,
                d0.len() == nq,
                self.schema == old(self).schema,
                self.tables == old(self).tables,
                self.tracker == old(self).tracker,
                self.cache == old(self).cache,
                forall|j: int| 0 <= j < q ==> (#[trigger] self.dirty@[j])@ == target[j],
                forall|j: int| q <= j < nq ==> (#[trigger] self.dirty@[j])@ == d0[j],
            decreases nq - q,
        {
            let len = self.schema.query(q).len();
            assert(d0[q as int].len() == len);
            let mut k: usize = 0;
            while k < len
                invariant
                    self.dirty_shaped(),
                    nq == self.dirty@.len(),
                    q < nq,
                    len == self.schema.query_list()[q as int].len(),
                    k <= len,
                    d0 == old(self)@.dirty,
                    target == marked(d0, old(self)@.queries, set![c as nat], ins, rem),
                    target.len() == nq,
                    d0.len() == nq,
                    target[q as int].len() == len,
                    d0[q as int].len() == len,
                    self.schema == old(self).schema,
                    self.tables == old(self).tables,
                    self.tracker == old(self).tracker,
                    self.cache == old(self).cache,
                    forall|j: int| 0 <= j < q ==> (#[trigger] self.dirty@[j])@ == target[j],
                    forall|j: int| q < j < nq ==> (#[trigger] self.dirty@[j])@ == d0[j],
                    forall|i: int| 0 <= i < k ==> #[trigger] self.dirty@[q as int]@[i] == target[q as int][i],
                    forall|i: int| k <= i < len ==> #[trigger] self.dirty@[q as int]@[i] == d0[q as int][i],
                decreases len - k,
            {
                let ghost row = self.dirty@[q as int]@;
                let qk = self.schema.query(q)[k];
                assert(qk == old(self)@.queries[q as int][k as int]);
                assert(set![c as nat].contains(qk as nat) <==> qk == c);
                if qk == c {
                    let d = self.dirty[q][k];
                    self.dirty[q].set(k, DirtyFlags { insert: d.insert || ins, remove: d.remove || rem });
                    assert(self.dirty@[q as int]@ == row.update(k as int, target[q as int][k as int]));
                } else {
                    assert(target[q as int][k as int] == d0[q as int][k as int]);
                }
                k = k + 1;
            }
            assert(self.dirty@[q as int]@ =~= target[q as int]);
            q = q + 1;
        }
        assert(self@.dirty =~= target);
    }

    /// Gives entity `e` component `c` with payload `value` (`None` for a flag
    /// component), replacing any payload it had.
    pub fn insert(&mut self, c: ComponentType, e: EntityId, value: Option<V>)
        requires
            old(self).wf(),
            c < old(self)@.tables.len(),
            value is Some <==> !old(self)@.is_flag[c as int],
        ensures
            final(self).wf(),
            final(self)@ == old(self)@.with_insert(c as int, e, value),
    {
        let n = self.tables.len();
        self.tables[c].insert(e, value);
        self.mark(c, true, false);
        let mut set = match self.tracker.remove(&e) {
            Some(s) => s,
            None => ComponentTypeSet::new(n),
        };
        set.insert(c);
        self.tracker.insert(e, set);
        proof {
            let m0 = old(self)@;
            assert(self@.tables =~= m0.with_insert(c as int, e, value).tables);
            assert(self.tracker@[e]@.contains(c as nat));
            old(self).lemma_cache_forms();
            lemma_cache_sound_step(m0, self@);
            self.lemma_cache_forms();
        }
    }

    /// Takes component `c` away from entity `e`, returning its entry if it
    /// had one.
    pub fn remove(&mut self, c: ComponentType, e: EntityId) -> (r: Option<Option<V>>)
        requires
            old(self).wf(),
            c < old(self)@.tables.len(),
        ensures
            final(self).wf(),
            final(self)@ == old(self)@.with_remove(c as int, e),
            r == old(self)@.tables[c as int].get(e),
    {
        let r = self.tables[c].remove(&e);
        self.mark(c, false, true);
        match self.tracker.remove(&e) {
            Some(s) => {
                let mut s = s;
                s.remove(c);
                if !s.is_empty() {
                    self.tracker.insert(e, s);
                }
            },
            None => {},
        }
        proof {
            let m0 = old(self)@;
            let m1 = self@;
            assert(m1.tables =~= m0.with_remove(c as int, e).tables);
            if old(self).tracker@.contains_key(e) && !self.tracker@.contains_key(e) {
                assert forall|c2: int| 0 <= c2 < self.tables@.len() implies !(#[trigger] self.tables@[c2]@.contains_key(e)) by {
                    assert(!old(self).tracker@[e]@.remove(c as nat).contains(c2 as nat));
                }
            }
            assert forall|q: int| 0 <= q < m0.queries.len() && !(#[trigger] m1.stale(q)) implies forall|k: int, x: EntityId|
                0 <= k < m0.queries[q].len() && m0.tables[m0.queries[q][k] as int].contains_key(x)
                    ==> #[trigger] m1.tables[m0.queries[q][k] as int].contains_key(x) by {
                assert forall|k: int| 0 <= k < m0.queries[q].len() implies m0.queries[q][k] != c by {
                    if m0.queries[q][k] == c {
                        assert(m1.dirty[q][k].remove);
                    }
                }
            }
            old(self).lemma_cache_forms();
            lemma_cache_sound_step(m0, m1);
            self.lemma_cache_forms();
        }
        r
    }

    /// Transfers component `c` from `src` to `dst`. When `src` lacks it,
    /// `dst` is left as it was.
    pub fn move_component(&mut self, c: ComponentType, src: EntityId, dst: EntityId)
        requires
            old(self).wf(),
            c < old(self)@.tables.len(),
        ensures
            final(self).wf(),
            final(self)@ == old(self)@.with_move(c as int, src, dst),
    {
        let v = self.remove(c, src);
        match v {
            Some(x) => {
                self.insert(c, dst, x);
            },
            None => {},
        }
    }

    /// Exchanges component `c` between `a` and `b`: whichever held it ends up
    /// on the other, and one that held nothing leaves the other with nothing.
    pub fn swap(&mut self, c: ComponentType, a: EntityId, b: EntityId)
        requires
            old(self).wf(),
            c < old(self)@.tables.len(),
        ensures
            final(self).wf(),
            final(self)@ == old(self)@.with_swap(c as int, a, b),
    {
        let va = self.remove(c, a);
        let vb = self.remove(c, b);
        match va {
            Some(x) => {
                self.insert(c, b, x);
            },
            None => {},
        }
        match vb {
            Some(y) => {
                self.insert(c, a, y);
            },
            None => {},
        }
    }

    /// Takes every component away from entity `e`.
    pub fn remove_entity(&mut self, e: EntityId)
        requires
            old(self).wf(),
        ensures
            final(self).wf(),
            final(self)@ == old(self)@.with_entity_removed(e),
            !final(self).tracked_types().contains_key(e),
            final(self)@.entity_types(e) == Set::<nat>::empty(),
    {
        let cs = self.component_types(e);
        let ghost m0 = self@;
        proof {
            self.lemma_tracked_is_entity_types(e);
        }
        let ghost n = m0.tables.len();
        let mut i: usize = 0;
        proof {
            lemma_marked_empty(m0.dirty, m0.queries, false, true);
            assert(Set::new(|c: nat| c < n && cs@.subrange(0, 0).contains(c as usize)) =~= Set::<nat>::empty());
            assert(Seq::new(n as nat, |c: int| if cs@.subrange(0, 0).contains(c as usize) { m0.tables[c].remove(e) } else { m0.tables[c] })
                =~= m0.tables);
        }
        while i < cs.len()
            invariant
                self.wf(),
                0 <= i <= cs@.len(),
                m0 == old(self)@,
                n == m0.tables.len(),
                forall|k1: int, k2: int| 0 <= k1 < k2 < cs@.len() ==> cs@[k1] < cs@[k2],
                forall|k: int| 0 <= k < cs@.len() ==> m0.entity_types(e).contains(#[trigger] cs@[k] as nat),
                forall|c: nat| m0.entity_types(e).contains(c) ==> exists|k: int| 0 <= k < cs@.len() && cs@[k] == c,
                self@ == m0.with_tables(
                    Seq::new(
                        n as nat,
                        |c: int| if cs@.subrange(0, i as int).contains(c as usize) { m0.tables[c].remove(e) } else { m0.tables[c] },
                    ),
                ).mark(Set::new(|c: nat| c < n && cs@.subrange(0, i as int).contains(c as usize)), false, true),
            decreases cs@.len() - i,
        {
            let c = cs[i];
            assert(m0.entity_types(e).contains(c as nat));
            assert(c < n);
            let ghost prev = cs@.subrange(0, i as int);
            let ghost next = cs@.subrange(0, i + 1);
            proof {
                lemma_prefix_push(cs@, i as int);
                assert(!prev.contains(c)) by {
                    if prev.contains(c) {
                        let j = choose|j: int| 0 <= j < prev.len() && prev[j] == c;
                        assert(cs@[j] == c);
                    }
                }
            }
            self.remove(c, e);
            proof {
                let pset = Set::new(|x: nat| x < n && prev.contains(x as usize));
                let nset = Set::new(|x: nat| x < n && next.contains(x as usize));
                assert(nset =~= pset.union(set![c as nat]));
                lemma_marked_union(m0.dirty, m0.queries, pset, set![c as nat], false, true);
                assert(self@.tables =~= Seq::new(
                    n as nat,
                    |c2: int| if next.contains(c2 as usize) { m0.tables[c2].remove(e) } else { m0.tables[c2] },
                ));
            }
            i = i + 1;
        }
        proof {
            assert(cs@.subrange(0, i as int) == cs@);
            assert(Set::new(|c: nat| c < n && cs@.contains(c as usize)) =~= m0.entity_types(e)) by {
                assert forall|c: nat| c < n && cs@.contains(c as usize) implies m0.entity_types(e).contains(c) by {
                    let k = choose|k: int| 0 <= k < cs@.len() && cs@[k] == c as usize;
                    assert(m0.entity_types(e).contains(cs@[k] as nat));
                }
            }
            assert forall|c: int| 0 <= c < n implies (cs@.contains(c as usize) <==> #[trigger] m0.tables[c].contains_key(e)) by {
                if m0.tables[c].contains_key(e) {
                    assert(m0.entity_types(e).contains(c as nat));
                }
            }
            assert(self@.tables =~= m0.with_entity_removed(e).tables);
            assert(self@.entity_types(e) =~= Set::<nat>::empty());
            self.lemma_tracked_is_entity_types(e);
        }
    }

    /// Whether the cached rows of query `q` must be rebuilt.
    pub fn is_stale(&self, q: usize) -> (r: bool)
        requires
            self.wf(),
            q < self@.queries.len(),
        ensures
            r == self@.stale(q as int),
    {
        proof {
            self.lemma_shape();
        }
        let cs = self.schema.query(q);
        let ghost m = self@;
        let ghost qs = m.queries[q as int];
        let ghost d = m.dirty[q as int];
        let mut valued_insert = false;
        let mut flags_insert = true;
        let mut any_remove = false;
        let mut k: usize = 0;
        while k < cs.len()
            invariant
                self.wf(),
                m == self@,
                cs@ == qs,
                qs == m.queries[q as int],
                d == m.dirty[q as int],
                d.len() == qs.len(),
                d == self.dirty@[q as int]@,
                q < m.queries.len(),
                valid_queries(m.tables.len(), m.queries),
                m.tables.len() == m.is_flag.len(),
                k <= qs.len(),
                valued_insert == exists|j: int| 0 <= j < k && !m.is_flag[qs[j] as int] && (#[trigger] d[j]).insert,
                flags_insert == forall|j: int| 0 <= j < k && m.is_flag[qs[j] as int] ==> (#[trigger] d[j]).insert,
                any_remove == exists|j: int| 0 <= j < k && (#[trigger] d[j]).remove,
            decreases qs.len() - k,
        {
            let c = cs[k];
            assert(c < m.tables.len());
            let f = self.dirty[q][k];
            if self.schema.is_flag(c) {
                flags_insert = flags_insert && f.insert;
            } else {
                valued_insert = valued_insert || f.insert;
            }
            any_remove = any_remove || f.remove;
            k = k + 1;
        }
        valued_insert || flags_insert || any_remove
    }

    /// The position, within query `q`, of the component with the fewest
    /// entities; the first such position on a tie.
    pub fn driver(&self, q: usize) -> (r: usize)
        requires
            self.wf(),
            q < self@.queries.len(),
        ensures
            r < self@.queries[q as int].len(),
            forall|k: int|
                0 <= k < self@.queries[q as int].len() ==> self@.tables[self@.queries[q as int][r as int] as int].len()
                    <= (#[trigger] self@.tables[self@.queries[q as int][k] as int]).len(),
            forall|k: int|
                0 <= k < r ==> self@.tables[self@.queries[q as int][r as int] as int].len()
                    < (#[trigger] self@.tables[self@.queries[q as int][k] as int]).len(),
    {
        proof {
            self.lemma_shape();
        }
        let cs = self.schema.query(q);
        let ghost m = self@;
        let ghost qs = m.queries[q as int];
        let mut best: usize = 0;
        let mut min = self.count(cs[0]);
        let mut k: usize = 1;
        while k < cs.len()
            invariant
                self.wf(),
                m == self@,
                cs@ == qs,
                qs == self@.queries[q as int],
                q < self@.queries.len(),
                valid_queries(m.tables.len(), m.queries),
                1 <= k <= qs.len(),
                best < k,
                min == m.tables[qs[best as int] as int].len(),
                forall|j: int| 0 <= j < k ==> min <= (#[trigger] m.tables[qs[j] as int]).len(),
                forall|j: int| 0 <= j < best ==> min < (#[trigger] m.tables[qs[j] as int]).len(),
            decreases qs.len() - k,
        {
            let count = self.count(cs[k]);
            if count < min {
                min = count;
                best = k;
            }
            k = k + 1;
        }
        best
    }

    /// The join of query `q` computed afresh: the driver's entities, in
    /// ascending order, that hold every other required component.
    fn join(&self, q: usize) -> (r: Vec<EntityId>)
        requires
            self.wf(),
            q < self@.queries.len(),
        ensures
            is_join_result(self@.tables, self@.queries[q as int], r@),
    {
        proof {
            self.lemma_shape();
        }
        let cs = self.schema.query(q);
        let ghost m = self@;
        let ghost qs = m.queries[q as int];
        let dk = self.driver(q);
        let d = cs[dk];
        let table = &self.tables[d];
        assert(table@ == m.tables[d as int]);
        assert(vstd::laws_cmp::obeys_cmp::<u64>());
        assert(vstd::laws_cmp::obeys_cmp::<&u64>());
        let ghost raw = vstd::std_specs::btree::spec_keys_iter(table).remaining();
        let ghost ks = raw.unref();
        assert(ks.to_set() == table@.dom());
        assert(vstd::std_specs::btree::increasing_seq(raw));
        proof {
            vstd::std_specs::btree::axiom_increasing_seq_meaning::<&u64>(raw);
        }
        assert forall|i: int, j: int| 0 <= i < j < ks.len() implies ks[i] < ks[j] by {
            assert(<&u64 as OrdSpec>::cmp_spec(&raw[i], &raw[j]) is Less);
        }
        let mut ids: Vec<EntityId> = Vec::new();
        for id_ref in it: table.keys()
            invariant
                self.wf(),
                m == self@,
                cs@ == qs,
                qs == self@.queries[q as int],
                q < self@.queries.len(),
                valid_queries(m.tables.len(), m.queries),
                it.seq().unref() == ks,
                ids@ == join_scan(m.tables, qs, ks.subrange(0, it.index() as int)),
        {
            let id = *id_ref;
            let ghost i = it.index();
            let mut all = true;
            let mut k: usize = 0;
            while k < cs.len()
                invariant
                    self.wf(),
                    m == self@,
                    cs@ == qs,
                    qs == self@.queries[q as int],
                    q < self@.queries.len(),
                    valid_queries(m.tables.len(), m.queries),
                    k <= qs.len(),
                    all == forall|j: int| 0 <= j < k ==> (#[trigger] m.tables[qs[j] as int]).contains_key(id),
                decreases qs.len() - k,
            {
                let c = cs[k];
                let has = self.tables[c].contains_key(&id);
                assert(has == m.tables[qs[k as int] as int].contains_key(id));
                all = all && has;
                k = k + 1;
            }
            proof {
                assert(ks.subrange(0, i + 1).drop_last() == ks.subrange(0, i));
                assert(ks.subrange(0, i + 1).last() == id);
            }
            if all {
                ids.push(id);
            }
        }
        proof {
            assert(ks.subrange(0, ks.len() as int) == ks);
            lemma_join_scan(m.tables, qs, ks);
            assert forall|e: EntityId| in_all(m.tables, qs, e) implies exists|i: int| 0 <= i < ids@.len() && #[trigger] ids@[i] == e by {
                assert(m.tables[qs[dk as int] as int].contains_key(e));
                assert(ks.to_set().contains(e));
            }
        }
        ids
    }

    /// Rebuilds the cached rows of query `q` if they are stale, clearing the
    /// dirty flags of `q` alone; otherwise leaves the store as it is. Other
    /// queries' caches and dirty flags are never touched.
    pub fn refresh_query(&mut self, q: usize)
        requires
            old(self).wf(),
            q < old(self)@.queries.len(),
        ensures
            final(self).wf(),
            old(self)@.stale(q as int) ==> is_join_result(old(self)@.tables, old(self)@.queries[q as int], final(self)@.cache[q as int])
                && final(self)@ == old(self)@.with_refreshed(q as int, final(self)@.cache[q as int]),
            !old(self)@.stale(q as int) ==> final(self)@ == old(self)@,
            old(self)@.query_result(q as int, final(self)@.cache[q as int]),
            forall|p: int| 0 <= p < old(self)@.queries.len() && p != q ==> #[trigger] final(self)@.cache[p] == old(self)@.cache[p]
                && final(self)@.dirty[p] == old(self)@.dirty[p] && final(self)@.stale(p) == old(self)@.stale(p),
    {
        proof {
            self.lemma_shape();
        }
        if self.is_stale(q) {
            let ghost m0 = self@;
            let ids = self.join(q);
            let len = self.schema.query(q).len();
            let mut clean: Vec<DirtyFlags> = Vec::new();
            while clean.len() < len
                invariant
                    clean@.len() <= len,
                    forall|k: int| 0 <= k < clean@.len() ==> #[trigger] clean@[k] == (DirtyFlags { insert: false, remove: false }),
                decreases len - clean@.len(),
            {
                clean.push(DirtyFlags { insert: false, remove: false });
            }
            let ghost rows = ids@;
            assert(clean@ =~= Seq::new(len as nat, |k: int| DirtyFlags { insert: false, remove: false }));
            assert(m0.dirty[q as int].len() == len);
            self.cache.set(q, ids);
            self.dirty.set(q, clean);
            proof {
                let m1 = self@;
                assert(m1.dirty =~= m0.dirty.update(q as int, Seq::new(len as nat, |k: int| DirtyFlags { insert: false, remove: false })));
                assert(m1.cache =~= m0.cache.update(q as int, rows));
                assert(m1.tables =~= m0.tables);
                assert(m1 == m0.with_refreshed(q as int, rows));
                old(self).lemma_cache_forms();
                assert(m1.cache_sound()) by {
                    assert forall|p: int| 0 <= p < m1.queries.len() && !m1.stale(p) implies {
                        &&& ascending(m1.cache[p])
                        &&& forall|i: int| 0 <= i < m1.cache[p].len() ==> in_all(m1.tables, m1.queries[p], #[trigger] m1.cache[p][i])
                    } by {
                        if p != q {
                            assert(m1.dirty[p] == m0.dirty[p]);
                            assert(!m0.stale(p));
                        }
                    }
                }
                self.lemma_cache_forms();
            }
        }
    }

    /// The cached rows of query `q`, as last refreshed.
    pub fn query_results(&self, q: usize) -> (r: &Vec<EntityId>)
        requires
            self.wf(),
            q < self@.queries.len(),
        ensures
            r@ == self@.cache[q as int],
    {
        proof {
            self.lemma_shape();
        }
        &self.cache[q]
    }

    /// Whether entity `e` holds component `c`.
    pub fn contains(&self, c: ComponentType, e: EntityId) -> (r: bool)
        requires
            self.wf(),
            c < self@.tables.len(),
        ensures
            r == self@.has(c as int, e),
    {
        self.tables[c].contains_key(&e)
    }

    /// The payload of entity `e` for valued component `c`, if it has one.
    pub fn get(&self, c: ComponentType, e: EntityId) -> (r: Option<&V>)
        requires
            self.wf(),
            c < self@.tables.len(),
        ensures
            r is Some <==> self@.has(c as int, e) && self@.tables[c as int][e] is Some,
            r is Some ==> self@.tables[c as int][e] == Some(*r.unwrap()),
    {
        match self.tables[c].get(&e) {
            Some(v) => v.as_ref(),
            None => None,
        }
    }

    /// The entry of entity `e` in table `c`: `None` if it lacks the component,
    /// else a borrow of its payload (`None` for a flag component).
    pub fn entry(&self, c: ComponentType, e: EntityId) -> (r: Option<Option<&V>>)
        requires
            self.wf(),
            c < self@.tables.len(),
        ensures
            deref_entry(r) == self@.tables[c as int].get(e),
    {
        match self.tables[c].get(&e) {
            Some(v) => Some(v.as_ref()),
            None => None,
        }
    }

    /// A mutable borrow of the payload of entity `e` for valued component
    /// `c`, if it has one. Writing through it changes only that payload: no
    /// entity gains or loses a component, so the query caches stay as they
    /// are.
    pub fn get_mut(&mut self, c: ComponentType, e: EntityId) -> (r: Option<&mut V>)
        requires
            old(self).wf(),
            c < old(self)@.tables.len(),
        ensures
            r is Some <==> old(self)@.has(c as int, e) && old(self)@.tables[c as int][e] is Some,
            r is Some ==> old(self)@.tables[c as int][e] == Some(*r.unwrap()) && final(self)@.tables =~= old(self)@.tables.update(
                c as int,
                old(self)@.tables[c as int].insert(e, Some(*final(r.unwrap()))),
            ),
            r is None ==> final(self)@.tables =~= old(self)@.tables,
            final(self)@.is_flag == old(self)@.is_flag,
            final(self)@.queries == old(self)@.queries,
            final(self)@.dirty == old(self)@.dirty,
            final(self)@.cache == old(self)@.cache,
            final(self).wf(),
    {
        proof {
            assert(old(self).tables@[c as int]@ == old(self)@.tables[c as int]);
        }
        let holds_value = match self.tables[c].get(&e) {
            Some(v) => v.is_some(),
            None => false,
        };
        if !holds_value {
            return None;
        }
        match map_get_mut(&mut self.tables[c], e) {
            Some(slot) => slot.as_mut(),
            None => None,
        }
    }

    /// How many entities hold component `c`.
    pub fn count(&self, c: ComponentType) -> (r: usize)
        requires
            self.wf(),
            c < self@.tables.len(),
        ensures
            r == self@.tables[c as int].len(),
    {
        self.tables[c].len()
    }

    /// Whether entity `e` holds any component.
    pub fn contains_any_component(&self, e: EntityId) -> (r: bool)
        requires
            self.wf(),
        ensures
            r == (self@.entity_types(e) != Set::<nat>::empty()),
    {
        proof {
            self.lemma_tracked_is_entity_types(e);
        }
        self.tracker.contains_key(&e)
    }

    /// The component types entity `e` holds, ascending.
    pub fn component_types(&self, e: EntityId) -> (r: Vec<ComponentType>)
        requires
            self.wf(),
        ensures
            forall|k: int| 0 <= k < r@.len() ==> self@.entity_types(e).contains(#[trigger] r@[k] as nat),
            forall|c: nat| self@.entity_types(e).contains(c) ==> exists|k: int| 0 <= k < r@.len() && r@[k] == c,
            forall|k1: int, k2: int| 0 <= k1 < k2 < r@.len() ==> r@[k1] < r@[k2],
    {
        proof {
            self.lemma_tracked_is_entity_types(e);
        }
        match self.tracker.get(&e) {
            Some(set) => {
                assert(set.capacity() <= usize::MAX) by {
                    assert(words_for(self.tables@.len() as nat) * 64 <= self.tables@.len() + 63);
                }
                set.to_vec()
            },
            None => Vec::new(),
        }
    }
}

} // verus!
