//! The mathematical model of the store and of a staged action, and the
//! meaning of every operation on that model.
use vstd::prelude::*;
use crate::EntityId;

verus! {

/// Change markers that one query keeps for one of its required components.
#[derive(Clone, Copy, Debug, PartialEq, Eq, Structural)]
pub struct DirtyFlags {
    pub insert: bool,
    pub remove: bool,
}

/// Whether `e` holds every component listed in `cs`.
pub open spec fn in_all<V>(tables: Seq<Map<EntityId, Option<V>>>, cs: Seq<usize>, e: EntityId) -> bool {
    forall|k: int| 0 <= k < cs.len() ==> (#[trigger] tables[cs[k] as int]).contains_key(e)
}

/// Strictly increasing.
pub open spec fn ascending(ids: Seq<EntityId>) -> bool {
    forall|i: int, j: int| 0 <= i < j < ids.len() ==> ids[i] < ids[j]
}

/// `ids` is the join of `cs`: each entity holding all of `cs`, once, in
/// ascending order.
pub open spec fn is_join_result<V>(tables: Seq<Map<EntityId, Option<V>>>, cs: Seq<usize>, ids: Seq<EntityId>) -> bool {
    &&& ascending(ids)
    &&& forall|i: int| 0 <= i < ids.len() ==> in_all(tables, cs, #[trigger] ids[i])
    &&& forall|e: EntityId| in_all(tables, cs, e) ==> exists|i: int| 0 <= i < ids.len() && #[trigger] ids[i] == e
}

/// The entities that a scan over the candidates `ks`, in order, keeps.
pub open spec fn join_scan<V>(tables: Seq<Map<EntityId, Option<V>>>, cs: Seq<usize>, ks: Seq<EntityId>) -> Seq<EntityId>
    decreases ks.len(),
{
    if ks.len() == 0 {
        Seq::empty()
    } else {
        let p = join_scan(tables, cs, ks.drop_last());
        if in_all(tables, cs, ks.last()) {
            p.push(ks.last())
        } else {
            p
        }
    }
}

/// The dirty flags after a change to the component types in `comps`: every
/// query position that names one of them gets `ins` and `rem` added.
pub open spec fn marked(
    dirty: Seq<Seq<DirtyFlags>>,
    queries: Seq<Seq<usize>>,
    comps: Set<nat>,
    ins: bool,
    rem: bool,
) -> Seq<Seq<DirtyFlags>> {
    Seq::new(
        dirty.len(),
        |q: int|
            Seq::new(
                dirty[q].len(),
                |k: int|
                    if comps.contains(queries[q][k] as nat) {
                        DirtyFlags { insert: dirty[q][k].insert || ins, remove: dirty[q][k].remove || rem }
                    } else {
                        dirty[q][k]
                    },
            ),
    )
}

/// Whether a query over `cs` with dirty flags `d` must be rebuilt: an
/// insertion into one of its valued components, or into all of its flag
/// components, or a removal from any of its components, since it was last
/// rebuilt.
pub open spec fn stale_of(is_flag: Seq<bool>, cs: Seq<usize>, d: Seq<DirtyFlags>) -> bool {
    ||| exists|k: int| 0 <= k < cs.len() && !is_flag[cs[k] as int] && (#[trigger] d[k]).insert
    ||| forall|k: int| 0 <= k < cs.len() && is_flag[cs[k] as int] ==> (#[trigger] d[k]).insert
    ||| exists|k: int| 0 <= k < cs.len() && (#[trigger] d[k]).remove
}

/// The whole store: the schema's component kinds and queries, the tables
/// (payload `None` for a flag component), each query's dirty flags (one pair
/// per required component, in query order), and each query's cached rows.
pub struct EcsModel<V> {
    pub is_flag: Seq<bool>,
    pub queries: Seq<Seq<usize>>,
    pub tables: Seq<Map<EntityId, Option<V>>>,
    pub dirty: Seq<Seq<DirtyFlags>>,
    pub cache: Seq<Seq<EntityId>>,
}

impl<V> EcsModel<V> {
    /// Whether entity `e` holds component `c`.
    pub open spec fn has(self, c: int, e: EntityId) -> bool {
        self.tables[c].contains_key(e)
    }

    /// The component types that `e` holds.
    pub open spec fn entity_types(self, e: EntityId) -> Set<nat> {
        Set::new(|c: nat| c < self.tables.len() && self.has(c as int, e))
    }

    pub open spec fn with_tables(self, tables: Seq<Map<EntityId, Option<V>>>) -> Self {
        EcsModel { tables, ..self }
    }

    pub open spec fn with_dirty(self, dirty: Seq<Seq<DirtyFlags>>) -> Self {
        EcsModel { dirty, ..self }
    }

    /// Records a change to the component types `comps` in every query.
    pub open spec fn mark(self, comps: Set<nat>, ins: bool, rem: bool) -> Self {
        self.with_dirty(marked(self.dirty, self.queries, comps, ins, rem))
    }

    pub open spec fn with_insert(self, c: int, e: EntityId, v: Option<V>) -> Self {
        self.with_tables(self.tables.update(c, self.tables[c].insert(e, v))).mark(set![c as nat], true, false)
    }

    pub open spec fn with_remove(self, c: int, e: EntityId) -> Self {
        self.with_tables(self.tables.update(c, self.tables[c].remove(e))).mark(set![c as nat], false, true)
    }

    /// A removal from `src`, then, if `src` held the component, an insertion
    /// of its payload at `dst`.
    pub open spec fn with_move(self, c: int, src: EntityId, dst: EntityId) -> Self {
        if self.has(c, src) {
            self.with_remove(c, src).with_insert(c, dst, self.tables[c][src])
        } else {
            self.with_remove(c, src)
        }
    }

    /// Both entries removed, then each reinserted on the other entity.
    pub open spec fn with_swap(self, c: int, a: EntityId, b: EntityId) -> Self {
        let r = self.with_remove(c, a).with_remove(c, b);
        let r1 = if self.has(c, a) {
            r.with_insert(c, b, self.tables[c][a])
        } else {
            r
        };
        if self.has(c, b) && a != b {
            r1.with_insert(c, a, self.tables[c][b])
        } else {
            r1
        }
    }

    /// A single-component removal for each component that `e` holds.
    pub open spec fn with_entity_removed(self, e: EntityId) -> Self {
        self.with_tables(
            Seq::new(
                self.tables.len(),
                |c: int| if self.has(c, e) { self.tables[c].remove(e) } else { self.tables[c] },
            ),
        ).mark(self.entity_types(e), false, true)
    }

    /// Whether the cached rows of query `q` must be rebuilt.
    pub open spec fn stale(self, q: int) -> bool {
        stale_of(self.is_flag, self.queries[q], self.dirty[q])
    }

    /// The cache of query `q` replaced by `ids`, and its dirty flags cleared.
    pub open spec fn with_refreshed(self, q: int, ids: Seq<EntityId>) -> Self {
        EcsModel {
            dirty: self.dirty.update(
                q,
                Seq::new(self.dirty[q].len(), |k: int| DirtyFlags { insert: false, remove: false }),
            ),
            cache: self.cache.update(q, ids),
            ..self
        }
    }

    /// What reading query `q` may return: the cached rows while they are
    /// fresh, else the join over the current tables.
    pub open spec fn query_result(self, q: int, ids: Seq<EntityId>) -> bool {
        if self.stale(q) {
            is_join_result(self.tables, self.queries[q], ids)
        } else {
            ids == self.cache[q]
        }
    }

    /// While a query's cache is fresh, its rows are ascending and each still
    /// holds every required component.
    pub open spec fn cache_sound(self) -> bool {
        forall|q: int|
            0 <= q < self.queries.len() && !self.stale(q) ==> {
                &&& ascending(self.cache[q])
                &&& forall|i: int| 0 <= i < self.cache[q].len() ==> in_all(self.tables, self.queries[q], #[trigger] self.cache[q][i])
            }
    }

    /// The store after a commit of `profiles`, one per component type.
    pub open spec fn with_commit(self, profiles: Seq<ProfileModel<V>>) -> Self {
        commit_upto(self, profiles, profiles.len() as int)
    }
}

/// The edits staged for one component type.
pub struct ProfileModel<V> {
    pub insertions: Map<EntityId, Option<V>>,
    pub removals: Set<EntityId>,
    /// Swaps in the order staged.
    pub swaps: Seq<(EntityId, EntityId)>,
    /// Moves, as (source, destination), in the order staged.
    pub moves: Seq<(EntityId, EntityId)>,
}

impl<V> ProfileModel<V> {
    pub open spec fn empty() -> Self {
        ProfileModel {
            insertions: Map::empty(),
            removals: Set::empty(),
            swaps: Seq::empty(),
            moves: Seq::empty(),
        }
    }

    /// Every entity that an edit of this profile names.
    pub open spec fn changed_entities(self) -> Set<EntityId> {
        self.insertions.dom().union(self.removals).union(pair_ids(self.swaps)).union(pair_ids(self.moves))
    }
}

/// The entities named by a sequence of pairs.
pub open spec fn pair_ids(s: Seq<(EntityId, EntityId)>) -> Set<EntityId> {
    Set::new(|e: EntityId| exists|i: int| 0 <= i < s.len() && ((#[trigger] s[i]).0 == e || s[i].1 == e))
}

/// Swap partners after staging `s` in order: the latest swap naming an entity
/// decides its partner.
pub open spec fn swap_partners(s: Seq<(EntityId, EntityId)>) -> Map<EntityId, EntityId>
    decreases s.len(),
{
    if s.len() == 0 {
        Map::empty()
    } else {
        let (a, b) = s.last();
        swap_partners(s.drop_last()).insert(a, b).insert(b, a)
    }
}

/// Source to destination, after staging moves `s` in order.
pub open spec fn move_targets(s: Seq<(EntityId, EntityId)>) -> Map<EntityId, EntityId>
    decreases s.len(),
{
    if s.len() == 0 {
        Map::empty()
    } else {
        move_targets(s.drop_last()).insert(s.last().0, s.last().1)
    }
}

/// Destination to source, after staging moves `s` in order.
pub open spec fn move_sources(s: Seq<(EntityId, EntityId)>) -> Map<EntityId, EntityId>
    decreases s.len(),
{
    if s.len() == 0 {
        Map::empty()
    } else {
        move_sources(s.drop_last()).insert(s.last().1, s.last().0)
    }
}

/// Applies insertions `ins` to table `c`.
pub open spec fn apply_insertions<V>(m: EcsModel<V>, c: int, ins: Map<EntityId, Option<V>>) -> EcsModel<V> {
    let t = m.with_tables(m.tables.update(c, m.tables[c].union_prefer_right(ins)));
    if exists|e: EntityId| ins.contains_key(e) {
        t.mark(set![c as nat], true, false)
    } else {
        t
    }
}

/// Applies removals `rem` to table `c`.
pub open spec fn apply_removals<V>(m: EcsModel<V>, c: int, rem: Set<EntityId>) -> EcsModel<V> {
    let t = m.with_tables(m.tables.update(c, m.tables[c].remove_keys(rem)));
    if exists|e: EntityId| rem.contains(e) {
        t.mark(set![c as nat], false, true)
    } else {
        t
    }
}

pub open spec fn apply_swaps<V>(m: EcsModel<V>, c: int, s: Seq<(EntityId, EntityId)>) -> EcsModel<V>
    decreases s.len(),
{
    if s.len() == 0 {
        m
    } else {
        apply_swaps(m, c, s.drop_last()).with_swap(c, s.last().0, s.last().1)
    }
}

pub open spec fn apply_moves<V>(m: EcsModel<V>, c: int, s: Seq<(EntityId, EntityId)>) -> EcsModel<V>
    decreases s.len(),
{
    if s.len() == 0 {
        m
    } else {
        apply_moves(m, c, s.drop_last()).with_move(c, s.last().0, s.last().1)
    }
}

/// A commit of one component's profile: insertions, then removals, then
/// swaps, then moves.
pub open spec fn commit_component<V>(m: EcsModel<V>, c: int, p: ProfileModel<V>) -> EcsModel<V> {
    apply_moves(apply_swaps(apply_removals(apply_insertions(m, c, p.insertions), c, p.removals), c, p.swaps), c, p.moves)
}

/// The profiles of component types `0 .. n` committed in that order.
pub open spec fn commit_upto<V>(m: EcsModel<V>, profiles: Seq<ProfileModel<V>>, n: int) -> EcsModel<V>
    decreases n,
{
    if n <= 0 {
        m
    } else {
        commit_component(commit_upto(m, profiles, n - 1), n - 1, profiles[n - 1])
    }
}

/// The pending change of one component for one entity.
#[derive(Clone, Copy, Debug, PartialEq, Eq, Structural)]
pub enum Change<V> {
    /// The entity will hold the component, with this payload.
    Insert(Option<V>),
    /// The entity will not hold the component.
    Remove,
}

/// The change that profile `p` makes to entity `e`, read against the live
/// table `entries`. The first rule that applies wins: an explicit insertion,
/// an explicit removal, a swap partner's entry, a move source's entry, being
/// the source of a move.
pub open spec fn change_of<V>(entries: Map<EntityId, Option<V>>, p: ProfileModel<V>, e: EntityId) -> Option<Change<V>> {
    let partners = swap_partners(p.swaps);
    let sources = move_sources(p.moves);
    if p.insertions.contains_key(e) {
        Some(Change::Insert(p.insertions[e]))
    } else if p.removals.contains(e) {
        Some(Change::Remove)
    } else if partners.contains_key(e) {
        if entries.contains_key(partners[e]) {
            Some(Change::Insert(entries[partners[e]]))
        } else {
            Some(Change::Remove)
        }
    } else if sources.contains_key(e) && entries.contains_key(sources[e]) {
        Some(Change::Insert(entries[sources[e]]))
    } else if move_targets(p.moves).contains_key(e) {
        Some(Change::Remove)
    } else {
        None
    }
}

/// The change a borrowed change stands for.
pub open spec fn deref_change<V>(r: Option<Change<&V>>) -> Option<Change<V>> {
    match r {
        Some(Change::Insert(Some(v))) => Some(Change::Insert(Some(*v))),
        Some(Change::Insert(None)) => Some(Change::Insert(None)),
        Some(Change::Remove) => Some(Change::Remove),
        None => None,
    }
}

/// The table entry a borrowed entry stands for.
pub open spec fn deref_entry<V>(r: Option<Option<&V>>) -> Option<Option<V>> {
    match r {
        Some(Some(v)) => Some(Some(*v)),
        Some(None) => Some(None),
        None => None,
    }
}

/// The entry of `e` once `p` is committed, as previewed: the change if there
/// is one, else the live entry.
pub open spec fn preview_of<V>(entries: Map<EntityId, Option<V>>, p: ProfileModel<V>, e: EntityId) -> Option<Option<V>> {
    match change_of(entries, p, e) {
        Some(Change::Insert(v)) => Some(v),
        Some(Change::Remove) => None,
        None => entries.get(e),
    }
}

} // verus!

verus! {

impl<V> ProfileModel<V> {
    pub open spec fn with_insertion(self, e: EntityId, v: Option<V>) -> Self {
        ProfileModel { insertions: self.insertions.insert(e, v), ..self }
    }

    pub open spec fn with_removal(self, e: EntityId) -> Self {
        ProfileModel { removals: self.removals.insert(e), ..self }
    }

    pub open spec fn with_swap(self, a: EntityId, b: EntityId) -> Self {
        ProfileModel { swaps: self.swaps.push((a, b)), ..self }
    }

    pub open spec fn with_move(self, src: EntityId, dst: EntityId) -> Self {
        ProfileModel { moves: self.moves.push((src, dst)), ..self }
    }
}

/// A staged action: the component and property kinds it was made for, the
/// edits staged per component type, and the action properties that are set
/// (with their payload, `None` for a flag property).
pub struct ActionModel<V> {
    pub is_flag: Seq<bool>,
    pub property_flags: Seq<bool>,
    pub profiles: Seq<ProfileModel<V>>,
    pub properties: Seq<Option<Option<V>>>,
}

impl<V> ActionModel<V> {
    pub open spec fn with_profile(self, c: int, p: ProfileModel<V>) -> Self {
        ActionModel { profiles: self.profiles.update(c, p), ..self }
    }

    pub open spec fn with_property(self, p: int, v: Option<Option<V>>) -> Self {
        ActionModel { properties: self.properties.update(p, v), ..self }
    }

    /// Nothing staged and no property set.
    pub open spec fn is_clear(self) -> bool {
        &&& forall|c: int| 0 <= c < self.profiles.len() ==> #[trigger] self.profiles[c] == ProfileModel::<V>::empty()
        &&& forall|p: int| 0 <= p < self.properties.len() ==> #[trigger] self.properties[p] is None
    }
}

} // verus!

verus! {

/// Extending a prefix of `s` by one element adds exactly that element.
pub proof fn lemma_prefix_push<T>(s: Seq<T>, i: int)
    requires
        0 <= i < s.len(),
    ensures
        forall|x: T| s.subrange(0, i + 1).contains(x) <==> (s.subrange(0, i).contains(x) || x == s[i]),
        s.subrange(0, i + 1).to_set() == s.subrange(0, i).to_set().insert(s[i]),
{
    let prev = s.subrange(0, i);
    let next = s.subrange(0, i + 1);
    assert forall|x: T| next.contains(x) <==> (prev.contains(x) || x == s[i]) by {
        if prev.contains(x) {
            let j = choose|j: int| 0 <= j < prev.len() && prev[j] == x;
            assert(next[j] == x);
        }
        if x == s[i] {
            assert(next[i] == x);
        }
        if next.contains(x) {
            let j = choose|j: int| 0 <= j < next.len() && next[j] == x;
            if j < i {
                assert(prev[j] == x);
            }
        }
    }
    assert(next.to_set() =~= prev.to_set().insert(s[i]));
}

/// The entities kept by a scan over strictly increasing candidates are
/// ascending, hold every component of `cs`, and include each candidate that
/// does.
pub proof fn lemma_join_scan<V>(tables: Seq<Map<EntityId, Option<V>>>, cs: Seq<usize>, ks: Seq<EntityId>)
    requires
        ascending(ks),
    ensures
        ascending(join_scan(tables, cs, ks)),
        forall|i: int|
            0 <= i < join_scan(tables, cs, ks).len() ==> in_all(tables, cs, #[trigger] join_scan(tables, cs, ks)[i])
                && ks.contains(join_scan(tables, cs, ks)[i]),
        forall|e: EntityId|
            ks.contains(e) && in_all(tables, cs, e) ==> exists|i: int|
                0 <= i < join_scan(tables, cs, ks).len() && #[trigger] join_scan(tables, cs, ks)[i] == e,
    decreases ks.len(),
{
    if ks.len() > 0 {
        let pre = ks.drop_last();
        lemma_join_scan(tables, cs, pre);
        let p = join_scan(tables, cs, pre);
        let rows = join_scan(tables, cs, ks);
        let last = ks.last();
        assert forall|i: int| 0 <= i < p.len() implies #[trigger] p[i] < last && ks.contains(p[i]) by {
            let j = choose|j: int| 0 <= j < pre.len() && pre[j] == p[i];
            assert(ks[j] == pre[j]);
        }
        assert forall|e: EntityId| ks.contains(e) && in_all(tables, cs, e) implies exists|i: int|
            0 <= i < rows.len() && #[trigger] rows[i] == e by {
            let j = choose|j: int| 0 <= j < ks.len() && ks[j] == e;
            if j < ks.len() - 1 {
                assert(pre[j] == e);
                assert(pre.contains(e));
                let i = choose|i: int| 0 <= i < p.len() && #[trigger] p[i] == e;
                assert(rows[i] == p[i]);
            } else {
                assert(rows[rows.len() - 1] == e);
            }
        }
        if in_all(tables, cs, last) {
            assert(ks[ks.len() - 1] == last);
        }
    }
}

/// Marking a set of component types twice is marking it once.
pub proof fn lemma_marked_twice(
    dirty: Seq<Seq<DirtyFlags>>,
    queries: Seq<Seq<usize>>,
    comps: Set<nat>,
    ins: bool,
    rem: bool,
)
    ensures
        marked(marked(dirty, queries, comps, ins, rem), queries, comps, ins, rem) == marked(dirty, queries, comps, ins, rem),
{
    let once = marked(dirty, queries, comps, ins, rem);
    let twice = marked(once, queries, comps, ins, rem);
    assert forall|q: int| 0 <= q < dirty.len() implies #[trigger] twice[q] == once[q] by {
        assert(twice[q] =~= once[q]);
    }
    assert(twice =~= once);
}

/// Marking `a` and then `b` is marking their union.
pub proof fn lemma_marked_union(
    dirty: Seq<Seq<DirtyFlags>>,
    queries: Seq<Seq<usize>>,
    a: Set<nat>,
    b: Set<nat>,
    ins: bool,
    rem: bool,
)
    ensures
        marked(marked(dirty, queries, a, ins, rem), queries, b, ins, rem) == marked(dirty, queries, a.union(b), ins, rem),
{
    let l = marked(marked(dirty, queries, a, ins, rem), queries, b, ins, rem);
    let r = marked(dirty, queries, a.union(b), ins, rem);
    assert forall|q: int| 0 <= q < dirty.len() implies #[trigger] l[q] == r[q] by {
        assert(l[q] =~= r[q]);
    }
    assert(l =~= r);
}

/// Marking nothing changes nothing.
pub proof fn lemma_marked_empty(
    dirty: Seq<Seq<DirtyFlags>>,
    queries: Seq<Seq<usize>>,
    ins: bool,
    rem: bool,
)
    ensures
        marked(dirty, queries, Set::empty(), ins, rem) == dirty,
{
    let r = marked(dirty, queries, Set::empty(), ins, rem);
    assert forall|q: int| 0 <= q < dirty.len() implies #[trigger] r[q] == dirty[q] by {
        assert(r[q] =~= dirty[q]);
    }
    assert(r =~= dirty);
}

/// A step that only adds dirty flags, and that shrinks no table of a query
/// unless it leaves that query stale, keeps the cache sound.
pub proof fn lemma_cache_sound_step<V>(m0: EcsModel<V>, m1: EcsModel<V>)
    requires
        m0.cache_sound(),
        m1.queries == m0.queries,
        m1.is_flag == m0.is_flag,
        m1.cache == m0.cache,
        m1.dirty.len() == m0.dirty.len(),
        m0.dirty.len() == m0.queries.len(),
        forall|q: int| 0 <= q < m0.queries.len() ==> (#[trigger] m0.dirty[q]).len() == m0.queries[q].len(),
        forall|q: int| 0 <= q < m0.queries.len() ==> (#[trigger] m1.dirty[q]).len() == m0.dirty[q].len(),
        forall|q: int, k: int|
            0 <= q < m0.queries.len() && 0 <= k < m0.dirty[q].len() ==> (m0.dirty[q][k].insert ==> (#[trigger] m1.dirty[q][k]).insert)
                && (m0.dirty[q][k].remove ==> m1.dirty[q][k].remove),
        forall|q: int|
            0 <= q < m0.queries.len() && !(#[trigger] m1.stale(q)) ==> forall|k: int, e: EntityId|
                0 <= k < m0.queries[q].len() && m0.tables[m0.queries[q][k] as int].contains_key(e)
                    ==> #[trigger] m1.tables[m0.queries[q][k] as int].contains_key(e),
    ensures
        m1.cache_sound(),
{
    assert forall|q: int| 0 <= q < m1.queries.len() && !m1.stale(q) implies {
        &&& ascending(m1.cache[q])
        &&& forall|i: int| 0 <= i < m1.cache[q].len() ==> in_all(m1.tables, m1.queries[q], #[trigger] m1.cache[q][i])
    } by {
        let cs = m0.queries[q];
        assert(!m0.stale(q)) by {
            if m0.stale(q) {
                if exists|k: int| 0 <= k < cs.len() && !m0.is_flag[cs[k] as int] && (#[trigger] m0.dirty[q][k]).insert {
                    let k = choose|k: int| 0 <= k < cs.len() && !m0.is_flag[cs[k] as int] && (#[trigger] m0.dirty[q][k]).insert;
                    assert(m1.dirty[q][k].insert);
                } else if exists|k: int| 0 <= k < cs.len() && (#[trigger] m0.dirty[q][k]).remove {
                    let k = choose|k: int| 0 <= k < cs.len() && (#[trigger] m0.dirty[q][k]).remove;
                    assert(m1.dirty[q][k].remove);
                } else {
                    assert forall|k: int| 0 <= k < cs.len() && m1.is_flag[cs[k] as int] implies (#[trigger] m1.dirty[q][k]).insert by {
                        assert(m0.dirty[q][k].insert);
                    }
                }
            }
        }
        assert forall|i: int| 0 <= i < m1.cache[q].len() implies in_all(m1.tables, m1.queries[q], #[trigger] m1.cache[q][i]) by {
            let e = m1.cache[q][i];
            assert(in_all(m0.tables, cs, e));
            assert forall|k: int| 0 <= k < cs.len() implies (#[trigger] m1.tables[cs[k] as int]).contains_key(e) by {
                assert(m0.tables[cs[k] as int].contains_key(e));
            }
        }
    }
}

} // verus!

verus! {

/// What an insertion does to the dirty flags.
pub proof fn lemma_insert_marks<V>(m: EcsModel<V>, c: int, e: EntityId, v: Option<V>)
    ensures
        m.with_insert(c, e, v).dirty == marked(m.dirty, m.queries, set![c as nat], true, false),
        m.with_insert(c, e, v).queries == m.queries,
{
}

/// What a removal does to the dirty flags.
pub proof fn lemma_remove_marks<V>(m: EcsModel<V>, c: int, e: EntityId)
    ensures
        m.with_remove(c, e).dirty == marked(m.dirty, m.queries, set![c as nat], false, true),
        m.with_remove(c, e).queries == m.queries,
{
}

} // verus!
