//! Staged batches of edits: insertions, removals, moves and swaps recorded
//! per component type, plus properties attached to the whole batch.
use vstd::prelude::*;
use std::collections::{BTreeMap, BTreeSet};
use vstd::std_specs::iter::IteratorSpec;
use crate::{ComponentType, EntityId};
use crate::bitset::{ComponentTypeSet, words_for};
use crate::model::{
    ActionModel, Change, EcsModel, ProfileModel, apply_insertions, apply_moves, apply_removals, apply_swaps,
    change_of, commit_component, commit_upto, deref_change, deref_entry, lemma_insert_marks, lemma_marked_twice, lemma_prefix_push, lemma_remove_marks,
    marked, move_sources, move_targets, pair_ids, preview_of, swap_partners,
};
use crate::table::collect_keys;
use crate::schema::{MAX_TYPES, Schema};
use crate::store::EcsCtx;

verus! {

broadcast use vstd::std_specs::btree::group_btree_axioms, vstd::laws_cmp::group_laws_cmp;

proof fn lemma_pair_ids_push(s: Seq<(EntityId, EntityId)>, x: (EntityId, EntityId))
    ensures
        pair_ids(s.push(x)) == pair_ids(s).insert(x.0).insert(x.1),
{
    let t = s.push(x);
    assert forall|e: EntityId| pair_ids(t).contains(e) <==> pair_ids(s).insert(x.0).insert(x.1).contains(e) by {
        if pair_ids(s).contains(e) {
            let i = choose|i: int| 0 <= i < s.len() && ((#[trigger] s[i]).0 == e || s[i].1 == e);
            assert(t[i] == s[i]);
        }
        if e == x.0 || e == x.1 {
            assert(t[s.len() as int] == x);
        }
        if pair_ids(t).contains(e) {
            let i = choose|i: int| 0 <= i < t.len() && ((#[trigger] t[i]).0 == e || t[i].1 == e);
            if i < s.len() {
                assert(t[i] == s[i]);
            }
        }
    }
    assert(pair_ids(t) =~= pair_ids(s).insert(x.0).insert(x.1));
}

/// The edits staged for one component type. The lookup maps index the swap
/// and move lists by entity.
pub struct ActionProfile<V> {
    insertions: BTreeMap<EntityId, Option<V>>,
    removals: BTreeSet<EntityId>,
    swap_lookup: BTreeMap<EntityId, EntityId>,
    swaps: Vec<(EntityId, EntityId)>,
    move_from: BTreeMap<EntityId, EntityId>,
    move_to: BTreeMap<EntityId, EntityId>,
    moves: Vec<(EntityId, EntityId)>,
    changed_entities: BTreeSet<EntityId>,
}

impl<V> View for ActionProfile<V> {
    type V = ProfileModel<V>;

    closed spec fn view(&self) -> ProfileModel<V> {
        ProfileModel {
            insertions: self.insertions@,
            removals: self.removals@,
            swaps: self.swaps@,
            moves: self.moves@,
        }
    }
}

impl<V> ActionProfile<V> {
    /// The lookup maps and the changed-entity set agree with the staged lists.
    pub closed spec fn wf(&self) -> bool {
        &&& self.swap_lookup@ == swap_partners(self.swaps@)
        &&& self.move_from@ == move_targets(self.moves@)
        &&& self.move_to@ == move_sources(self.moves@)
        &&& self.changed_entities@ == self@.changed_entities()
    }

    /// The entities that any staged edit names.
    pub closed spec fn changed(&self) -> Set<EntityId> {
        self.changed_entities@
    }

    fn new() -> (r: Self)
        ensures
            r.wf(),
            r@ == ProfileModel::<V>::empty(),
    {
        let r = ActionProfile {
            insertions: BTreeMap::new(),
            removals: BTreeSet::new(),
            swap_lookup: BTreeMap::new(),
            swaps: Vec::new(),
            move_from: BTreeMap::new(),
            move_to: BTreeMap::new(),
            moves: Vec::new(),
            changed_entities: BTreeSet::new(),
        };
        proof {
            assert(pair_ids(Seq::<(EntityId, EntityId)>::empty()) =~= Set::<EntityId>::empty());
            assert(r@.changed_entities() =~= Set::<EntityId>::empty());
        }
        r
    }

    fn clear(&mut self)
        ensures
            final(self).wf(),
            final(self)@ == ProfileModel::<V>::empty(),
    {
        self.insertions.clear();
        self.removals.clear();
        self.swap_lookup.clear();
        self.swaps.clear();
        self.move_from.clear();
        self.move_to.clear();
        self.moves.clear();
        self.changed_entities.clear();
        proof {
            assert(pair_ids(Seq::<(EntityId, EntityId)>::empty()) =~= Set::<EntityId>::empty());
            assert(self@.changed_entities() =~= Set::<EntityId>::empty());
        }
    }

    fn stage_insert(&mut self, e: EntityId, v: Option<V>)
        requires
            old(self).wf(),
        ensures
            final(self).wf(),
            final(self)@ == old(self)@.with_insertion(e, v),
    {
        self.insertions.insert(e, v);
        self.changed_entities.insert(e);
        assert(self@.changed_entities() =~= old(self)@.changed_entities().insert(e));
    }

    fn stage_remove(&mut self, e: EntityId)
        requires
            old(self).wf(),
        ensures
            final(self).wf(),
            final(self)@ == old(self)@.with_removal(e),
    {
        self.removals.insert(e);
        self.changed_entities.insert(e);
        assert(self@.changed_entities() =~= old(self)@.changed_entities().insert(e));
    }

    fn stage_swap(&mut self, a: EntityId, b: EntityId)
        requires
            old(self).wf(),
        ensures
            final(self).wf(),
            final(self)@ == old(self)@.with_swap(a, b),
    {
        self.swap_lookup.insert(a, b);
        self.swap_lookup.insert(b, a);
        self.swaps.push((a, b));
        self.changed_entities.insert(a);
        self.changed_entities.insert(b);
        proof {
            let s = old(self).swaps@;
            assert(self.swaps@.drop_last() == s);
            lemma_pair_ids_push(s, (a, b));
            assert(self@.changed_entities() =~= old(self)@.changed_entities().insert(a).insert(b));
        }
    }

    fn stage_move(&mut self, src: EntityId, dst: EntityId)
        requires
            old(self).wf(),
        ensures
            final(self).wf(),
            final(self)@ == old(self)@.with_move(src, dst),
    {
        self.move_from.insert(src, dst);
        self.move_to.insert(dst, src);
        self.moves.push((src, dst));
        self.changed_entities.insert(src);
        self.changed_entities.insert(dst);
        proof {
            let s = old(self).moves@;
            assert(self.moves@.drop_last() == s);
            lemma_pair_ids_push(s, (src, dst));
            assert(self@.changed_entities() =~= old(self)@.changed_entities().insert(src).insert(dst));
        }
    }
}

/// A batch of staged edits, applied to a store by [`EcsCtx::commit`].
pub struct EcsAction<V> {
    is_flag: Vec<bool>,
    property_is_flag: Vec<bool>,
    profiles: Vec<ActionProfile<V>>,
    changed_components: ComponentTypeSet,
    properties: Vec<Option<Option<V>>>,
}

impl<V> View for EcsAction<V> {
    type V = ActionModel<V>;

    closed spec fn view(&self) -> ActionModel<V> {
        ActionModel {
            is_flag: self.is_flag@,
            property_flags: self.property_is_flag@,
            profiles: self.profiles@.map_values(|p: ActionProfile<V>| p@),
            properties: self.properties@,
        }
    }
}

impl<V> EcsAction<V> {
    /// The action's invariant: one well-formed profile per component type,
    /// payload kinds that match the schema, and a changed-component set that
    /// names every component with a staged edit.
    pub closed spec fn wf(&self) -> bool {
        let n = self.is_flag@.len();
        &&& n <= MAX_TYPES
        &&& self.profiles@.len() == n
        &&& self.properties@.len() == self.property_is_flag@.len()
        &&& self.changed_components.capacity() == words_for(n as nat) * 64
        &&& forall|c: int| 0 <= c < n ==> (#[trigger] self.profiles@[c]).wf()
        &&& forall|c: int|
            0 <= c < n && !self.changed_components@.contains(c as nat) ==> #[trigger] self.profiles@[c]@
                == ProfileModel::<V>::empty()
        &&& forall|c: int, e: EntityId|
            0 <= c < n && #[trigger] self.profiles@[c]@.insertions.contains_key(e) ==> (
            self.profiles@[c]@.insertions[e] is Some <==> !self.is_flag@[c])
        &&& forall|p: int|
            0 <= p < self.properties@.len() && #[trigger] self.properties@[p] is Some ==> (
            self.properties@[p].unwrap() is Some <==> !self.property_is_flag@[p])
    }

    /// The entities that the edits staged for component `c` name.
    pub closed spec fn changed_entities(&self, c: int) -> Set<EntityId> {
        self.profiles@[c].changed()
    }

    /// Every staged edit of component `c` names an entity of the
    /// changed-entity set, and every member of that set is named by one.
    pub proof fn lemma_changed_entities(&self, c: int)
        requires
            self.wf(),
            0 <= c < self@.profiles.len(),
        ensures
            self.changed_entities(c) == self@.profiles[c].changed_entities(),
    {
        assert(self.profiles@[c].wf());
    }

    /// Stages giving entity `e` component `c` with payload `value` (`None` for
    /// a flag component); a later staging for the same entity replaces it.
    pub fn insert(&mut self, c: ComponentType, e: EntityId, value: Option<V>)
        requires
            old(self).wf(),
            c < old(self)@.profiles.len(),
            value is Some <==> !old(self)@.is_flag[c as int],
        ensures
            final(self).wf(),
            final(self)@ == old(self)@.with_profile(c as int, old(self)@.profiles[c as int].with_insertion(e, value)),
    {
        self.profiles[c].stage_insert(e, value);
        self.changed_components.insert(c);
        proof {
            assert(self@.profiles =~= old(self)@.profiles.update(c as int, old(self)@.profiles[c as int].with_insertion(e, value)));
            assert forall|c2: int, e2: EntityId|
                0 <= c2 < self.is_flag@.len() && #[trigger] self.profiles@[c2]@.insertions.contains_key(e2) implies (
                self.profiles@[c2]@.insertions[e2] is Some <==> !self.is_flag@[c2]) by {
                if c2 != c {
                    assert(self.profiles@[c2] == old(self).profiles@[c2]);
                }
            }
        }
    }

    /// Stages taking component `c` away from entity `e`.
    pub fn remove(&mut self, c: ComponentType, e: EntityId)
        requires
            old(self).wf(),
            c < old(self)@.profiles.len(),
        ensures
            final(self).wf(),
            final(self)@ == old(self)@.with_profile(c as int, old(self)@.profiles[c as int].with_removal(e)),
    {
        self.profiles[c].stage_remove(e);
        self.changed_components.insert(c);
        proof {
            assert(self@.profiles =~= old(self)@.profiles.update(c as int, old(self)@.profiles[c as int].with_removal(e)));
            assert forall|c2: int, e2: EntityId|
                0 <= c2 < self.is_flag@.len() && #[trigger] self.profiles@[c2]@.insertions.contains_key(e2) implies (
                self.profiles@[c2]@.insertions[e2] is Some <==> !self.is_flag@[c2]) by {
                if c2 != c {
                    assert(self.profiles@[c2] == old(self).profiles@[c2]);
                } else {
                    assert(self.profiles@[c2]@.insertions == old(self).profiles@[c2]@.insertions);
                }
            }
        }
    }

    /// Stages transferring component `c` from `src` to `dst`.
    pub fn move_component(&mut self, c: ComponentType, src: EntityId, dst: EntityId)
        requires
            old(self).wf(),
            c < old(self)@.profiles.len(),
        ensures
            final(self).wf(),
            final(self)@ == old(self)@.with_profile(c as int, old(self)@.profiles[c as int].with_move(src, dst)),
    {
        self.profiles[c].stage_move(src, dst);
        self.changed_components.insert(c);
        proof {
            assert(self@.profiles =~= old(self)@.profiles.update(c as int, old(self)@.profiles[c as int].with_move(src, dst)));
            assert forall|c2: int, e2: EntityId|
                0 <= c2 < self.is_flag@.len() && #[trigger] self.profiles@[c2]@.insertions.contains_key(e2) implies (
                self.profiles@[c2]@.insertions[e2] is Some <==> !self.is_flag@[c2]) by {
                if c2 != c {
                    assert(self.profiles@[c2] == old(self).profiles@[c2]);
                } else {
                    assert(self.profiles@[c2]@.insertions == old(self).profiles@[c2]@.insertions);
                }
            }
        }
    }

    /// Stages exchanging component `c` between `a` and `b`.
    pub fn swap(&mut self, c: ComponentType, a: EntityId, b: EntityId)
        requires
            old(self).wf(),
            c < old(self)@.profiles.len(),
        ensures
            final(self).wf(),
            final(self)@ == old(self)@.with_profile(c as int, old(self)@.profiles[c as int].with_swap(a, b)),
    {
        self.profiles[c].stage_swap(a, b);
        self.changed_components.insert(c);
        proof {
            assert(self@.profiles =~= old(self)@.profiles.update(c as int, old(self)@.profiles[c as int].with_swap(a, b)));
            assert forall|c2: int, e2: EntityId|
                0 <= c2 < self.is_flag@.len() && #[trigger] self.profiles@[c2]@.insertions.contains_key(e2) implies (
                self.profiles@[c2]@.insertions[e2] is Some <==> !self.is_flag@[c2]) by {
                if c2 != c {
                    assert(self.profiles@[c2] == old(self).profiles@[c2]);
                } else {
                    assert(self.profiles@[c2]@.insertions == old(self).profiles@[c2]@.insertions);
                }
            }
        }
    }

    /// Stages a removal of every component that entity `e` holds in `ecs` now.
    pub fn remove_entity(&mut self, e: EntityId, ecs: &EcsCtx<V>)
        requires
            old(self).wf(),
            ecs.wf(),
            ecs@.tables.len() == old(self)@.profiles.len(),
        ensures
            final(self).wf(),
            final(self)@.is_flag == old(self)@.is_flag,
            final(self)@.property_flags == old(self)@.property_flags,
            final(self)@.properties == old(self)@.properties,
            final(self)@.profiles == Seq::new(
                old(self)@.profiles.len(),
                |c: int|
                    if ecs@.has(c, e) {
                        old(self)@.profiles[c].with_removal(e)
                    } else {
                        old(self)@.profiles[c]
                    },
            ),
    {
        let cs = ecs.component_types(e);
        let ghost a0 = self@;
        let ghost n = a0.profiles.len();
        let mut i: usize = 0;
        assert(a0.profiles =~= Seq::new(
            n,
            |c: int|
                if cs@.subrange(0, 0).contains(c as usize) {
                    a0.profiles[c].with_removal(e)
                } else {
                    a0.profiles[c]
                },
        ));
        while i < cs.len()
            invariant
                self.wf(),
                0 <= i <= cs@.len(),
                a0 == old(self)@,
                n == a0.profiles.len(),
                n == ecs@.tables.len(),
                forall|k1: int, k2: int| 0 <= k1 < k2 < cs@.len() ==> cs@[k1] < cs@[k2],
                forall|k: int| 0 <= k < cs@.len() ==> ecs@.entity_types(e).contains(#[trigger] cs@[k] as nat),
                forall|c: nat| ecs@.entity_types(e).contains(c) ==> exists|k: int| 0 <= k < cs@.len() && cs@[k] == c,
                self@.is_flag == a0.is_flag,
                self@.property_flags == a0.property_flags,
                self@.properties == a0.properties,
                self@.profiles == Seq::new(
                    n,
                    |c: int|
                        if cs@.subrange(0, i as int).contains(c as usize) {
                            a0.profiles[c].with_removal(e)
                        } else {
                            a0.profiles[c]
                        },
                ),
            decreases cs@.len() - i,
        {
            let c = cs[i];
            assert(ecs@.entity_types(e).contains(c as nat));
            let ghost prev = cs@.subrange(0, i as int);
            let ghost next = cs@.subrange(0, i + 1);
            assert(!prev.contains(c)) by {
                if prev.contains(c) {
                    let j = choose|j: int| 0 <= j < prev.len() && prev[j] == c;
                    assert(cs@[j] == c);
                }
            }
            self.remove(c, e);
            proof {
                lemma_prefix_push(cs@, i as int);
                assert(self@.profiles =~= Seq::new(
                    n,
                    |c2: int|
                        if next.contains(c2 as usize) {
                            a0.profiles[c2].with_removal(e)
                        } else {
                            a0.profiles[c2]
                        },
                ));
            }
            i = i + 1;
        }
        proof {
            assert(cs@.subrange(0, i as int) == cs@);
            assert forall|c: int| 0 <= c < n implies (cs@.contains(c as usize) <==> #[trigger] ecs@.has(c, e)) by {
                if ecs@.has(c, e) {
                    assert(ecs@.entity_types(e).contains(c as nat));
                }
            }
            assert(self@.profiles =~= Seq::new(
                n,
                |c: int|
                    if ecs@.has(c, e) {
                        a0.profiles[c].with_removal(e)
                    } else {
                        a0.profiles[c]
                    },
            ));
        }
    }

    /// Sets action property `p` with payload `value` (`None` for a flag
    /// property).
    pub fn set_property(&mut self, p: usize, value: Option<V>)
        requires
            old(self).wf(),
            p < old(self)@.properties.len(),
            value is Some <==> !old(self)@.property_flags[p as int],
        ensures
            final(self).wf(),
            final(self)@ == old(self)@.with_property(p as int, Some(value)),
    {
        self.properties.set(p, Some(value));
    }

    /// Unsets action property `p`.
    pub fn clear_property(&mut self, p: usize)
        requires
            old(self).wf(),
            p < old(self)@.properties.len(),
        ensures
            final(self).wf(),
            final(self)@ == old(self)@.with_property(p as int, None),
    {
        self.properties.set(p, None);
    }

    /// Whether action property `p` is set.
    pub fn contains_property(&self, p: usize) -> (r: bool)
        requires
            self.wf(),
            p < self@.properties.len(),
        ensures
            r == self@.properties[p as int] is Some,
    {
        self.properties[p].is_some()
    }

    /// The payload of valued action property `p`, if it is set.
    pub fn property(&self, p: usize) -> (r: Option<&V>)
        requires
            self.wf(),
            p < self@.properties.len(),
        ensures
            r is Some <==> self@.properties[p as int] matches Some(Some(_)),
            r is Some ==> self@.properties[p as int] == Some(Some(*r.unwrap())),
    {
        match &self.properties[p] {
            Some(Some(v)) => Some(v),
            _ => None,
        }
    }

    /// Discards every staged edit and unsets every property.
    pub fn clear(&mut self)
        requires
            old(self).wf(),
        ensures
            final(self).wf(),
            final(self)@.is_flag == old(self)@.is_flag,
            final(self)@.property_flags == old(self)@.property_flags,
            final(self)@.profiles.len() == old(self)@.profiles.len(),
            final(self)@.properties.len() == old(self)@.properties.len(),
            final(self)@.is_clear(),
    {
        let n = self.profiles.len();
        let mut c: usize = 0;
        while c < n
            invariant
                self.wf(),
                n == self.profiles@.len(),
                c <= n,
                self@.is_flag == old(self)@.is_flag,
                self@.property_flags == old(self)@.property_flags,
                self@.properties == old(self)@.properties,
                forall|k: int| 0 <= k < c ==> (#[trigger] self.profiles@[k])@ == ProfileModel::<V>::empty(),
            decreases n - c,
        {
            if self.changed_components.contains(c) {
                self.profiles[c].clear();
            }
            c = c + 1;
        }
        self.changed_components.clear();
        self.clear_properties();
        proof {
            assert forall|k: int| 0 <= k < self@.profiles.len() implies #[trigger] self@.profiles[k] == ProfileModel::<V>::empty() by {
                assert(self.profiles@[k]@ == ProfileModel::<V>::empty());
            }
        }
    }

    fn clear_properties(&mut self)
        requires
            old(self).wf(),
        ensures
            final(self).wf(),
            final(self)@.is_flag == old(self)@.is_flag,
            final(self)@.property_flags == old(self)@.property_flags,
            final(self)@.profiles == old(self)@.profiles,
            final(self).profiles == old(self).profiles,
            final(self).changed_components == old(self).changed_components,
            final(self)@.properties.len() == old(self)@.properties.len(),
            forall|p: int| 0 <= p < final(self)@.properties.len() ==> (#[trigger] final(self)@.properties[p]) is None,
    {
        let np = self.properties.len();
        let mut p: usize = 0;
        while p < np
            invariant
                self.wf(),
                np == self.properties@.len(),
                p <= np,
                self.is_flag == old(self).is_flag,
                self.property_is_flag == old(self).property_is_flag,
                self.profiles == old(self).profiles,
                self.changed_components == old(self).changed_components,
                forall|k: int| 0 <= k < p ==> (#[trigger] self.properties@[k]) is None,
            decreases np - p,
        {
            self.properties.set(p, None);
            p = p + 1;
        }
    }

    /// An empty action for `schema`.
    pub fn new(schema: &Schema) -> (r: Self)
        requires
            schema.valid(),
        ensures
            r.wf(),
            r@.is_flag == schema.flags(),
            r@.property_flags == schema.property_flags(),
            r@.profiles.len() == schema.flags().len(),
            r@.properties.len() == schema.property_flags().len(),
            r@.is_clear(),
    {
        let n = schema.num_components();
        let np = schema.num_properties();
        let mut is_flag: Vec<bool> = Vec::new();
        let mut profiles: Vec<ActionProfile<V>> = Vec::new();
        let mut c: usize = 0;
        while c < n
            invariant
                n == schema.flags().len(),
                c <= n,
                is_flag@ == schema.flags().subrange(0, c as int),
                profiles@.len() == c,
                forall|k: int| 0 <= k < c ==> (#[trigger] profiles@[k]).wf() && profiles@[k]@ == ProfileModel::<V>::empty(),
            decreases n - c,
        {
            is_flag.push(schema.is_flag(c));
            profiles.push(ActionProfile::new());
            proof {
                assert(schema.flags().subrange(0, c + 1) == schema.flags().subrange(0, c as int).push(schema.flags()[c as int]));
            }
            c = c + 1;
        }
        assert(schema.flags().subrange(0, n as int) == schema.flags());
        let mut property_is_flag: Vec<bool> = Vec::new();
        let mut properties: Vec<Option<Option<V>>> = Vec::new();
        let mut p: usize = 0;
        while p < np
            invariant
                np == schema.property_flags().len(),
                p <= np,
                property_is_flag@ == schema.property_flags().subrange(0, p as int),
                properties@.len() == p,
                forall|k: int| 0 <= k < p ==> (#[trigger] properties@[k]) is None,
            decreases np - p,
        {
            property_is_flag.push(schema.property_is_flag(p));
            properties.push(None);
            proof {
                assert(schema.property_flags().subrange(0, p + 1) == schema.property_flags().subrange(0, p as int).push(
                    schema.property_flags()[p as int],
                ));
            }
            p = p + 1;
        }
        assert(schema.property_flags().subrange(0, np as int) == schema.property_flags());
        let r = EcsAction {
            is_flag,
            property_is_flag,
            profiles,
            changed_components: ComponentTypeSet::new(n),
            properties,
        };
        proof {
            assert forall|c: int| 0 <= c < r@.profiles.len() implies #[trigger] r@.profiles[c] == ProfileModel::<V>::empty() by {
                assert(r.profiles@[c]@ == ProfileModel::<V>::empty());
            }
        }
        r
    }
}


/// Committing an empty profile changes nothing.
proof fn lemma_commit_empty<V>(m: EcsModel<V>, c: int)
    requires
        0 <= c < m.tables.len(),
    ensures
        commit_component(m, c, ProfileModel::empty()) == m,
{
    let e = ProfileModel::<V>::empty();
    assert(m.tables[c].union_prefer_right(e.insertions) =~= m.tables[c]);
    let m1 = apply_insertions(m, c, e.insertions);
    assert(m1.tables =~= m.tables);
    assert(m1.tables[c].remove_keys(e.removals) =~= m1.tables[c]);
    let m2 = apply_removals(m1, c, e.removals);
    assert(m2.tables =~= m.tables);
}

/// Applies the edits of `p` to table `c` of `ecs` (insertions, then
/// removals, then swaps, then moves), moving the staged payloads out of `p`,
/// and leaves `p` empty.
fn apply_profile<V>(ecs: &mut EcsCtx<V>, c: ComponentType, p: &mut ActionProfile<V>)
    requires
        old(ecs).wf(),
        old(p).wf(),
        c < old(ecs)@.tables.len(),
        forall|e: EntityId| #[trigger] old(p)@.insertions.contains_key(e) ==> (old(p)@.insertions[e] is Some <==> !old(ecs)@.is_flag[c as int]),
    ensures
        final(ecs).wf(),
        final(ecs)@ == commit_component(old(ecs)@, c as int, old(p)@),
        final(p).wf(),
        final(p)@ == ProfileModel::<V>::empty(),
        final(ecs)@.is_flag == old(ecs)@.is_flag,
        final(ecs)@.tables.len() == old(ecs)@.tables.len(),
{
    let ghost m0 = ecs@;
    let ghost p0 = p@;
    let ghost ins = p0.insertions;
    let ghost cset = set![(c as int) as nat];
    let keys = collect_keys(&p.insertions);
    let mut i: usize = 0;
    assert(ins.restrict(keys@.subrange(0, 0).to_set()) =~= Map::<EntityId, Option<V>>::empty());
    assert(m0.tables[c as int].union_prefer_right(Map::<EntityId, Option<V>>::empty()) =~= m0.tables[c as int]);
    assert(m0.tables.update(c as int, m0.tables[c as int].union_prefer_right(ins.restrict(keys@.subrange(0, 0).to_set())))
        =~= m0.tables);
    assert(p@.insertions =~= ins.remove_keys(keys@.subrange(0, 0).to_set()));
    while i < keys.len()
        invariant
            ecs.wf(),
            cset == set![(c as int) as nat],
            0 <= i <= keys@.len(),
            c < m0.tables.len(),
            keys@.to_set() == ins.dom(),
            crate::model::ascending(keys@),
            ins == p0.insertions,
            p@.removals == p0.removals,
            p@.swaps == p0.swaps,
            p@.moves == p0.moves,
            p@.insertions == ins.remove_keys(keys@.subrange(0, i as int).to_set()),
            m0.is_flag == ecs@.is_flag,
            forall|e: EntityId| #[trigger] ins.contains_key(e) ==> (ins[e] is Some <==> !m0.is_flag[c as int]),
            ecs@.is_flag == m0.is_flag,
            ecs@.queries == m0.queries,
            ecs@.cache == m0.cache,
            ecs@.tables == m0.tables.update(c as int, m0.tables[c as int].union_prefer_right(ins.restrict(keys@.subrange(0, i as int).to_set()))),
            ecs@.dirty == if i > 0 { marked(m0.dirty, m0.queries, cset, true, false) } else { m0.dirty },
        decreases keys@.len() - i,
    {
        let e = keys[i];
        proof {
            lemma_prefix_push(keys@, i as int);
            assert(keys@.to_set().contains(e));
            assert(!keys@.subrange(0, i as int).contains(e)) by {
                if keys@.subrange(0, i as int).contains(e) {
                    let j = choose|j: int| 0 <= j < i && keys@.subrange(0, i as int)[j] == e;
                    assert(keys@[j] < keys@[i as int]);
                }
            }
        }
        assert(p@.insertions.contains_key(e));
        let ghost d_before = ecs@.dirty;
        let ghost s_before = ecs@;
        let v = p.insertions.remove(&e);
        assert(v is Some);
        match v {
            Some(x) => {
                ecs.insert(c, e, x);
            },
            None => {},
        }
        proof {
            let prev = ins.restrict(keys@.subrange(0, i as int).to_set());
            let next = ins.restrict(keys@.subrange(0, i + 1).to_set());
            assert(next =~= prev.insert(e, ins[e]));
            assert(m0.tables[c as int].union_prefer_right(next) =~= m0.tables[c as int].union_prefer_right(prev).insert(e, ins[e]));
            assert(ecs@.tables =~= m0.tables.update(c as int, m0.tables[c as int].union_prefer_right(next)));
            lemma_marked_twice(m0.dirty, m0.queries, cset, true, false);
            lemma_insert_marks(s_before, c as int, e, ins[e]);
            assert(ecs@ == s_before.with_insert(c as int, e, ins[e]));
            assert(ecs@.dirty == marked(d_before, m0.queries, cset, true, false));
            assert(p@.insertions =~= ins.remove_keys(keys@.subrange(0, i + 1).to_set()));
        }
        i = i + 1;
    }
    proof {
        assert(keys@.subrange(0, i as int) == keys@);
        assert(ins.restrict(ins.dom()) =~= ins);
        if i > 0 {
            assert(ins.contains_key(keys@[0]));
        } else {
            assert(!exists|e: EntityId| ins.contains_key(e)) by {
                assert(keys@ =~= Seq::<EntityId>::empty());
            }
        }
        assert(ecs@ == apply_insertions(m0, c as int, ins));
    }
    let ghost m1 = ecs@;
    let ghost rem = p0.removals;
    let ghost rraw = vstd::std_specs::btree::spec_btree_keys_iter(&p.removals).remaining();
    let ghost rs = rraw.unref();
    assert(rs.to_set() == rem);
    assert(m1.tables[c as int].remove_keys(rs.subrange(0, 0).to_set()) =~= m1.tables[c as int]);
    assert(m1.tables.update(c as int, m1.tables[c as int].remove_keys(rs.subrange(0, 0).to_set())) =~= m1.tables);
    for k in it: p.removals.iter()
        invariant
            ecs.wf(),
            cset == set![(c as int) as nat],
            c < m1.tables.len(),
            rem == p@.removals,
            it.seq().unref() == rs,
            rs.to_set() == rem,
            ecs@.is_flag == m1.is_flag,
            ecs@.queries == m1.queries,
            ecs@.cache == m1.cache,
            ecs@.tables == m1.tables.update(c as int, m1.tables[c as int].remove_keys(rs.subrange(0, it.index() as int).to_set())),
            ecs@.dirty == if it.index() > 0 { marked(m1.dirty, m1.queries, cset, false, true) } else { m1.dirty },
    {
        let ghost i = it.index();
        let e = *k;
        assert(rs[i] == e);
        let ghost d_before = ecs@.dirty;
        let ghost s_before = ecs@;
        ecs.remove(c, e);
        proof {
            lemma_remove_marks(s_before, c as int, e);
        }
        assert(ecs@.dirty == marked(d_before, m1.queries, cset, false, true));
        proof {
            lemma_prefix_push(rs, i);
            let prev = rs.subrange(0, i).to_set();
            let next = rs.subrange(0, i + 1).to_set();
            assert(m1.tables[c as int].remove_keys(next) =~= m1.tables[c as int].remove_keys(prev).remove(e));
            assert(ecs@.tables =~= m1.tables.update(c as int, m1.tables[c as int].remove_keys(next)));
            lemma_marked_twice(m1.dirty, m1.queries, cset, false, true);
        }
    }
    proof {
        assert(rs.subrange(0, rs.len() as int) == rs);
        if rs.len() > 0 {
            assert(rs.to_set().contains(rs[0]));
        } else {
            assert(!exists|e: EntityId| rem.contains(e)) by {
                assert(rs =~= Seq::<EntityId>::empty());
            }
        }
        assert(ecs@ == apply_removals(m1, c as int, rem));
    }
    let ghost m2 = ecs@;
    assert(m2.tables.len() == m0.tables.len());
    let mut i: usize = 0;
    assert(p.swaps@.subrange(0, 0) =~= Seq::<(EntityId, EntityId)>::empty());
    while i < p.swaps.len()
        invariant
            ecs.wf(),
            c < m2.tables.len(),
            ecs@.tables.len() == m2.tables.len(),
            ecs@.is_flag == m0.is_flag,
            i <= p.swaps@.len(),
            p@.swaps == p0.swaps,
            p@.moves == p0.moves,
            ecs@ == apply_swaps(m2, c as int, p.swaps@.subrange(0, i as int)),
        decreases p.swaps@.len() - i,
    {
        let (a, b) = p.swaps[i];
        ecs.swap(c, a, b);
        assert(p.swaps@.subrange(0, i + 1).drop_last() == p.swaps@.subrange(0, i as int));
        i = i + 1;
    }
    assert(p.swaps@.subrange(0, i as int) == p.swaps@);
    let ghost m3 = ecs@;
    let mut i: usize = 0;
    assert(p.moves@.subrange(0, 0) =~= Seq::<(EntityId, EntityId)>::empty());
    while i < p.moves.len()
        invariant
            ecs.wf(),
            c < m3.tables.len(),
            ecs@.tables.len() == m3.tables.len(),
            ecs@.is_flag == m0.is_flag,
            m3.tables.len() == m0.tables.len(),
            i <= p.moves@.len(),
            p@.moves == p0.moves,
            ecs@ == apply_moves(m3, c as int, p.moves@.subrange(0, i as int)),
        decreases p.moves@.len() - i,
    {
        let (src, dst) = p.moves[i];
        ecs.move_component(c, src, dst);
        assert(p.moves@.subrange(0, i + 1).drop_last() == p.moves@.subrange(0, i as int));
        i = i + 1;
    }
    assert(p.moves@.subrange(0, i as int) == p.moves@);
    p.clear();
}

impl<V> EcsCtx<V> {
    /// Applies every edit staged in `action`, component type by component
    /// type (insertions, then removals, then swaps, then moves), and leaves
    /// `action` empty for reuse.
    pub fn commit(&mut self, action: &mut EcsAction<V>)
        requires
            old(self).wf(),
            old(action).wf(),
            old(action)@.is_flag == old(self)@.is_flag,
        ensures
            final(self).wf(),
            final(self)@ == old(self)@.with_commit(old(action)@.profiles),
            final(action).wf(),
            final(action)@.is_flag == old(action)@.is_flag,
            final(action)@.property_flags == old(action)@.property_flags,
            final(action)@.profiles.len() == old(action)@.profiles.len(),
            final(action)@.properties.len() == old(action)@.properties.len(),
            final(action)@.is_clear(),
    {
        let ghost m0 = self@;
        let ghost a0 = action@;
        proof {
            self.lemma_shape();
            crate::bitset::lemma_words_for(a0.is_flag.len());
        }
        let n = action.profiles.len();
        let mut c: usize = 0;
        while c < n
            invariant
                self.wf(),
                action.wf(),
                n == a0.profiles.len(),
                n == m0.tables.len(),
                c <= n,
                a0 == old(action)@,
                m0 == old(self)@,
                action@.is_flag == a0.is_flag,
                action@.property_flags == a0.property_flags,
                action@.properties == a0.properties,
                m0.is_flag == a0.is_flag,
                self@.is_flag == m0.is_flag,
                self@.tables.len() == n,
                action.is_flag@.len() == n,
                action.changed_components.capacity() >= n,
                forall|k: int| 0 <= k < c ==> (#[trigger] action@.profiles[k]) == ProfileModel::<V>::empty(),
                forall|k: int| c <= k < n ==> (#[trigger] action@.profiles[k]) == a0.profiles[k],
                self@ == commit_upto(m0, a0.profiles, c as int),
            decreases n - c,
        {
            let ghost ap = action@.profiles;
            assert(ap[c as int] == a0.profiles[c as int]);
            if action.changed_components.contains(c) {
                proof {
                    assert(action.profiles@[c as int].wf());
                    assert(forall|e: EntityId| #[trigger] action.profiles@[c as int]@.insertions.contains_key(e) ==> (
                        action.profiles@[c as int]@.insertions[e] is Some <==> !self@.is_flag[c as int]));
                }
                apply_profile(self, c, &mut action.profiles[c]);
                assert(action@.profiles =~= ap.update(c as int, ProfileModel::<V>::empty()));
            } else {
                proof {
                    assert(action.profiles@[c as int]@ == ProfileModel::<V>::empty());
                    lemma_commit_empty(self@, c as int);
                }
            }
            c = c + 1;
        }
        action.changed_components.clear();
        assert forall|k: int| 0 <= k < n implies (#[trigger] action.profiles@[k])@ == ProfileModel::<V>::empty() by {
            assert(action@.profiles[k] == ProfileModel::<V>::empty());
        }
        action.clear_properties();
    }
}

/// A read-only preview of one entity as it would be once an action is
/// committed to a store; neither is changed.
pub struct PostActionEntityRef<'a, V> {
    pub id: EntityId,
    pub ecs: &'a EcsCtx<V>,
    pub action: &'a EcsAction<V>,
}

impl<'a, V> PostActionEntityRef<'a, V> {
    /// The store and the action are well formed and made for one schema.
    pub open spec fn ready(&self) -> bool {
        &&& self.ecs.wf()
        &&& self.action.wf()
        &&& self.action@.is_flag == self.ecs@.is_flag
    }

    pub fn id(&self) -> (r: EntityId)
        ensures
            r == self.id,
    {
        self.id
    }

    /// The live entry of component `c` for this entity.
    pub fn current(&self, c: ComponentType) -> (r: Option<Option<&'a V>>)
        requires
            self.ready(),
            c < self.ecs@.tables.len(),
        ensures
            deref_entry(r) == self.ecs@.tables[c as int].get(self.id),
    {
        self.ecs.entry(c, self.id)
    }

    /// The change the action makes to component `c` of this entity, by the
    /// first rule that applies: explicit insertion, explicit removal, swap,
    /// move in, move out.
    pub fn change(&self, c: ComponentType) -> (r: Option<Change<&'a V>>)
        requires
            self.ready(),
            c < self.ecs@.tables.len(),
        ensures
            deref_change(r) == change_of(self.ecs@.tables[c as int], self.action@.profiles[c as int], self.id),
    {
        proof {
            self.ecs.lemma_shape();
        }
        let p = &self.action.profiles[c];
        assert(p.wf());
        let id = self.id;
        match p.insertions.get(&id) {
            Some(v) => {
                return Some(Change::Insert(v.as_ref()));
            },
            None => {},
        }
        if p.removals.contains(&id) {
            return Some(Change::Remove);
        }
        match p.swap_lookup.get(&id) {
            Some(other) => {
                return match self.ecs.entry(c, *other) {
                    Some(v) => Some(Change::Insert(v)),
                    None => Some(Change::Remove),
                };
            },
            None => {},
        }
        match p.move_to.get(&id) {
            Some(src) => {
                match self.ecs.entry(c, *src) {
                    Some(v) => {
                        return Some(Change::Insert(v));
                    },
                    None => {},
                }
            },
            None => {},
        }
        if p.move_from.contains_key(&id) {
            return Some(Change::Remove);
        }
        None
    }

    /// The entry of component `c` for this entity once the action is
    /// committed, as previewed: the change if there is one, else the live
    /// entry.
    pub fn value(&self, c: ComponentType) -> (r: Option<Option<&'a V>>)
        requires
            self.ready(),
            c < self.ecs@.tables.len(),
        ensures
            deref_entry(r) == preview_of(self.ecs@.tables[c as int], self.action@.profiles[c as int], self.id),
    {
        match self.change(c) {
            Some(Change::Insert(v)) => Some(v),
            Some(Change::Remove) => None,
            None => self.current(c),
        }
    }

    /// Whether this entity holds component `c` once the action is committed,
    /// as previewed.
    pub fn contains(&self, c: ComponentType) -> (r: bool)
        requires
            self.ready(),
            c < self.ecs@.tables.len(),
        ensures
            r == preview_of(self.ecs@.tables[c as int], self.action@.profiles[c as int], self.id) is Some,
    {
        self.value(c).is_some()
    }
}

impl<V> EcsCtx<V> {
    /// A preview of entity `id` as it would be once `action` is committed.
    pub fn post_action_entity<'a>(&'a self, id: EntityId, action: &'a EcsAction<V>) -> (r: PostActionEntityRef<'a, V>)
        requires
            self.wf(),
            action.wf(),
            action@.is_flag == self@.is_flag,
        ensures
            r.id == id,
            r.ecs == self,
            r.action == action,
            r.ready(),
    {
        PostActionEntityRef { id, ecs: self, action }
    }
}

} // verus!
