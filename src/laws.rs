//! Properties that relate several operations of the store, proved over its
//! model.
use vstd::prelude::*;
use crate::EntityId;
use crate::model::{
    Change, EcsModel, ProfileModel, apply_insertions, apply_moves, apply_removals, apply_swaps, ascending, change_of,
    commit_component, in_all, is_join_result, join_scan, lemma_join_scan, lemma_marked_twice, marked,
};
use crate::schema::valid_queries;

verus! {

/// After `remove_entity(e)` the entity holds no component.
pub proof fn lemma_remove_entity_clears<V>(m: EcsModel<V>, e: EntityId)
    ensures
        m.with_entity_removed(e).entity_types(e) == Set::<nat>::empty(),
        forall|c: int| 0 <= c < m.tables.len() ==> !(#[trigger] m.with_entity_removed(e).has(c, e)),
{
    let r = m.with_entity_removed(e);
    assert(r.entity_types(e) =~= Set::<nat>::empty());
}

/// Removing a component twice leaves the same state as removing it once.
pub proof fn lemma_remove_idempotent<V>(m: EcsModel<V>, c: int, e: EntityId)
    requires
        0 <= c < m.tables.len(),
    ensures
        m.with_remove(c, e).with_remove(c, e) == m.with_remove(c, e),
{
    let once = m.with_remove(c, e);
    let twice = once.with_remove(c, e);
    assert(twice.tables[c] =~= once.tables[c]);
    assert(twice.tables =~= once.tables);
    lemma_marked_twice(m.dirty, m.queries, set![c as nat], false, true);
}

proof fn lemma_join_ids_agree<V>(tables: Seq<Map<EntityId, Option<V>>>, cs: Seq<usize>, r1: Seq<EntityId>, r2: Seq<EntityId>, i: int)
    requires
        is_join_result(tables, cs, r1),
        is_join_result(tables, cs, r2),
        0 <= i <= r1.len(),
        i <= r2.len(),
    ensures
        forall|k: int| 0 <= k < i ==> r1[k] == r2[k],
    decreases i,
{
    if i > 0 {
        let k = i - 1;
        lemma_join_ids_agree(tables, cs, r1, r2, k);
        let x = r1[k];
        let y = r2[k];
        assert(in_all(tables, cs, r1[k]));
        assert(in_all(tables, cs, r2[k]));
        let j2 = choose|j: int| 0 <= j < r2.len() && #[trigger] r2[j] == x;
        let j1 = choose|j: int| 0 <= j < r1.len() && #[trigger] r1[j] == y;
        if j2 < k {
            assert(r1[j2] == r2[j2]);
        }
        if j1 < k {
            assert(r1[j1] == r2[j1]);
        }
    }
}

/// There is only one join result: two row lists that both satisfy
/// `is_join_result` are equal, so the rows of a query do not depend on how
/// they were found.
pub proof fn lemma_join_result_unique<V>(tables: Seq<Map<EntityId, Option<V>>>, cs: Seq<usize>, r1: Seq<EntityId>, r2: Seq<EntityId>)
    requires
        is_join_result(tables, cs, r1),
        is_join_result(tables, cs, r2),
    ensures
        r1 == r2,
{
    let n = if r1.len() < r2.len() { r1.len() } else { r2.len() };
    lemma_join_ids_agree(tables, cs, r1, r2, n as int);
    if r1.len() > n {
        assert(in_all(tables, cs, r1[n as int]));
        let j = choose|j: int| 0 <= j < r2.len() && #[trigger] r2[j] == r1[n as int];
        assert(r1[j] == r2[j]);
    }
    if r2.len() > n {
        assert(in_all(tables, cs, r2[n as int]));
        let j = choose|j: int| 0 <= j < r1.len() && #[trigger] r1[j] == r2[n as int];
        assert(r1[j] == r2[j]);
    }
    assert(r1 =~= r2);
}

proof fn lemma_scan_is_join<V>(tables: Seq<Map<EntityId, Option<V>>>, cs: Seq<usize>, k: int, ks: Seq<EntityId>)
    requires
        0 <= k < cs.len(),
        ascending(ks),
        ks.to_set() == tables[cs[k] as int].dom(),
    ensures
        is_join_result(tables, cs, join_scan(tables, cs, ks)),
{
    lemma_join_scan(tables, cs, ks);
    let rows = join_scan(tables, cs, ks);
    assert forall|e: EntityId| in_all(tables, cs, e) implies exists|i: int| 0 <= i < rows.len() && #[trigger] rows[i] == e by {
        assert(tables[cs[k] as int].contains_key(e));
        assert(ks.to_set().contains(e));
    }
}

/// Scanning the entities of any one required component in ascending order,
/// keeping those that hold every other required component, yields the join;
/// so the choice of driver leaves the rows unchanged.
pub proof fn lemma_any_driver_gives_join<V>(
    tables: Seq<Map<EntityId, Option<V>>>,
    cs: Seq<usize>,
    k1: int,
    ks1: Seq<EntityId>,
    k2: int,
    ks2: Seq<EntityId>,
)
    requires
        0 <= k1 < cs.len(),
        0 <= k2 < cs.len(),
        ascending(ks1),
        ascending(ks2),
        ks1.to_set() == tables[cs[k1] as int].dom(),
        ks2.to_set() == tables[cs[k2] as int].dom(),
    ensures
        is_join_result(tables, cs, join_scan(tables, cs, ks1)),
        join_scan(tables, cs, ks1) == join_scan(tables, cs, ks2),
{
    lemma_scan_is_join(tables, cs, k1, ks1);
    lemma_scan_is_join(tables, cs, k2, ks2);
    lemma_join_result_unique(tables, cs, join_scan(tables, cs, ks1), join_scan(tables, cs, ks2));
}

/// One call on the store, as the cache laws below see it.
pub enum Step<V> {
    /// `insert(c, e, v)`.
    Insert(usize, EntityId, Option<V>),
    /// `refresh_query(q)` that found these rows when it had to rebuild.
    Read(usize, Seq<EntityId>),
}

/// The store after `steps`, in order.
pub open spec fn run<V>(m: EcsModel<V>, steps: Seq<Step<V>>) -> EcsModel<V>
    decreases steps.len(),
{
    if steps.len() == 0 {
        m
    } else {
        let p = run(m, steps.drop_last());
        match steps.last() {
            Step::Insert(c, e, v) => p.with_insert(c as int, e, v),
            Step::Read(q, ids) => if p.stale(q as int) {
                p.with_refreshed(q as int, ids)
            } else {
                p
            },
        }
    }
}

/// One cache per query, and one pair of dirty flags per required component
/// of each query.
pub open spec fn dirty_shaped<V>(m: EcsModel<V>) -> bool {
    &&& m.dirty.len() == m.queries.len()
    &&& m.cache.len() == m.queries.len()
    &&& forall|q: int| 0 <= q < m.queries.len() ==> (#[trigger] m.dirty[q]).len() == m.queries[q].len()
}

/// Each step is an insertion on `e` or a read of a query other than `q`.
pub open spec fn steps_for<V>(m: EcsModel<V>, q: int, e: EntityId, steps: Seq<Step<V>>) -> bool {
    forall|i: int|
        0 <= i < steps.len() ==> match #[trigger] steps[i] {
            Step::Insert(c, x, _) => x == e && c < m.tables.len(),
            Step::Read(p, _) => p != q && p < m.queries.len(),
        }
}

/// The step inserts component `c`.
pub open spec fn inserts_at<V>(s: Step<V>, c: usize) -> bool {
    match s {
        Step::Insert(c2, _, _) => c2 == c,
        Step::Read(_, _) => false,
    }
}

/// The step reads a declared query other than `q`.
pub open spec fn reads_other<V>(s: Step<V>, q: int, nq: nat) -> bool {
    match s {
        Step::Read(p, _) => p != q && p < nq,
        Step::Insert(_, _, _) => false,
    }
}

/// `steps` insert component `c` on some entity.
pub open spec fn inserts_component<V>(steps: Seq<Step<V>>, c: usize) -> bool {
    exists|i: int| 0 <= i < steps.len() && inserts_at(#[trigger] steps[i], c)
}

#[verifier::spinoff_prover]
#[verifier::rlimit(50)]
proof fn lemma_run_inserts<V>(m: EcsModel<V>, q: int, e: EntityId, steps: Seq<Step<V>>)
    requires
        0 <= q < m.queries.len(),
        dirty_shaped(m),
        steps_for(m, q, e, steps),
    ensures
        run(m, steps).tables.len() == m.tables.len(),
        run(m, steps).queries == m.queries,
        run(m, steps).is_flag == m.is_flag,
        dirty_shaped(run(m, steps)),
        forall|k: int|
            0 <= k < m.queries[q].len() && inserts_component(steps, m.queries[q][k]) ==> (#[trigger] run(m, steps).dirty[q][k]).insert
                && run(m, steps).has(m.queries[q][k] as int, e),
    decreases steps.len(),
{
    if steps.len() > 0 {
        let pre = steps.drop_last();
        assert(steps_for(m, q, e, pre)) by {
            assert forall|i: int| 0 <= i < pre.len() implies match #[trigger] pre[i] {
                Step::Insert(c, x, _) => x == e && c < m.tables.len(),
                Step::Read(p, _) => p != q && p < m.queries.len(),
            } by {
                assert(pre[i] == steps[i]);
            }
        }
        lemma_run_inserts(m, q, e, pre);
        let p = run(m, pre);
        let r = run(m, steps);
        let cs = m.queries[q];
        assert(steps[steps.len() - 1] == steps.last());
        match steps.last() {
            Step::Insert(c, x, v) => {
                assert(r.dirty =~= marked(p.dirty, p.queries, set![c as nat], true, false));
                assert forall|j: int| 0 <= j < m.queries.len() implies (#[trigger] r.dirty[j]).len() == m.queries[j].len() by {}
            },
            Step::Read(pq, ids) => {
                assert(pq < m.queries.len() && pq != q);
                assert forall|j: int| 0 <= j < m.queries.len() implies (#[trigger] r.dirty[j]).len() == m.queries[j].len() by {
                    assert(p.dirty[j].len() == m.queries[j].len());
                }
            },
        }
        assert forall|k: int| 0 <= k < m.queries[q].len() && inserts_component(steps, m.queries[q][k]) implies (#[trigger] run(m, steps).dirty[q][k]).insert
            && run(m, steps).has(m.queries[q][k] as int, e) by {
            let i = choose|i: int| 0 <= i < steps.len() && inserts_at(#[trigger] steps[i], cs[k]);
            if i < steps.len() - 1 {
                assert(pre[i] == steps[i]);
                assert(inserts_component(pre, cs[k]));
                assert(p.dirty[q][k].insert);
                assert(p.has(cs[k] as int, e));
                match steps.last() {
                    Step::Insert(c, x, v) => {},
                    Step::Read(pq, ids) => {
                        assert(pq != q);
                    },
                }
            } else {
                match steps.last() {
                    Step::Insert(c, x, v) => {
                        assert(c == cs[k] && x == e);
                    },
                    Step::Read(pq, ids) => {},
                }
            }
        }
        assert(r.tables.len() == m.tables.len());
        assert(dirty_shaped(r));
    } else {
        assert(run(m, steps) == m);
        assert(forall|c: usize| !inserts_component(steps, c));
    }
}

/// An entity given every component that query `q` requires, while other
/// queries may be read in between, shows up exactly once the next time `q`
/// is read.
pub proof fn lemma_cache_sees_new_entity<V>(m: EcsModel<V>, q: int, e: EntityId, steps: Seq<Step<V>>, ids: Seq<EntityId>)
    requires
        0 <= q < m.queries.len(),
        valid_queries(m.tables.len(), m.queries),
        dirty_shaped(m),
        steps_for(m, q, e, steps),
        forall|k: int| 0 <= k < m.queries[q].len() ==> inserts_component(steps, #[trigger] m.queries[q][k]),
        run(m, steps).query_result(q, ids),
    ensures
        exists|i: int| 0 <= i < ids.len() && #[trigger] ids[i] == e && forall|j: int| 0 <= j < ids.len() && #[trigger] ids[j] == e ==> j == i,
{
    lemma_run_inserts(m, q, e, steps);
    let r = run(m, steps);
    let cs = m.queries[q];
    assert(r.stale(q)) by {
        assert forall|k: int| 0 <= k < cs.len() && r.is_flag[cs[k] as int] implies (#[trigger] r.dirty[q][k]).insert by {
            assert(inserts_component(steps, cs[k]));
        }
    }
    assert(in_all(r.tables, cs, e)) by {
        assert forall|k: int| 0 <= k < cs.len() implies (#[trigger] r.tables[cs[k] as int]).contains_key(e) by {
            assert(inserts_component(steps, cs[k]));
            assert(r.dirty[q][k].insert);
        }
    }
    let i = choose|i: int| 0 <= i < ids.len() && #[trigger] ids[i] == e;
    assert forall|j: int| 0 <= j < ids.len() && #[trigger] ids[j] == e implies j == i by {
        if j < i {
            assert(ids[j] < ids[i]);
        }
        if i < j {
            assert(ids[i] < ids[j]);
        }
    }
}

/// Every step is a read of a query other than `q`.
pub open spec fn reads_of_others<V>(m: EcsModel<V>, q: int, steps: Seq<Step<V>>) -> bool {
    forall|i: int| 0 <= i < steps.len() ==> reads_other(#[trigger] steps[i], q, m.queries.len())
}

proof fn lemma_reads_keep<V>(m: EcsModel<V>, q: int, steps: Seq<Step<V>>)
    requires
        0 <= q < m.queries.len(),
        dirty_shaped(m),
        reads_of_others(m, q, steps),
    ensures
        run(m, steps).tables == m.tables,
        run(m, steps).queries == m.queries,
        run(m, steps).is_flag == m.is_flag,
        run(m, steps).dirty[q] == m.dirty[q],
        run(m, steps).cache[q] == m.cache[q],
        dirty_shaped(run(m, steps)),
    decreases steps.len(),
{
    if steps.len() > 0 {
        let pre = steps.drop_last();
        assert(reads_of_others(m, q, pre)) by {
            assert forall|i: int| 0 <= i < pre.len() implies reads_other(#[trigger] pre[i], q, m.queries.len()) by {
                assert(pre[i] == steps[i]);
            }
        }
        lemma_reads_keep(m, q, pre);
        assert(steps[steps.len() - 1] == steps.last());
    }
}

/// After an entity loses a component that query `q` requires, the next read
/// of `q` leaves it out, whatever other queries were read in between.
pub proof fn lemma_cache_drops_removed_entity<V>(
    m: EcsModel<V>,
    q: int,
    k: int,
    e: EntityId,
    steps: Seq<Step<V>>,
    ids: Seq<EntityId>,
)
    requires
        0 <= q < m.queries.len(),
        valid_queries(m.tables.len(), m.queries),
        dirty_shaped(m),
        0 <= k < m.queries[q].len(),
        reads_of_others(m, q, steps),
        run(m.with_remove(m.queries[q][k] as int, e), steps).query_result(q, ids),
    ensures
        forall|i: int| 0 <= i < ids.len() ==> #[trigger] ids[i] != e,
{
    let cs = m.queries[q];
    let m1 = m.with_remove(cs[k] as int, e);
    assert(dirty_shaped(m1)) by {
        assert forall|j: int| 0 <= j < m.queries.len() implies (#[trigger] m1.dirty[j]).len() == m.queries[j].len() by {}
    }
    assert(reads_of_others(m1, q, steps));
    lemma_reads_keep(m1, q, steps);
    let r = run(m1, steps);
    assert(r.dirty[q][k].remove);
    assert(r.stale(q));
    assert forall|i: int| 0 <= i < ids.len() implies #[trigger] ids[i] != e by {
        assert(in_all(r.tables, cs, ids[i]));
        assert(r.tables[cs[k] as int].contains_key(ids[i]));
    }
}

/// After `remove_entity(e)`, the next read of any query leaves `e` out,
/// whatever other queries were read in between.
pub proof fn lemma_cache_drops_removed_whole_entity<V>(m: EcsModel<V>, q: int, e: EntityId, steps: Seq<Step<V>>, ids: Seq<EntityId>)
    requires
        0 <= q < m.queries.len(),
        valid_queries(m.tables.len(), m.queries),
        dirty_shaped(m),
        m.cache_sound(),
        reads_of_others(m, q, steps),
        run(m.with_entity_removed(e), steps).query_result(q, ids),
    ensures
        forall|i: int| 0 <= i < ids.len() ==> #[trigger] ids[i] != e,
{
    let cs = m.queries[q];
    let m1 = m.with_entity_removed(e);
    assert(dirty_shaped(m1)) by {
        assert forall|j: int| 0 <= j < m.queries.len() implies (#[trigger] m1.dirty[j]).len() == m.queries[j].len() by {}
    }
    assert(reads_of_others(m1, q, steps));
    lemma_reads_keep(m1, q, steps);
    let r = run(m1, steps);
    assert(cs.len() > 0);
    assert(!r.has(cs[0] as int, e));
    if r.stale(q) {
        assert forall|i: int| 0 <= i < ids.len() implies #[trigger] ids[i] != e by {
            assert(in_all(r.tables, cs, ids[i]));
        }
    } else {
        if exists|k: int| 0 <= k < cs.len() && m.has(#[trigger] cs[k] as int, e) {
            let k = choose|k: int| 0 <= k < cs.len() && m.has(#[trigger] cs[k] as int, e);
            assert(m.entity_types(e).contains(cs[k] as nat));
            assert(r.dirty[q][k].remove);
        } else {
            assert(r.dirty[q] =~= m.dirty[q]) by {
                assert forall|k: int| 0 <= k < cs.len() implies #[trigger] r.dirty[q][k] == m.dirty[q][k] by {
                    assert(!m.entity_types(e).contains(cs[k] as nat));
                }
            }
            assert(!m.stale(q));
            assert forall|i: int| 0 <= i < ids.len() implies #[trigger] ids[i] != e by {
                assert(ids[i] == m.cache[q][i]);
                assert(in_all(m.tables, cs, m.cache[q][i]));
                assert(m.tables[cs[0] as int].contains_key(ids[i]));
            }
        }
    }
}

proof fn lemma_prelude_untouched<V>(m: EcsModel<V>, c: int, p: ProfileModel<V>)
    requires
        0 <= c < m.tables.len(),
        p.insertions == Map::<EntityId, Option<V>>::empty(),
        p.removals == Set::<EntityId>::empty(),
    ensures
        apply_removals(apply_insertions(m, c, p.insertions), c, p.removals).tables == m.tables,
{
    assert(m.tables[c].union_prefer_right(p.insertions) =~= m.tables[c]);
    let m1 = apply_insertions(m, c, p.insertions);
    assert(m1.tables =~= m.tables);
    assert(m1.tables[c].remove_keys(p.removals) =~= m1.tables[c]);
    assert(apply_removals(m1, c, p.removals).tables =~= m.tables);
}

/// Committing a lone swap between an entity that holds a component and one
/// that lacks it hands the payload over and leaves the first without it.
pub proof fn lemma_commit_swap_hands_over<V>(m: EcsModel<V>, c: int, a: EntityId, b: EntityId)
    requires
        0 <= c < m.tables.len(),
        a != b,
        m.has(c, a),
        !m.has(c, b),
    ensures
        !commit_component(m, c, ProfileModel::empty().with_swap(a, b)).has(c, a),
        commit_component(m, c, ProfileModel::empty().with_swap(a, b)).tables[c].get(b) == Some(m.tables[c][a]),
{
    let p = ProfileModel::<V>::empty().with_swap(a, b);
    lemma_prelude_untouched(m, c, p);
    let m1 = apply_removals(apply_insertions(m, c, p.insertions), c, p.removals);
    assert(p.swaps.drop_last() =~= Seq::<(EntityId, EntityId)>::empty());
    assert(apply_swaps(m1, c, p.swaps.drop_last()) == m1);
    assert(p.swaps.last() == (a, b));
    assert(apply_swaps(m1, c, p.swaps) == m1.with_swap(c, a, b));
    assert(p.moves =~= Seq::<(EntityId, EntityId)>::empty());
}

/// Committing a lone move from an entity that holds a component to another
/// entity transfers the component.
pub proof fn lemma_commit_move_transfers<V>(m: EcsModel<V>, c: int, a: EntityId, b: EntityId)
    requires
        0 <= c < m.tables.len(),
        a != b,
        m.has(c, a),
    ensures
        !commit_component(m, c, ProfileModel::empty().with_move(a, b)).has(c, a),
        commit_component(m, c, ProfileModel::empty().with_move(a, b)).tables[c].get(b) == Some(m.tables[c][a]),
{
    let p = ProfileModel::<V>::empty().with_move(a, b);
    lemma_prelude_untouched(m, c, p);
    let m1 = apply_removals(apply_insertions(m, c, p.insertions), c, p.removals);
    assert(p.moves.drop_last() =~= Seq::<(EntityId, EntityId)>::empty());
    assert(p.swaps =~= Seq::<(EntityId, EntityId)>::empty());
    assert(apply_swaps(m1, c, p.swaps) == m1);
    assert(apply_moves(m1, c, p.moves.drop_last()) == m1);
    assert(p.moves.last() == (a, b));
    assert(apply_moves(m1, c, p.moves) == m1.with_move(c, a, b));
}

/// Insertions are applied before moves: staging an insertion for `e` and a
/// move out of `e` ends with the payload on the destination and none on `e`.
pub proof fn lemma_commit_insert_then_move<V>(m: EcsModel<V>, c: int, e: EntityId, e2: EntityId, v: Option<V>)
    requires
        0 <= c < m.tables.len(),
        e != e2,
    ensures
        !commit_component(m, c, ProfileModel::empty().with_insertion(e, v).with_move(e, e2)).has(c, e),
        commit_component(m, c, ProfileModel::empty().with_insertion(e, v).with_move(e, e2)).tables[c].get(e2) == Some(v),
{
    let p = ProfileModel::<V>::empty().with_insertion(e, v).with_move(e, e2);
    assert(p.insertions =~= Map::<EntityId, Option<V>>::empty().insert(e, v));
    let m0 = apply_insertions(m, c, p.insertions);
    assert(m0.tables[c].contains_key(e) && m0.tables[c][e] == v);
    assert(m0.tables[c].remove_keys(p.removals) =~= m0.tables[c]);
    let m1 = apply_removals(m0, c, p.removals);
    assert(m1.tables[c] == m0.tables[c]);
    assert(p.moves.drop_last() =~= Seq::<(EntityId, EntityId)>::empty());
    assert(p.swaps =~= Seq::<(EntityId, EntityId)>::empty());
    assert(apply_swaps(m1, c, p.swaps) == m1);
    assert(apply_moves(m1, c, p.moves.drop_last()) == m1);
    assert(p.moves.last() == (e, e2));
    assert(apply_moves(m1, c, p.moves) == m1.with_move(c, e, e2));
}

/// In the post-action view an explicit removal outranks every swap and move
/// that names the entity; only an explicit insertion outranks it.
pub proof fn lemma_removal_outranks_swap<V>(entries: Map<EntityId, Option<V>>, p: ProfileModel<V>, e: EntityId)
    requires
        p.removals.contains(e),
        !p.insertions.contains_key(e),
    ensures
        change_of(entries, p, e) == Some(Change::<V>::Remove),
{
}

} // verus!
