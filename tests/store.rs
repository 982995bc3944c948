use ecs_store::bitset::ComponentTypeSet;
use ecs_store::schema::{resolve_names, Schema};
use ecs_store::store::EcsCtx;

// Component types used below: 0 = position (valued), 1 = solid (flag),
// 2 = health (valued). Query 0 joins position with solid.
const POSITION: usize = 0;
const SOLID: usize = 1;
const HEALTH: usize = 2;

fn schema() -> Schema {
    Schema::new(vec![false, true, false], vec![vec![POSITION, SOLID]], vec![false, true]).unwrap()
}

fn ids(ctx: &EcsCtx<i64>, q: usize) -> Vec<u64> {
    ctx.query_results(q).clone()
}

#[test]
fn schema_rejects_bad_queries() {
    assert!(Schema::new(vec![false], vec![vec![]], vec![]).is_none());
    assert!(Schema::new(vec![false], vec![vec![1]], vec![]).is_none());
    assert!(Schema::new(vec![false, true], vec![vec![0, 1], vec![1]], vec![]).is_some());
}

#[test]
fn bitset_membership_and_order() {
    let mut s = ComponentTypeSet::new(130);
    assert!(s.is_empty());
    s.insert(129);
    s.insert(3);
    s.insert(64);
    assert!(s.contains(129) && s.contains(3) && s.contains(64));
    assert!(!s.contains(63));
    assert_eq!(s.to_vec(), vec![3, 64, 129]);
    s.remove(64);
    assert_eq!(s.to_vec(), vec![3, 129]);
    s.clear();
    assert!(s.is_empty());
    assert_eq!(s.to_vec(), Vec::<usize>::new());
}

#[test]
fn insert_get_remove() {
    let mut ctx: EcsCtx<i64> = EcsCtx::new(schema());
    ctx.insert(POSITION, 7, Some(10));
    ctx.insert(SOLID, 7, None);
    assert!(ctx.contains(POSITION, 7));
    assert_eq!(ctx.get(POSITION, 7), Some(&10));
    assert_eq!(ctx.get(SOLID, 7), None);
    assert_eq!(ctx.entry(SOLID, 7), Some(None));
    assert_eq!(ctx.entry(POSITION, 7), Some(Some(&10)));
    assert_eq!(ctx.entry(HEALTH, 7), None);
    ctx.insert(POSITION, 7, Some(11));
    assert_eq!(ctx.get(POSITION, 7), Some(&11));
    assert_eq!(ctx.count(POSITION), 1);
    assert_eq!(ctx.remove(POSITION, 7), Some(Some(11)));
    assert_eq!(ctx.remove(POSITION, 7), None);
    assert_eq!(ctx.remove(SOLID, 7), Some(None));
    assert!(!ctx.contains_any_component(7));
}

#[test]
fn tracker_follows_tables() {
    let mut ctx: EcsCtx<i64> = EcsCtx::new(schema());
    ctx.insert(HEALTH, 1, Some(3));
    ctx.insert(SOLID, 1, None);
    assert_eq!(ctx.component_types(1), vec![SOLID, HEALTH]);
    ctx.remove(HEALTH, 1);
    assert_eq!(ctx.component_types(1), vec![SOLID]);
    assert!(ctx.contains_any_component(1));
    ctx.remove(SOLID, 1);
    assert!(!ctx.contains_any_component(1));
    assert_eq!(ctx.component_types(1), Vec::<usize>::new());
}

#[test]
fn remove_entity_clears_everything() {
    let mut ctx: EcsCtx<i64> = EcsCtx::new(schema());
    ctx.insert(POSITION, 4, Some(1));
    ctx.insert(SOLID, 4, None);
    ctx.insert(HEALTH, 4, Some(9));
    ctx.insert(HEALTH, 5, Some(2));
    ctx.remove_entity(4);
    assert!(!ctx.contains_any_component(4));
    assert!(!ctx.contains(POSITION, 4) && !ctx.contains(SOLID, 4) && !ctx.contains(HEALTH, 4));
    assert_eq!(ctx.get(HEALTH, 5), Some(&2));
    ctx.remove_entity(4);
    assert!(!ctx.contains_any_component(4));
}

#[test]
fn remove_twice_same_as_once() {
    let mut a: EcsCtx<i64> = EcsCtx::new(schema());
    let mut b: EcsCtx<i64> = EcsCtx::new(schema());
    for ctx in [&mut a, &mut b] {
        ctx.insert(POSITION, 2, Some(5));
        ctx.insert(SOLID, 2, None);
    }
    a.remove(POSITION, 2);
    b.remove(POSITION, 2);
    b.remove(POSITION, 2);
    assert_eq!(a.contains(POSITION, 2), b.contains(POSITION, 2));
    assert_eq!(a.component_types(2), b.component_types(2));
    assert_eq!(a.is_stale(0), b.is_stale(0));
}

#[test]
fn move_and_swap_on_store() {
    let mut ctx: EcsCtx<i64> = EcsCtx::new(schema());
    ctx.insert(HEALTH, 1, Some(8));
    ctx.move_component(HEALTH, 1, 2);
    assert_eq!(ctx.get(HEALTH, 1), None);
    assert_eq!(ctx.get(HEALTH, 2), Some(&8));
    ctx.move_component(HEALTH, 1, 2);
    assert_eq!(ctx.get(HEALTH, 2), Some(&8));
    ctx.insert(HEALTH, 3, Some(4));
    ctx.swap(HEALTH, 2, 3);
    assert_eq!(ctx.get(HEALTH, 2), Some(&4));
    assert_eq!(ctx.get(HEALTH, 3), Some(&8));
    ctx.swap(HEALTH, 3, 9);
    assert_eq!(ctx.get(HEALTH, 3), None);
    assert_eq!(ctx.get(HEALTH, 9), Some(&8));
    assert!(!ctx.contains_any_component(3));
    ctx.swap(HEALTH, 9, 9);
    assert_eq!(ctx.get(HEALTH, 9), Some(&8));
}

#[test]
fn join_is_intersection_for_either_driver() {
    let mut ctx: EcsCtx<i64> = EcsCtx::new(schema());
    // more positions than solids: solid drives
    for e in [1u64, 2, 3, 4, 5] {
        ctx.insert(POSITION, e, Some(e as i64 * 10));
    }
    ctx.insert(SOLID, 4, None);
    ctx.insert(SOLID, 2, None);
    ctx.insert(SOLID, 9, None);
    assert_eq!(ctx.driver(0), 1);
    ctx.refresh_query(0);
    assert_eq!(ids(&ctx, 0), vec![2, 4]);
    assert_eq!(ctx.get(POSITION, 2), Some(&20));
    assert_eq!(ctx.get(POSITION, 4), Some(&40));
    // more solids than positions: position drives, same rows
    for e in [10u64, 11, 12, 13, 14, 15] {
        ctx.insert(SOLID, e, None);
    }
    assert_eq!(ctx.driver(0), 0);
    ctx.refresh_query(0);
    assert_eq!(ids(&ctx, 0), vec![2, 4]);
}

#[test]
fn driver_tie_takes_first() {
    let mut ctx: EcsCtx<i64> = EcsCtx::new(schema());
    ctx.insert(POSITION, 1, Some(1));
    ctx.insert(SOLID, 2, None);
    assert_eq!(ctx.driver(0), 0);
}

#[test]
fn empty_query_result() {
    let mut ctx: EcsCtx<i64> = EcsCtx::new(schema());
    ctx.refresh_query(0);
    assert!(ctx.query_results(0).is_empty());
}

#[test]
fn cache_sees_new_entity_once() {
    let mut ctx: EcsCtx<i64> = EcsCtx::new(schema());
    ctx.insert(POSITION, 1, Some(1));
    ctx.insert(SOLID, 1, None);
    ctx.refresh_query(0);
    assert_eq!(ids(&ctx, 0), vec![1]);
    assert!(!ctx.is_stale(0));
    ctx.insert(POSITION, 6, Some(6));
    ctx.insert(SOLID, 6, None);
    assert!(ctx.is_stale(0));
    ctx.refresh_query(0);
    assert_eq!(ids(&ctx, 0), vec![1, 6]);
}

#[test]
fn cache_drops_entity_after_removal() {
    let mut ctx: EcsCtx<i64> = EcsCtx::new(schema());
    ctx.insert(POSITION, 1, Some(1));
    ctx.insert(SOLID, 1, None);
    ctx.insert(POSITION, 2, Some(2));
    ctx.insert(SOLID, 2, None);
    ctx.refresh_query(0);
    assert_eq!(ids(&ctx, 0), vec![1, 2]);
    ctx.remove(SOLID, 1);
    ctx.refresh_query(0);
    assert_eq!(ids(&ctx, 0), vec![2]);
}

#[test]
fn single_flag_insert_keeps_cache() {
    // Query 0 joins a valued component with two flags. Inserting one of the
    // flags alone does not mark the cache stale, so a row that it completes
    // stays out until something else invalidates the cache.
    let s = Schema::new(vec![false, true, true], vec![vec![0, 1, 2]], vec![]).unwrap();
    let mut ctx: EcsCtx<i64> = EcsCtx::new(s);
    ctx.insert(0, 1, Some(1));
    ctx.insert(1, 1, None);
    ctx.insert(2, 1, None);
    ctx.insert(0, 2, Some(2));
    ctx.insert(1, 2, None);
    ctx.refresh_query(0);
    assert_eq!(ids(&ctx, 0), vec![1]);
    ctx.insert(2, 2, None);
    assert!(!ctx.is_stale(0));
    ctx.refresh_query(0);
    assert_eq!(ids(&ctx, 0), vec![1]);
    // a valued insertion marks it stale again
    ctx.insert(0, 2, Some(3));
    assert!(ctx.is_stale(0));
    ctx.refresh_query(0);
    assert_eq!(ids(&ctx, 0), vec![1, 2]);
    assert_eq!(ctx.get(0, 2), Some(&3));
}

#[test]
fn flag_only_query_needs_every_flag() {
    let s = Schema::new(vec![true, true], vec![vec![0, 1]], vec![]).unwrap();
    let mut ctx: EcsCtx<i64> = EcsCtx::new(s);
    ctx.refresh_query(0);
    ctx.insert(0, 3, None);
    assert!(!ctx.is_stale(0));
    ctx.insert(1, 3, None);
    assert!(ctx.is_stale(0));
    ctx.refresh_query(0);
    assert_eq!(ids(&ctx, 0), vec![3]);
}

// Two queries over the same valued and flag components.
fn shared_schema() -> Schema {
    Schema::new(vec![false, true], vec![vec![0, 1], vec![0, 1]], vec![]).unwrap()
}

#[test]
fn reading_one_query_keeps_the_other_stale_after_insert() {
    let mut ctx: EcsCtx<i64> = EcsCtx::new(shared_schema());
    ctx.refresh_query(0);
    assert!(ids(&ctx, 0).is_empty());
    ctx.insert(0, 5, Some(1));
    ctx.insert(1, 5, None);
    ctx.refresh_query(1);
    assert_eq!(ids(&ctx, 1), vec![5]);
    assert!(ctx.is_stale(0));
    ctx.refresh_query(0);
    assert_eq!(ids(&ctx, 0), vec![5]);
}

#[test]
fn reading_one_query_keeps_the_other_stale_after_removal() {
    let mut ctx: EcsCtx<i64> = EcsCtx::new(shared_schema());
    ctx.insert(0, 5, Some(1));
    ctx.insert(1, 5, None);
    ctx.refresh_query(0);
    assert_eq!(ids(&ctx, 0), vec![5]);
    ctx.remove(0, 5);
    ctx.refresh_query(1);
    assert!(ids(&ctx, 1).is_empty());
    ctx.refresh_query(0);
    assert!(ids(&ctx, 0).is_empty());
}

#[test]
fn remove_entity_drops_it_from_fresh_caches() {
    let mut ctx: EcsCtx<i64> = EcsCtx::new(shared_schema());
    ctx.insert(0, 5, Some(1));
    ctx.insert(1, 5, None);
    ctx.insert(0, 6, Some(2));
    ctx.insert(1, 6, None);
    ctx.refresh_query(0);
    ctx.refresh_query(1);
    ctx.remove_entity(5);
    ctx.refresh_query(1);
    ctx.refresh_query(0);
    assert_eq!(ids(&ctx, 0), vec![6]);
    assert_eq!(ids(&ctx, 1), vec![6]);
}

#[test]
fn get_mut_writes_payload_in_place() {
    let mut ctx: EcsCtx<i64> = EcsCtx::new(schema());
    ctx.insert(POSITION, 3, Some(1));
    ctx.insert(SOLID, 3, None);
    ctx.refresh_query(0);
    if let Some(v) = ctx.get_mut(POSITION, 3) {
        *v = 42;
    }
    assert_eq!(ctx.get(POSITION, 3), Some(&42));
    assert!(ctx.get_mut(SOLID, 3).is_none());
    assert!(ctx.get_mut(POSITION, 4).is_none());
    assert!(!ctx.is_stale(0));
    assert_eq!(ids(&ctx, 0), vec![3]);
}

#[test]
fn payloads_need_not_be_copy() {
    let s = Schema::new(vec![false, true], vec![vec![0, 1]], vec![]).unwrap();
    let mut ctx: EcsCtx<String> = EcsCtx::new(s);
    ctx.insert(0, 1, Some("north".to_string()));
    ctx.insert(1, 1, None);
    if let Some(name) = ctx.get_mut(0, 1) {
        name.push_str("-east");
    }
    assert_eq!(ctx.get(0, 1).map(|n| n.as_str()), Some("north-east"));
    ctx.move_component(0, 1, 2);
    assert_eq!(ctx.remove(0, 2), Some(Some("north-east".to_string())));
}

#[test]
fn names_resolve_to_first_position() {
    let names: Vec<String> = vec!["health".to_string(), "position".to_string(), "solid".to_string()];
    let q = vec!["solid".to_string(), "health".to_string()];
    assert_eq!(resolve_names(&names, &q), Some(vec![2, 0]));
    let dup: Vec<String> = vec!["a".to_string(), "a".to_string()];
    assert_eq!(resolve_names(&dup, &vec!["a".to_string()]), Some(vec![0]));
    assert_eq!(resolve_names(&names, &vec!["velocity".to_string()]), None);
    assert_eq!(resolve_names(&names, &Vec::new()), Some(Vec::new()));
}
