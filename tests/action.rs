use ecs_store::model::Change;
use ecs_store::action::EcsAction;
use ecs_store::schema::Schema;
use ecs_store::store::EcsCtx;

// 0 = value (valued), 1 = marker (flag); properties: 0 = valued, 1 = flag.
const C: usize = 0;
const F: usize = 1;

fn setup() -> (EcsCtx<i64>, EcsAction<i64>) {
    let schema = Schema::new(vec![false, true], vec![vec![C, F]], vec![false, true]).unwrap();
    let action = EcsAction::new(&schema);
    (EcsCtx::new(schema), action)
}

#[test]
fn swap_moves_value_to_empty_partner() {
    let (mut ctx, mut action) = setup();
    let (a, b) = (1u64, 2u64);
    ctx.insert(C, a, Some(5));
    action.swap(C, a, b);
    ctx.commit(&mut action);
    assert!(!ctx.contains(C, a));
    assert_eq!(ctx.get(C, b), Some(&5));
}

#[test]
fn swap_exchanges_two_values() {
    let (mut ctx, mut action) = setup();
    ctx.insert(C, 1, Some(5));
    ctx.insert(C, 2, Some(6));
    action.swap(C, 1, 2);
    ctx.commit(&mut action);
    assert_eq!(ctx.get(C, 1), Some(&6));
    assert_eq!(ctx.get(C, 2), Some(&5));
}

#[test]
fn swap_of_two_absent_entities_is_a_no_op() {
    let (mut ctx, mut action) = setup();
    action.swap(C, 1, 2);
    ctx.commit(&mut action);
    assert!(!ctx.contains(C, 1) && !ctx.contains(C, 2));
}

#[test]
fn move_transfers_flag() {
    let (mut ctx, mut action) = setup();
    let (a, b) = (3u64, 4u64);
    ctx.insert(F, a, None);
    action.move_component(F, a, b);
    ctx.commit(&mut action);
    assert!(!ctx.contains(F, a));
    assert!(ctx.contains(F, b));
}

#[test]
fn move_from_absent_source_leaves_destination() {
    let (mut ctx, mut action) = setup();
    ctx.insert(C, 4, Some(1));
    action.move_component(C, 3, 4);
    ctx.commit(&mut action);
    assert_eq!(ctx.get(C, 4), Some(&1));
}

#[test]
fn explicit_removal_outranks_swap() {
    let (mut ctx, mut action) = setup();
    let (e, partner) = (1u64, 2u64);
    ctx.insert(C, partner, Some(9));
    action.remove(C, e);
    action.swap(C, partner, e);
    let view = ctx.post_action_entity(e, &action);
    assert_eq!(view.change(C), Some(Change::Remove));
    assert_eq!(view.value(C), None);
}

#[test]
fn explicit_insertion_outranks_swap() {
    let (mut ctx, mut action) = setup();
    ctx.insert(C, 2, Some(9));
    action.insert(C, 1, Some(4));
    action.swap(C, 2, 1);
    let view = ctx.post_action_entity(1, &action);
    assert_eq!(view.change(C), Some(Change::Insert(Some(&4))));
    assert_eq!(view.value(C), Some(Some(&4)));
    assert_eq!(view.current(C), None);
}

#[test]
fn post_action_view_of_swap_move_and_untouched() {
    let (mut ctx, mut action) = setup();
    ctx.insert(C, 1, Some(7));
    ctx.insert(C, 5, Some(3));
    ctx.insert(F, 8, None);
    action.swap(C, 1, 2);
    action.move_component(F, 8, 9);
    action.move_component(C, 6, 7);
    let v1 = ctx.post_action_entity(1, &action);
    assert_eq!(v1.change(C), Some(Change::Remove));
    let v2 = ctx.post_action_entity(2, &action);
    assert_eq!(v2.change(C), Some(Change::Insert(Some(&7))));
    assert_eq!(v2.value(C), Some(Some(&7)));
    let v8 = ctx.post_action_entity(8, &action);
    assert_eq!(v8.change(F), Some(Change::Remove));
    assert!(!v8.contains(F));
    let v9 = ctx.post_action_entity(9, &action);
    assert_eq!(v9.change(F), Some(Change::Insert(None)));
    assert!(v9.contains(F));
    // moving from an entity without the component falls through
    let v7 = ctx.post_action_entity(7, &action);
    assert_eq!(v7.change(C), None);
    let v5 = ctx.post_action_entity(5, &action);
    assert_eq!(v5.change(C), None);
    assert_eq!(v5.value(C), Some(Some(&3)));
    assert_eq!(v5.id(), 5);
    // the preview changed nothing
    assert_eq!(ctx.get(C, 1), Some(&7));
    assert!(!ctx.contains(C, 2));
}

#[test]
fn insert_then_move_out_ends_without_component() {
    let (mut ctx, mut action) = setup();
    let (e, e2) = (1u64, 2u64);
    action.insert(C, e, Some(1));
    action.move_component(C, e, e2);
    ctx.commit(&mut action);
    assert!(!ctx.contains(C, e));
    assert_eq!(ctx.get(C, e2), Some(&1));
}

#[test]
fn removal_applies_after_insertion() {
    let (mut ctx, mut action) = setup();
    action.insert(C, 1, Some(1));
    action.remove(C, 1);
    ctx.commit(&mut action);
    assert!(!ctx.contains(C, 1));
    assert!(!ctx.contains_any_component(1));
}

#[test]
fn commit_clears_action_for_reuse() {
    let (mut ctx, mut action) = setup();
    action.insert(C, 1, Some(1));
    action.insert(F, 1, None);
    action.set_property(0, Some(42));
    action.set_property(1, None);
    assert!(action.contains_property(0) && action.contains_property(1));
    assert_eq!(action.property(0), Some(&42));
    ctx.commit(&mut action);
    assert_eq!(ctx.get(C, 1), Some(&1));
    assert!(ctx.contains(F, 1));
    assert!(!action.contains_property(0) && !action.contains_property(1));
    assert_eq!(action.property(0), None);
    // committing the emptied action changes nothing
    ctx.commit(&mut action);
    assert_eq!(ctx.get(C, 1), Some(&1));
    let view = ctx.post_action_entity(1, &action);
    assert_eq!(view.change(C), None);
}

#[test]
fn clear_discards_staged_edits() {
    let (mut ctx, mut action) = setup();
    action.insert(C, 1, Some(1));
    action.set_property(1, None);
    action.clear_property(1);
    assert!(!action.contains_property(1));
    action.set_property(1, None);
    action.clear();
    assert!(!action.contains_property(1));
    ctx.commit(&mut action);
    assert!(!ctx.contains(C, 1));
}

#[test]
fn staged_remove_entity_uses_live_components() {
    let (mut ctx, mut action) = setup();
    ctx.insert(C, 1, Some(2));
    ctx.insert(F, 1, None);
    ctx.insert(C, 3, Some(4));
    action.remove_entity(1, &ctx);
    // the staged removals cover what entity 1 held when they were staged
    ctx.insert(C, 1, Some(5));
    let view = ctx.post_action_entity(1, &action);
    assert_eq!(view.change(F), Some(Change::Remove));
    ctx.commit(&mut action);
    assert!(!ctx.contains_any_component(1));
    assert_eq!(ctx.get(C, 3), Some(&4));
}

#[test]
fn commit_updates_query_cache() {
    let (mut ctx, mut action) = setup();
    ctx.refresh_query(0);
    action.insert(C, 5, Some(50));
    action.insert(F, 5, None);
    ctx.commit(&mut action);
    ctx.refresh_query(0);
    let rows = ctx.query_results(0);
    assert_eq!(rows, &vec![5]);
    assert_eq!(ctx.get(C, 5), Some(&50));
}

#[test]
fn commit_moves_owned_payloads() {
    let schema = Schema::new(vec![false], vec![], vec![]).unwrap();
    let mut action: EcsAction<String> = EcsAction::new(&schema);
    let mut ctx: EcsCtx<String> = EcsCtx::new(schema);
    ctx.insert(0, 1, Some("a".to_string()));
    action.insert(0, 2, Some("b".to_string()));
    action.swap(0, 1, 3);
    let view = ctx.post_action_entity(3, &action);
    assert_eq!(view.value(0), Some(Some(&"a".to_string())));
    ctx.commit(&mut action);
    assert_eq!(ctx.get(0, 2).map(|s| s.as_str()), Some("b"));
    assert_eq!(ctx.get(0, 3).map(|s| s.as_str()), Some("a"));
    assert!(!ctx.contains(0, 1));
}
