use scene_tools::{
    scene_from_query_components, scene_from_query_filter, EntityId, EntityRecord, SceneBuilder,
    SceneEntity,
};

const POSITION: usize = 0;
const VELOCITY: usize = 1;
const HEALTH: usize = 2;

fn ent(index: u32) -> EntityId {
    EntityId { index, generation: 0 }
}

fn rec(index: u32, kinds: &[usize]) -> EntityRecord {
    EntityRecord { entity: ent(index), kinds: kinds.to_vec() }
}

/// A holds Position and Velocity, B holds Position, C holds Velocity.
fn world() -> Vec<EntityRecord> {
    vec![rec(1, &[POSITION, VELOCITY]), rec(2, &[POSITION]), rec(3, &[VELOCITY])]
}

/// The records that a host query with "has `kind`" would hand over.
fn having(records: &[EntityRecord], kind: usize) -> Vec<EntityRecord> {
    records.iter().filter(|r| r.kinds.contains(&kind)).cloned().collect()
}

fn sorted(mut v: Vec<usize>) -> Vec<usize> {
    v.sort();
    v
}

fn summary(scene: &[SceneEntity]) -> Vec<(u32, Vec<usize>)> {
    scene.iter().map(|s| (s.entity.index, s.components.clone())).collect()
}

#[test]
fn filter_only_scene_takes_all_components() {
    let reflectable = vec![POSITION, VELOCITY];
    let matched = having(&world(), POSITION);
    let scene = scene_from_query_filter(&matched, &reflectable);
    assert_eq!(summary(&scene), vec![(1, vec![POSITION, VELOCITY]), (2, vec![POSITION])]);
}

#[test]
fn component_selected_scene_keeps_declared_kinds() {
    let reflectable = vec![POSITION, VELOCITY];
    let matched = having(&world(), VELOCITY);
    let scene = scene_from_query_components(&matched, &vec![POSITION], &reflectable);
    assert_eq!(summary(&scene), vec![(1, vec![POSITION])]);
}

#[test]
fn component_selected_scene_requires_every_declared_kind() {
    let reflectable = vec![POSITION, VELOCITY];
    let scene = scene_from_query_components(&world(), &vec![POSITION, VELOCITY], &reflectable);
    assert_eq!(summary(&scene), vec![(1, vec![POSITION, VELOCITY])]);
}

#[test]
fn component_selected_scene_drops_unreflectable_kinds() {
    let reflectable = vec![VELOCITY];
    let scene = scene_from_query_components(&world(), &vec![POSITION], &reflectable);
    assert_eq!(summary(&scene), vec![(1, vec![]), (2, vec![])]);
}

#[test]
fn component_selected_scene_with_no_declared_kinds() {
    let reflectable = vec![POSITION, VELOCITY];
    let scene = scene_from_query_components(&world(), &vec![], &reflectable);
    assert_eq!(summary(&scene), vec![(1, vec![]), (2, vec![]), (3, vec![])]);
}

#[test]
fn filter_only_scene_drops_unreflectable_kinds() {
    let reflectable = vec![VELOCITY, HEALTH];
    let scene = scene_from_query_filter(&world(), &reflectable);
    assert_eq!(summary(&scene), vec![(1, vec![VELOCITY]), (2, vec![]), (3, vec![VELOCITY])]);
}

#[test]
fn filter_only_scene_of_nothing_is_empty() {
    let scene = scene_from_query_filter(&vec![], &vec![POSITION]);
    assert!(scene.is_empty());
}

#[test]
fn scene_keeps_the_whole_entity_id() {
    let matched = vec![EntityRecord { entity: EntityId { index: 7, generation: 3 }, kinds: vec![HEALTH] }];
    let scene = scene_from_query_filter(&matched, &vec![HEALTH]);
    assert_eq!(scene.len(), 1);
    assert_eq!(scene[0].entity, EntityId { index: 7, generation: 3 });
    assert_eq!(scene[0].components, vec![HEALTH]);
}

#[test]
fn builder_all_selection_is_not_narrowed() {
    let reflectable = vec![POSITION, VELOCITY];
    let mut b = SceneBuilder::new();
    b.add_entity(ent(1)).add_components_to_entity(ent(1), &vec![POSITION]);
    let scene = b.build_scene(&vec![Some(vec![POSITION, VELOCITY])], &reflectable);
    assert_eq!(summary(&scene), vec![(1, vec![POSITION, VELOCITY])]);
}

#[test]
fn builder_explicit_kinds_merge_into_union() {
    let reflectable = vec![POSITION, VELOCITY, HEALTH];
    let mut b = SceneBuilder::new();
    b.add_components_to_entity(ent(1), &vec![POSITION]);
    b.add_components_to_entity(ent(1), &vec![VELOCITY, POSITION]);
    assert_eq!(b.entities(), vec![ent(1)]);
    let scene = b.build_scene(&vec![Some(vec![POSITION, VELOCITY, HEALTH])], &reflectable);
    assert_eq!(scene.len(), 1);
    assert_eq!(sorted(scene[0].components.clone()), vec![POSITION, VELOCITY]);
}

#[test]
fn builder_explicit_kinds_are_listed_once() {
    let reflectable = vec![POSITION, VELOCITY];
    let mut b = SceneBuilder::new();
    b.add_components_to_entity(ent(1), &vec![VELOCITY, VELOCITY, POSITION]);
    let scene = b.build_scene(&vec![Some(vec![POSITION, VELOCITY])], &reflectable);
    assert_eq!(sorted(scene[0].components.clone()), vec![POSITION, VELOCITY]);
}

#[test]
fn builder_explicit_kinds_need_stored_and_reflectable() {
    let reflectable = vec![POSITION, HEALTH];
    let mut b = SceneBuilder::new();
    b.add_components_to_entity(ent(2), &vec![POSITION, VELOCITY, HEALTH]);
    let scene = b.build_scene(&vec![Some(vec![POSITION, VELOCITY])], &reflectable);
    assert_eq!(summary(&scene), vec![(2, vec![POSITION])]);
}

#[test]
fn builder_add_entity_twice_is_once() {
    let mut b = SceneBuilder::new();
    b.add_entity(ent(1));
    let once = b.entities();
    b.add_entity(ent(1));
    assert_eq!(b.entities(), once);
    assert_eq!(once, vec![ent(1)]);
}

#[test]
fn builder_all_selection_replaces_explicit_kinds() {
    let reflectable = vec![POSITION, VELOCITY];
    let mut b = SceneBuilder::new();
    b.add_components_to_entity(ent(1), &vec![POSITION]);
    b.add_from_query_filter(&vec![ent(1)]);
    let scene = b.build_scene(&vec![Some(vec![POSITION, VELOCITY])], &reflectable);
    assert_eq!(summary(&scene), vec![(1, vec![POSITION, VELOCITY])]);
}

#[test]
fn builder_build_twice_gives_same_scene() {
    let reflectable = vec![POSITION, VELOCITY];
    let records = vec![Some(vec![POSITION, VELOCITY]), Some(vec![POSITION])];
    let mut b = SceneBuilder::new();
    b.add_entity(ent(1)).add_components_to_entity(ent(2), &vec![POSITION, VELOCITY]);
    let first = b.build_scene(&records, &reflectable);
    let second = b.build_scene(&records, &reflectable);
    assert_eq!(summary(&first), summary(&second));
    assert_eq!(summary(&first), vec![(1, vec![POSITION, VELOCITY]), (2, vec![POSITION])]);
    assert_eq!(b.entities(), vec![ent(1), ent(2)]);
}

#[test]
fn builder_entity_missing_from_world_has_no_components() {
    let reflectable = vec![POSITION, VELOCITY];
    let mut b = SceneBuilder::new();
    b.add_entities(&vec![ent(1), ent(4), ent(5)]);
    let scene = b.build_scene(&vec![Some(vec![POSITION]), None], &reflectable);
    assert_eq!(summary(&scene), vec![(1, vec![POSITION]), (4, vec![]), (5, vec![])]);
}

#[test]
fn builder_empty_gives_empty_scene() {
    let b = SceneBuilder::new();
    assert!(b.entities().is_empty());
    assert!(b.build_scene(&vec![], &vec![POSITION]).is_empty());
}

#[test]
fn builder_add_components_to_entities_follows_merge_rule() {
    let reflectable = vec![POSITION, VELOCITY];
    let mut b = SceneBuilder::new();
    b.add_entity(ent(1));
    b.add_components_to_entities(&vec![ent(1), ent(2), ent(3)], &vec![VELOCITY]);
    let records = vec![Some(vec![POSITION, VELOCITY]), Some(vec![POSITION]), Some(vec![VELOCITY])];
    let scene = b.build_scene(&records, &reflectable);
    assert_eq!(summary(&scene), vec![(1, vec![POSITION, VELOCITY]), (2, vec![]), (3, vec![VELOCITY])]);
}

#[test]
fn builder_add_with_components_skips_records_lacking_a_kind() {
    let reflectable = vec![POSITION, VELOCITY];
    let mut b = SceneBuilder::new();
    b.add_with_components(&world(), &vec![VELOCITY]);
    assert_eq!(b.entities(), vec![ent(1), ent(3)]);
    let records = vec![Some(vec![POSITION, VELOCITY]), Some(vec![VELOCITY])];
    let scene = b.build_scene(&records, &reflectable);
    assert_eq!(summary(&scene), vec![(1, vec![VELOCITY]), (3, vec![VELOCITY])]);
}

#[test]
fn builder_keeps_first_selection_order() {
    let mut b = SceneBuilder::new();
    b.add_entities(&vec![ent(3), ent(1)]);
    b.add_components_to_entities(&vec![ent(2), ent(3)], &vec![POSITION]);
    b.add_entity(ent(1));
    assert_eq!(b.entities(), vec![ent(3), ent(1), ent(2)]);
}
