use shape_battle::components::{ComponentManager, Expirable, Tag, TagType, Transform};
use shape_battle::geometry::Point;
use shape_battle::world::{ComponentKind, World};
use uuid::Uuid;

fn assert_contains_all<T: std::cmp::PartialEq>(v1: Vec<T>, v2: Vec<T>) {
    for v in v2 {
        assert!(v1.contains(&v));
    }
}

#[test]
fn components_can_add_and_remove_components() {
    let transform1 = Transform::new(0, 0);
    let transform2 = Transform::new(1, 1);
    let entity1 = Uuid::new_v4().as_u128();
    let entity2 = Uuid::new_v4().as_u128();

    let mut component_manager = ComponentManager::new();

    component_manager.add(&entity1, transform1);
    component_manager.add(&entity2, transform2);

    let transform1 = component_manager.get(&entity1);
    assert!(transform1.is_some());
    assert_eq!(transform1.unwrap().position, Point::new(0, 0));

    component_manager.remove(&entity1);
    let transform1 = component_manager.get(&entity1);
    assert!(transform1.is_none());

    let transform2 = component_manager.get(&entity2);
    assert!(transform2.is_some());
    assert_eq!(transform2.unwrap().position, Point::new(1, 1));
}

#[test]
fn can_reference_entity_ids() {
    let transform1 = Transform::new(0, 0);
    let transform2 = Transform::new(1, 1);
    let entity1 = Uuid::new_v4().as_u128();
    let entity2 = Uuid::new_v4().as_u128();
    let expected_entities = [entity1, entity2].to_vec();

    let mut component_manager = ComponentManager::new();

    component_manager.add(&entity1, transform1);
    component_manager.add(&entity2, transform2);

    let entities = component_manager.entities();

    assert_contains_all(entities, expected_entities);
}

#[test]
fn can_reference_components() {
    let transform1 = Transform::new(0, 0);
    let transform2 = Transform::new(1, 1);
    let entity1 = Uuid::new_v4().as_u128();
    let entity2 = Uuid::new_v4().as_u128();
    let expected_point1 = transform1.position;
    let expected_point2 = transform2.position;

    let mut component_manager = ComponentManager::new();

    component_manager.add(&entity1, transform1);
    component_manager.add(&entity2, transform2);

    let transforms: Vec<&Transform> = component_manager.components().into_iter().collect();

    assert_eq!(transforms.len(), 2);
    assert_eq!(transforms[0].position, expected_point1);
    assert_eq!(transforms[1].position, expected_point2);
}

#[test]
fn world_can_add_and_remove_components() {
    let mut world = World::new();

    let entity1 = world.create_entity();
    let entity2 = world.create_entity();

    let transform1 = Transform::new(0, 0);
    let transform2 = Transform::new(1, 1);
    let expiration1 = Expirable::new(1000, 0);
    let expiration2 = Expirable::new(2000, 0);

    world.add(&entity1, transform1);
    world.add(&entity2, transform2);
    world.add(&entity1, expiration1);
    world.add(&entity2, expiration2);

    let transform1 = world.get::<Transform>(&entity1);
    assert!(transform1.is_some());
    assert_eq!(transform1.unwrap().position, Point::new(0, 0));

    let transform2 = world.get::<Transform>(&entity2);
    assert!(transform2.is_some());
    assert_eq!(transform2.unwrap().position, Point::new(1, 1));

    let expiration2 = world.get::<Expirable>(&entity2);
    assert!(expiration2.is_some());
    assert_eq!(expiration2.unwrap().expiration, 2000);

    world.remove(&entity1);
    let transform1 = world.get::<Transform>(&entity1);
    assert!(transform1.is_none());

    world.remove(&entity2);
    let expiration2 = world.get::<Expirable>(&entity2);
    assert!(expiration2.is_none());
}

#[test]
fn can_reference_entities_by_component_type() {
    let mut world = World::new();

    let entity1 = world.create_entity();
    let entity2 = world.create_entity();

    let transform1 = Transform::new(0, 0);
    let expiration1 = Expirable::new(1000, 0);
    let expiration2 = Expirable::new(2000, 0);

    world.add(&entity1, transform1);
    world.add(&entity1, expiration1);
    world.add(&entity2, expiration2);

    let transforms = world.entities::<Transform>();
    let expirations = world.entities::<Expirable>();

    assert_eq!(transforms.len(), 1);
    assert_eq!(expirations.len(), 2);
}

#[test]
fn can_reference_components_by_type() {
    let mut world = World::new();
    let entity1 = world.create_entity();
    let entity2 = world.create_entity();

    let transform1 = Transform::new(0, 0);
    let expiration1 = Expirable::new(1000, 0);
    let expiration2 = Expirable::new(2000, 0);
    let expected_points = vec![Point::new(0, 0)];
    let expected_durations = vec![1000u64, 2000u64];

    world.add(&entity1, transform1);
    world.add(&entity1, expiration1);
    world.add(&entity2, expiration2);

    let transforms = world.components::<Transform>();
    let expirations = world.components::<Expirable>();
    let points: Vec<Point> = transforms.iter().map(|t| t.position).collect();
    let durations: Vec<u64> = expirations.iter().map(|t| t.expiration).collect();

    assert_eq!(transforms.len(), 1);
    assert_contains_all(points, expected_points);

    assert_eq!(expirations.len(), 2);
    assert_contains_all(durations, expected_durations);
}

#[test]
fn can_reference_entities_with_multiple_components() {
    let mut world = World::new();

    let entity1 = world.create_entity();
    let entity2 = world.create_entity();

    let transform1 = Transform::new(0, 0);
    let expiration1 = Expirable::new(1000, 0);
    let expiration2 = Expirable::new(2000, 0);

    world.add(&entity1, transform1);
    world.add(&entity1, expiration1);
    world.add(&entity2, expiration2);

    let entities = world.entities_with(vec![ComponentKind::Transform, ComponentKind::Expirable]);

    assert_eq!(entities.len(), 1);
    assert_eq!(entities[0], entity1);
}

#[test]
fn add_then_get_returns_the_component_and_remove_clears_it() {
    let mut world = World::new();
    let e = world.create_entity();
    let t = Transform::new(7, -3);
    world.add(&e, t);
    assert_eq!(world.get::<Transform>(&e), Some(&t));
    world.remove(&e);
    assert_eq!(world.get::<Transform>(&e), None);
    assert_eq!(world.get::<Tag>(&e), None);
}

#[test]
fn add_replaces_the_previous_component() {
    let mut world = World::new();
    let e = world.create_entity();
    world.add(&e, Transform::new(1, 2));
    world.add(&e, Transform::new(3, 4));
    assert_eq!(world.get::<Transform>(&e).unwrap().position, Point::new(3, 4));
    assert_eq!(world.entities::<Transform>().len(), 1);
}

#[test]
fn changes_to_one_entity_leave_another_alone() {
    let mut world = World::new();
    let e1 = world.create_entity();
    world.add(&e1, Tag::new(TagType::Ship));
    let e2 = world.create_entity();
    world.add(&e2, Transform::new(5, 5));
    world.add(&e2, Tag::new(TagType::Bullet));

    world.add(&e1, Transform::new(9, 9));
    world.remove_component::<Tag>(&e1);
    assert_eq!(world.get::<Transform>(&e2).unwrap().position, Point::new(5, 5));
    assert_eq!(world.get::<Tag>(&e2).unwrap().tag_type, TagType::Bullet);

    world.remove(&e1);
    assert_eq!(world.get::<Transform>(&e2).unwrap().position, Point::new(5, 5));
    assert_eq!(world.get::<Tag>(&e2).unwrap().tag_type, TagType::Bullet);
}

#[test]
fn query_for_two_kinds_is_the_intersection() {
    let mut world = World::new();
    let a = world.create_entity();
    world.add(&a, Transform::new(0, 0));
    world.add(&a, Tag::new(TagType::Ship));
    let b = world.create_entity();
    world.add(&b, Transform::new(0, 0));
    let c = world.create_entity();
    world.add(&c, Tag::new(TagType::Bullet));

    let both = world.entities_with(vec![ComponentKind::Transform, ComponentKind::Tag]);
    assert_eq!(both, vec![a]);

    let none = world.entities_with(vec![ComponentKind::Transform, ComponentKind::Expirable]);
    assert!(none.is_empty());

    let no_kinds = world.entities_with(vec![]);
    assert!(no_kinds.is_empty());

    let one_kind = world.entities_with(vec![ComponentKind::Transform]);
    assert_eq!(one_kind.len(), 2);
    assert!(one_kind.contains(&a) && one_kind.contains(&b));
}

#[test]
fn created_entities_are_distinct_from_live_ones() {
    let mut world = World::new();
    let a = world.create_entity();
    world.add(&a, Transform::new(0, 0));
    let b = world.create_entity();
    assert_ne!(a, b);
}

#[test]
fn remove_all_removes_each_listed_entity() {
    let mut world = World::new();
    let a = world.create_entity();
    world.add(&a, Transform::new(0, 0));
    let b = world.create_entity();
    world.add(&b, Transform::new(1, 0));
    let c = world.create_entity();
    world.add(&c, Transform::new(2, 0));
    world.remove_all(vec![a, c]);
    assert_eq!(world.entities::<Transform>(), vec![b]);
}

#[test]
fn get_mut_changes_a_component_in_place() {
    let mut world = World::new();
    let e = world.create_entity();
    world.add(&e, Transform::new(1, 1));
    if let Some(t) = world.get_mut::<Transform>(&e) {
        t.position = Point::new(9, 9);
    }
    assert_eq!(world.get::<Transform>(&e).unwrap().position, Point::new(9, 9));
    assert!(world.get_mut::<Tag>(&e).is_none());

    let mut manager = ComponentManager::new();
    manager.add(&e, Tag::new(TagType::Ship));
    if let Some(tag) = manager.get_mut(&e) {
        tag.tag_type = TagType::Shape(2);
    }
    assert_eq!(manager.get(&e).unwrap().tag_type, TagType::Shape(2));
}

#[test]
fn register_starts_a_kind_afresh() {
    let mut world = World::new();
    let e = world.create_entity();
    world.add(&e, Transform::new(1, 1));
    world.add(&e, Tag::new(TagType::Ship));
    world.register::<Transform>();
    assert!(world.get::<Transform>(&e).is_none());
    assert!(world.get::<Tag>(&e).is_some());
}

#[test]
fn identities_are_never_handed_out_twice() {
    let mut world = World::new();
    let a = world.create_entity();
    let b = world.create_entity();
    assert_ne!(a, b);
    world.add(&a, Transform::new(0, 0));
    world.remove(&a);
    let c = world.create_entity();
    assert_ne!(c, a);
    assert_ne!(c, b);
}
