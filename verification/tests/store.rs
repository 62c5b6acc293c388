use bbecs::bitmap::BitMap;
use bbecs::components::{CastComponents, Component, ComponentData};
use bbecs::entity_data::EntityData;
use bbecs::errors::BbEcsError;
use bbecs::world::{entity_id, to_be_deleted, World, WorldMethods};

fn column<'a>(
    results: &'a [(String, Vec<&'a ComponentData>)],
    name: &str,
) -> &'a Vec<&'a ComponentData> {
    &results
        .iter()
        .find(|(n, _)| n == name)
        .expect("requested name missing from query results")
        .1
}

#[test]
fn register_assigns_distinct_bits() {
    let mut bitmap = BitMap::new();
    bitmap.register("alpha".to_owned()).unwrap();
    bitmap.register("beta".to_owned()).unwrap();
    bitmap.register("gamma".to_owned()).unwrap();
    bitmap.spawn_entity(0).unwrap();
    bitmap.spawn_entity(1).unwrap();
    bitmap.insert(0, "beta").unwrap();
    bitmap.insert(1, "gamma").unwrap();
    assert_eq!(bitmap.query(vec!["beta"]).unwrap(), vec![0]);
    assert_eq!(bitmap.query(vec!["gamma"]).unwrap(), vec![1]);
    assert_eq!(bitmap.query(vec!["alpha"]).unwrap(), Vec::<usize>::new());
}

#[test]
fn query_after_single_matching_spawn_returns_that_entity() {
    let mut world = World::new();
    world.register("location").unwrap();
    world.spawn_entity().unwrap();
    world.with_component("location", 7u32).unwrap();
    let results = world.query(vec!["location", "entity id"]).unwrap();
    assert_eq!(column(&results, "location").len(), 1);
    assert_eq!(column(&results, "location")[0], &ComponentData::U32(7));
    assert_eq!(column(&results, "entity id")[0], &ComponentData::Usize(0));
}

#[test]
fn spawning_yields_sequential_distinct_ids() {
    let mut world = World::new();
    let mut ids = Vec::new();
    for _ in 0..5 {
        ids.push(world.spawn_entity().unwrap());
    }
    assert_eq!(ids, vec![0, 1, 2, 3, 4]);
}

#[test]
fn spawn_reuses_freed_ids_before_new_ones() {
    let mut world = World::new();
    for _ in 0..3 {
        world.spawn_entity().unwrap();
    }
    world.delete_ids(&[1]).unwrap();
    world.update().unwrap();
    assert_eq!(world.spawn_entity().unwrap(), 1);
    assert_eq!(world.spawn_entity().unwrap(), 3);
}

#[test]
fn query_columns_align_across_names() {
    let mut world = World::new();
    world.register("location").unwrap();
    world.register("size").unwrap();

    world.spawn_entity().unwrap();
    world.with_component("location", 100u32).unwrap();
    world.with_component("size", 10u64).unwrap();

    world.spawn_entity().unwrap();
    world.with_component("location", 101u32).unwrap();

    world.spawn_entity().unwrap();
    world.with_component("location", 102u32).unwrap();
    world.with_component("size", 12u64).unwrap();

    let results = world.query(vec!["location", "size", "entity id"]).unwrap();
    let ids = column(&results, "entity id");
    let locations = column(&results, "location");
    let sizes = column(&results, "size");
    assert_eq!(ids.len(), 2);
    assert_eq!(locations.len(), 2);
    assert_eq!(sizes.len(), 2);
    assert_eq!(ids[0], &ComponentData::Usize(0));
    assert_eq!(ids[1], &ComponentData::Usize(2));
    assert_eq!(locations[0], &ComponentData::U32(100));
    assert_eq!(locations[1], &ComponentData::U32(102));
    assert_eq!(sizes[0], &ComponentData::U64(10));
    assert_eq!(sizes[1], &ComponentData::U64(12));
}

#[test]
fn deletions_take_effect_only_at_commit() {
    let mut world = World::new();
    world.register("location").unwrap();
    for i in 0..2 {
        world.spawn_entity().unwrap();
        world.with_component("location", i as u32).unwrap();
    }
    world.delete_ids(&[0]).unwrap();

    let before = world.query(vec!["location"]).unwrap();
    assert_eq!(column(&before, "location").len(), 2);

    world.update().unwrap();
    let after = world.query(vec!["location", "entity id"]).unwrap();
    assert_eq!(column(&after, "location").len(), 1);
    assert_eq!(column(&after, "location")[0], &ComponentData::U32(1));
    assert_eq!(column(&after, "entity id")[0], &ComponentData::Usize(1));
}

#[test]
fn growth_past_capacity_block_preserves_values() {
    let mut world = World::new();
    world.register("location").unwrap();
    for i in 0..257 {
        world.spawn_entity().unwrap();
        world.with_component("location", i as u32).unwrap();
    }
    let results = world.query(vec!["location", "entity id"]).unwrap();
    let locations = column(&results, "location");
    let ids = column(&results, "entity id");
    assert_eq!(locations.len(), 257);
    assert_eq!(locations[0], &ComponentData::U32(0));
    assert_eq!(locations[255], &ComponentData::U32(255));
    assert_eq!(locations[256], &ComponentData::U32(256));
    assert_eq!(ids[255], &ComponentData::Usize(255));
    assert_eq!(ids[256], &ComponentData::Usize(256));
}

#[test]
fn committed_id_is_respawned() {
    let mut world = World::new();
    for _ in 0..6 {
        world.spawn_entity().unwrap();
    }
    world.delete_by_id(5).unwrap();
    world.update().unwrap();
    assert_eq!(world.spawn_entity().unwrap(), 5);
}

#[test]
fn registration_past_the_mask_width_fails() {
    let mut bitmap = BitMap::new();
    for i in 0..64 {
        bitmap.register(format!("type {}", i)).unwrap();
    }
    match bitmap.register("type 64".to_owned()) {
        Err(BbEcsError::TooManyComponentTypes(name)) => assert_eq!(name, "type 64"),
        other => panic!("expected TooManyComponentTypes, got {:?}", other),
    }
    // the earlier registrations still work
    bitmap.register("type 0".to_owned()).unwrap();
    bitmap.spawn_entity(0).unwrap();
    bitmap.insert(0, "type 63").unwrap();
    assert_eq!(bitmap.query(vec!["type 63"]).unwrap(), vec![0]);
}

#[test]
fn world_registration_past_the_bound_fails_and_store_survives() {
    let mut world = World::new();
    // the two reserved types already hold bits 0 and 1
    for i in 0..62 {
        world.register(&format!("user type {}", i)).unwrap();
    }
    match world.register("one too many") {
        Err(BbEcsError::TooManyComponentTypes(name)) => assert_eq!(name, "one too many"),
        other => panic!("expected TooManyComponentTypes, got {:?}", other),
    }
    world.spawn_entity().unwrap();
    world.with_component("user type 0", true).unwrap();
    let results = world.query(vec!["user type 0"]).unwrap();
    assert_eq!(column(&results, "user type 0")[0], &ComponentData::Bool(true));
}

#[test]
fn duplicate_registration_is_an_error() {
    let mut world = World::new();
    world.register("location").unwrap();
    assert!(matches!(
        world.register("location"),
        Err(BbEcsError::ComponentAlreadyRegistered(_))
    ));
    assert!(matches!(
        world.register(entity_id()),
        Err(BbEcsError::ComponentAlreadyRegistered(_))
    ));
    assert!(matches!(
        world.register(to_be_deleted()),
        Err(BbEcsError::ComponentAlreadyRegistered(_))
    ));
}

#[test]
fn attaching_an_unregistered_component_fails() {
    let mut world = World::new();
    world.spawn_entity().unwrap();
    assert!(matches!(
        world.with_component("missing", 1u32),
        Err(BbEcsError::NeedToRegister)
    ));
}

#[test]
fn attaching_before_any_spawn_fails() {
    let mut world = World::new();
    world.register("location").unwrap();
    assert!(matches!(
        world.with_component("location", 1u32),
        Err(BbEcsError::InsertBeforeSpawn)
    ));
}

#[test]
fn bitmap_insert_before_register_fails() {
    let mut bitmap = BitMap::new();
    bitmap.spawn_entity(0).unwrap();
    assert!(matches!(
        bitmap.insert(0, "missing"),
        Err(BbEcsError::BitMapInsertBeforeRegister)
    ));
    assert!(matches!(
        bitmap.insert_for_many(&[0], "missing"),
        Err(BbEcsError::BitMapInsertBeforeRegister)
    ));
}

#[test]
fn querying_an_unregistered_name_fails() {
    let world = World::new();
    match world.query(vec!["missing"]) {
        Err(BbEcsError::ComponentNotFound(name)) => assert_eq!(name, "missing"),
        other => panic!("expected ComponentNotFound, got {:?}", other),
    }
}

#[test]
fn resources_are_stored_and_overwritten_by_name() {
    let mut world = World::new();
    world.add_resource("score".to_owned(), 10u32);
    assert_eq!(world.get_resource("score").unwrap(), &ComponentData::U32(10));

    world.add_resource("score".to_owned(), 99u32);
    assert_eq!(world.get_resource("score").unwrap(), &ComponentData::U32(99));

    world.add_resource("title".to_owned(), "hello".to_owned());
    assert_eq!(
        world.get_resource("title").unwrap(),
        &ComponentData::Marker("hello".to_owned())
    );

    match world.get_resource("missing") {
        Err(BbEcsError::ResourceNotFound(name)) => assert_eq!(name, "missing"),
        other => panic!("expected ResourceNotFound, got {:?}", other),
    }
}

#[test]
fn casting_narrows_to_the_held_kind_only() {
    let value = ComponentData::from_raw_data(5u32);
    let narrowed: &u32 = value.cast().unwrap();
    assert_eq!(*narrowed, 5);

    let wrong: Result<&bool, BbEcsError> = value.cast();
    match wrong {
        Err(BbEcsError::CastingComponents { from, to }) => {
            assert_eq!(from, Component::U32);
            assert_eq!(to, Component::Bool);
        }
        other => panic!("expected CastingComponents, got {:?}", other),
    }

    let marker = ComponentData::from_raw_data("tag".to_owned());
    let text: &String = marker.cast().unwrap();
    assert_eq!(text, "tag");
    assert_eq!(marker.kind(), Component::Marker);
    assert_eq!(ComponentData::Blank.kind(), Component::Blank);
}

#[test]
fn deleting_ids_nothing_holds_is_harmless() {
    let mut world = World::new();
    world.delete_by_id(42).unwrap();
    world.update().unwrap();
    assert_eq!(world.spawn_entity().unwrap(), 0);

    // deleting an already committed id again changes nothing
    world.delete_by_id(0).unwrap();
    world.update().unwrap();
    world.delete_by_id(0).unwrap();
    world.update().unwrap();
    assert_eq!(world.spawn_entity().unwrap(), 0);
}

#[test]
fn bitmap_query_with_no_names_matches_every_slot() {
    let mut bitmap = BitMap::new();
    bitmap.spawn_entity(0).unwrap();
    bitmap.spawn_entity(1).unwrap();
    assert_eq!(bitmap.query(vec![]).unwrap(), vec![0, 1]);
    assert_eq!(BitMap::max_component_types(), 64);
}

#[test]
fn insert_for_many_flags_every_listed_slot() {
    let mut bitmap = BitMap::new();
    bitmap.register("tag".to_owned()).unwrap();
    for i in 0..3 {
        bitmap.spawn_entity(i).unwrap();
    }
    bitmap.insert_for_many(&[0, 2], "tag").unwrap();
    assert_eq!(bitmap.query(vec!["tag"]).unwrap(), vec![0, 2]);
    bitmap.delete_entities_by_index(&[0]).unwrap();
    assert_eq!(bitmap.query(vec!["tag"]).unwrap(), vec![2]);
}

#[test]
fn attaching_twice_overwrites_the_value() {
    let mut world = World::new();
    world.register("location").unwrap();
    world.spawn_entity().unwrap();
    world.with_component("location", 1u32).unwrap();
    world.with_component("location", 2u32).unwrap();
    let results = world.query(vec!["location"]).unwrap();
    assert_eq!(column(&results, "location").len(), 1);
    assert_eq!(column(&results, "location")[0], &ComponentData::U32(2));
}

#[test]
fn set_component_writes_any_live_entity() {
    let mut world = World::new();
    world.register("location").unwrap();
    for _ in 0..3 {
        world.spawn_entity().unwrap();
    }
    world.set_component("location", 0, ComponentData::U32(5)).unwrap();
    world.set_component("location", 2, ComponentData::U32(7)).unwrap();
    world.set_component("location", 2, ComponentData::U32(8)).unwrap();
    let results = world.query(vec!["location", "entity id"]).unwrap();
    assert_eq!(column(&results, "location").len(), 2);
    assert_eq!(column(&results, "entity id")[0], &ComponentData::Usize(0));
    assert_eq!(column(&results, "location")[0], &ComponentData::U32(5));
    assert_eq!(column(&results, "entity id")[1], &ComponentData::Usize(2));
    assert_eq!(column(&results, "location")[1], &ComponentData::U32(8));

    // an id no live entity holds is refused
    assert!(matches!(
        world.set_component("location", 99, ComponentData::U32(1)),
        Err(BbEcsError::InsertBeforeSpawn)
    ));
    world.delete_by_id(1).unwrap();
    world.update().unwrap();
    assert!(matches!(
        world.set_component("location", 1, ComponentData::U32(1)),
        Err(BbEcsError::InsertBeforeSpawn)
    ));
    // as is an unregistered name
    assert!(matches!(
        world.set_component("missing", 0, ComponentData::U32(1)),
        Err(BbEcsError::NeedToRegister)
    ));
}

#[test]
fn entity_and_capacity_counts_are_exposed() {
    let mut world = World::new();
    assert_eq!(world.num_entities(), 0);
    assert_eq!(world.entity_capacity(), 256);
    for _ in 0..257 {
        world.spawn_entity().unwrap();
    }
    assert_eq!(world.num_entities(), 257);
    assert_eq!(world.entity_capacity(), 512);
    // committing a deletion frees the id but keeps its slot allocated
    world.delete_by_id(0).unwrap();
    world.update().unwrap();
    assert_eq!(world.num_entities(), 257);
}

#[test]
fn entity_data_register_insert_and_reset() {
    let mut store = EntityData::new();
    store.register("location".to_owned()).unwrap();
    assert!(matches!(
        store.register("location".to_owned()),
        Err(BbEcsError::ComponentAlreadyRegistered(_))
    ));
    store.insert("location", 0, ComponentData::U32(4)).unwrap();
    assert!(matches!(
        store.insert("missing", 0, ComponentData::U32(4)),
        Err(BbEcsError::NeedToRegister)
    ));

    let results = store.query(vec!["location"], &[0, 1]).unwrap();
    assert_eq!(results[0].0, "location");
    assert_eq!(results[0].1, vec![&ComponentData::U32(4), &ComponentData::Blank]);
    match store.query(vec!["missing"], &[0]) {
        Err(BbEcsError::ComponentNotFound(name)) => assert_eq!(name, "missing"),
        other => panic!("expected ComponentNotFound, got {:?}", other),
    }

    store.delete_entities_by_index(&[0]).unwrap();
    let cleared = store.query(vec!["location"], &[0]).unwrap();
    assert_eq!(cleared[0].1, vec![&ComponentData::Blank]);
}
