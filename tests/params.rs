use std::cell::RefCell;
use system_param::meta::SystemMeta;
use system_param::params::{
    CommandQueue, Deferred, DeferredState, Local, LocalState, SystemBuffer, SystemChangeTick, SystemName,
};
use system_param::tick::Tick;
use system_param::world::World;

#[test]
fn non_sync_local() {
    let mut state = LocalState::init_state(RefCell::new(0u8));
    let cell = Local::get_param(&mut state);
    assert_eq!(*cell.0.borrow(), 0);
}

#[test]
fn locals_of_two_systems_are_independent() {
    let mut x_state = LocalState::init_state(0u64);
    let mut y_state = LocalState::init_state(0u64);
    {
        let x = Local::get_param(&mut x_state);
        *x.0 = 42;
    }
    {
        let y = Local::get_param(&mut y_state);
        assert_eq!(*y.0, 0);
        *y.0 += 1;
    }
    {
        let x = Local::get_param(&mut x_state);
        assert_eq!(*x.0, 42);
    }
    let y = Local::get_param(&mut y_state);
    assert_eq!(*y.0, 1);
}

#[test]
fn local_declares_nothing() {
    let meta = SystemMeta::new("s".to_string());
    let _state = LocalState::init_state(5u32);
    assert!(meta.archetype_component_access().is_empty());
    assert!(meta.component_access().is_empty());
}

#[test]
fn deferred_spawn_is_visible_after_flush_only() {
    let mut world = World::new();
    let a = world.init_component("A".to_string());
    let meta = SystemMeta::new("spawner".to_string());
    let mut state = DeferredState::init_state(CommandQueue::new());
    {
        let commands = Deferred::get_param(&mut state);
        commands.0.spawn(vec![a]);
        commands.0.spawn(vec![a]);
        assert_eq!(commands.0.len(), 2);
    }
    assert_eq!(world.entity_count(), 0);
    assert_eq!(world.archetype_count(), 0);
    state.apply(&meta, &mut world);
    assert_eq!(world.entity_count(), 2);
    assert_eq!(world.archetype_count(), 1);
    assert_eq!(world.entity_archetype(1), 0);
    state.apply(&meta, &mut world);
    assert_eq!(world.entity_count(), 2);
    state.apply_commands(&mut world);
    assert_eq!(world.entity_count(), 2);
}

#[test]
fn command_queue_applies_in_order() {
    let mut world = World::new();
    let a = world.init_component("A".to_string());
    let b = world.init_component("B".to_string());
    let mut queue = CommandQueue::new();
    queue.spawn(vec![a, b]);
    queue.spawn(vec![b]);
    let meta = SystemMeta::new("s".to_string());
    queue.apply(&meta, &mut world);
    assert_eq!(queue.len(), 0);
    assert_eq!(world.archetype_components(world.entity_archetype(0)), &vec![a, b]);
    assert_eq!(world.archetype_components(world.entity_archetype(1)), &vec![b]);
}

#[test]
fn change_tick_snapshot() {
    let mut world = World::new();
    let mut meta = SystemMeta::new("ticker".to_string());
    for _ in 0..5 {
        world.increment_change_tick();
    }
    meta.set_last_run(Tick::new(5));
    for _ in 0..3 {
        world.increment_change_tick();
    }
    let this_run = world.change_tick();
    assert_eq!(this_run.get(), 8);
    let snapshot = SystemChangeTick::get_param(&meta, this_run);
    assert_eq!(snapshot.last_run(), Tick::new(5));
    assert_eq!(snapshot.this_run(), Tick::new(8));
    meta.set_last_run(this_run);
    assert_eq!(meta.last_run().get(), 8);
}

#[test]
fn system_name_probe() {
    let meta = SystemMeta::new("my_system".to_string());
    let state = SystemName::init_state(&meta);
    let name = SystemName::get_param(&state);
    assert_eq!(name.name(), "my_system");
    assert_eq!(meta.name(), "my_system");
}

#[test]
fn tick_set_and_get() {
    let mut t = Tick::new(3);
    assert_eq!(t.get(), 3);
    t.set(u32::MAX);
    assert_eq!(t.get(), u32::MAX);
}

#[test]
fn isolated_scope_does_not_reach_owner() {
    let mut world = World::new();
    let x = world.init_component("X".to_string());
    world.spawn(&vec![x]);
    let meta = SystemMeta::new("owner".to_string());
    let mut scope = meta.isolated_scope();
    assert_eq!(scope.name(), "owner");
    system_param::query::QueryState::init_state(&world, &mut scope, vec![(x, true)], vec![], vec![], "&mut X", "()");
    assert!(!scope.archetype_component_access().is_empty());
    assert!(meta.archetype_component_access().is_empty());
}
