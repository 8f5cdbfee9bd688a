use system_param::access::Access;
use system_param::conflict::{assert_component_access_compatibility, check_component_access_compatibility, AccessConflict};
use system_param::meta::SystemMeta;
use system_param::param_set::{ParamSet, QueryDescriptor};
use system_param::query::QueryState;
use system_param::world::World;

struct Setup {
    world: World,
    health: usize,
    enemy: usize,
    ally: usize,
}

fn setup() -> Setup {
    let mut world = World::new();
    let health = world.init_component("Health".to_string());
    let enemy = world.init_component("Enemy".to_string());
    let ally = world.init_component("Ally".to_string());
    let mut e = vec![health, enemy];
    e.sort();
    let mut a = vec![health, ally];
    a.sort();
    world.spawn(&e);
    world.spawn(&a);
    Setup { world, health, enemy, ally }
}

fn register(
    world: &World,
    meta: &mut SystemMeta,
    fetch: Vec<(usize, bool)>,
    with: Vec<usize>,
    without: Vec<usize>,
) -> Result<QueryState, AccessConflict> {
    QueryState::check_init_state(world, meta, &fetch, &with, &without, "&mut Health", "With<Marker>")?;
    Ok(QueryState::init_state(world, meta, fetch, with, without, "&mut Health", "With<Marker>"))
}

fn register_world_read(world: &World, meta: &mut SystemMeta) -> Result<(), AccessConflict> {
    World::check_init_state(meta)?;
    World::init_state(world, meta);
    Ok(())
}

fn refresh(q: &mut QueryState, world: &World, archetype: usize, meta: &mut SystemMeta) -> Result<(), AccessConflict> {
    q.check_new_archetype(world, archetype, meta)?;
    q.new_archetype(world, archetype, meta);
    Ok(())
}

fn register_set(world: &World, meta: &mut SystemMeta, members: Vec<QueryDescriptor>) -> Result<ParamSet, AccessConflict> {
    ParamSet::check_init_state(world, meta, &members)?;
    Ok(ParamSet::init_state(world, meta, members))
}

#[test]
fn component_ids_are_stable() {
    let mut world = World::new();
    let a = world.init_component("A".to_string());
    let b = world.init_component("B".to_string());
    assert_eq!(a, 0);
    assert_eq!(b, 1);
    assert_eq!(world.init_component("A".to_string()), 0);
    assert_eq!(world.component_count(), 2);
    assert_eq!(world.component_name(1), "B");
}

#[test]
fn spawn_creates_archetypes_once() {
    let mut world = World::new();
    let a = world.init_component("A".to_string());
    let b = world.init_component("B".to_string());
    assert_eq!(world.spawn(&vec![a, b]), 0);
    assert_eq!(world.location_count(), 2);
    assert_eq!(world.spawn(&vec![a]), 1);
    assert_eq!(world.spawn(&vec![a, b]), 0);
    assert_eq!(world.archetype_count(), 2);
    assert_eq!(world.location_count(), 3);
    assert_eq!(world.entity_count(), 3);
    assert_eq!(world.entity_archetype(2), 0);
    assert_eq!(world.archetype_components(1), &vec![a]);
    assert_eq!(world.archetype_location(0, b), Some(1));
    assert_eq!(world.location(2), (1, a));
    assert_eq!(world.archetype_location(1, b), None);
}

#[test]
fn change_tick_advances_and_wraps() {
    let mut world = World::new();
    assert_eq!(world.change_tick().get(), 0);
    let prev = world.increment_change_tick();
    assert_eq!(prev.get(), 0);
    assert_eq!(world.change_tick().get(), 1);
}

#[test]
fn disjoint_writers_register() {
    let s = setup();
    let mut meta = SystemMeta::new("fancy_system".to_string());
    let q1 = register(&s.world, &mut meta, vec![(s.health, true)], vec![s.enemy], vec![]).unwrap();
    let q2 = register(&s.world, &mut meta, vec![(s.health, true)], vec![s.ally], vec![]).unwrap();
    assert_eq!(q1.matched_archetypes(), &vec![0]);
    assert_eq!(q2.matched_archetypes(), &vec![1]);
    let h0 = s.world.archetype_location(0, s.health).unwrap();
    let h1 = s.world.archetype_location(1, s.health).unwrap();
    assert!(meta.archetype_component_access().has_write(h0));
    assert!(meta.archetype_component_access().has_write(h1));
    assert!(meta.component_access().has_write(s.health));
}

#[test]
fn overlapping_writers_conflict() {
    let s = setup();
    let mut meta = SystemMeta::new("bad_system".to_string());
    register(&s.world, &mut meta, vec![(s.health, true)], vec![], vec![]).unwrap();
    let err = match register(&s.world, &mut meta, vec![(s.health, true)], vec![s.ally], vec![]) {
        Ok(_) => panic!("expected a conflict"),
        Err(e) => e,
    };
    assert_eq!(err.system_name(), "bad_system");
    assert_eq!(err.param_name(), "Query<&mut Health, With<Marker>>");
    assert!(!err.is_whole_store());
    assert_eq!(err.component_ids(), &vec![s.health]);
    assert_eq!(err.component_names(), &vec!["Health".to_string()]);
    assert_eq!(
        err.message(),
        "Query<&mut Health, With<Marker>> in system bad_system accesses component(s) Health in a way that conflicts with a previous system parameter. Consider using `Without<T>` to create disjoint Queries or merging conflicting Queries into a `ParamSet`."
    );
}

#[test]
fn rejected_query_leaves_meta_unchanged() {
    let s = setup();
    let mut meta = SystemMeta::new("bad_system".to_string());
    register(&s.world, &mut meta, vec![(s.health, false)], vec![s.enemy], vec![]).unwrap();
    assert!(register(&s.world, &mut meta, vec![(s.health, true)], vec![], vec![]).is_err());
    let h1 = s.world.archetype_location(1, s.health).unwrap();
    assert!(!meta.archetype_component_access().has_read(h1));
    assert!(!meta.component_access().has_write(s.health));
}

#[test]
fn without_filter_makes_queries_disjoint() {
    let s = setup();
    let mut meta = SystemMeta::new("split".to_string());
    register(&s.world, &mut meta, vec![(s.health, true)], vec![s.enemy], vec![]).unwrap();
    let q = register(&s.world, &mut meta, vec![(s.health, true)], vec![], vec![s.enemy]).unwrap();
    assert_eq!(q.matched_archetypes(), &vec![1]);
}

#[test]
fn marker_components_never_together_do_not_conflict() {
    let mut world = World::new();
    let x = world.init_component("X".to_string());
    let y = world.init_component("Y".to_string());
    let z = world.init_component("Z".to_string());
    world.spawn(&vec![x, y]);
    world.spawn(&vec![x, z]);
    world.spawn(&vec![x, y]);
    let mut meta_a = SystemMeta::new("a".to_string());
    let qa = register(&world, &mut meta_a, vec![(x, true)], vec![y], vec![]).unwrap();
    let qb = register(&world, &mut meta_a, vec![(x, true)], vec![z], vec![]).unwrap();
    // The component-level declarations overlap; the storage locations do not.
    assert!(!qa.component_access().is_compatible(qb.component_access()));
    assert!(qa.archetype_component_access().is_compatible(qb.archetype_component_access()));
    let tick = world.increment_change_tick();
    let va = qa.get_param(&meta_a, tick);
    let vb = qb.get_param(&meta_a, tick);
    assert_eq!(va.entities(&world), vec![0, 2]);
    assert_eq!(vb.entities(&world), vec![1]);
    assert!(va.location_access().is_compatible(vb.location_access()));
}

#[test]
fn new_archetype_extends_access() {
    let mut world = World::new();
    let x = world.init_component("X".to_string());
    let y = world.init_component("Y".to_string());
    let mut meta = SystemMeta::new("grow".to_string());
    let mut q = register(&world, &mut meta, vec![(x, true)], vec![], vec![]).unwrap();
    assert!(meta.archetype_component_access().is_empty());
    world.spawn(&vec![x, y]);
    refresh(&mut q, &world, 0, &mut meta).unwrap();
    let l = world.archetype_location(0, x).unwrap();
    assert!(meta.archetype_component_access().has_write(l));
    assert!(q.archetype_component_access().has_write(l));
    assert_eq!(q.matched_archetypes(), &vec![0]);
}

#[test]
fn new_archetype_reports_a_late_conflict() {
    let mut world = World::new();
    let x = world.init_component("X".to_string());
    let y = world.init_component("Y".to_string());
    let z = world.init_component("Z".to_string());
    let mut meta = SystemMeta::new("late".to_string());
    let mut qa = register(&world, &mut meta, vec![(x, true)], vec![y], vec![]).unwrap();
    let mut qb = register(&world, &mut meta, vec![(x, true)], vec![z], vec![]).unwrap();
    world.spawn(&vec![x, y, z]);
    refresh(&mut qa, &world, 0, &mut meta).unwrap();
    let err = match refresh(&mut qb, &world, 0, &mut meta) {
        Ok(_) => panic!("expected a conflict"),
        Err(e) => e,
    };
    assert_eq!(err.component_names(), &vec!["X".to_string()]);
    assert_eq!(qb.matched_archetypes(), &Vec::<usize>::new());
}

#[test]
fn world_read_conflicts_with_earlier_access() {
    let s = setup();
    let mut meta = SystemMeta::new("reader".to_string());
    register(&s.world, &mut meta, vec![(s.health, true)], vec![], vec![]).unwrap();
    let err = register_world_read(&s.world, &mut meta).unwrap_err();
    assert!(err.is_whole_store());
    assert_eq!(err.param_name(), "&World");
    assert_eq!(
        err.message(),
        "&World in system reader conflicts with a previous system parameter: access to the whole store excludes any other declared access. Consider merging the conflicting parameters into a `ParamSet`."
    );
    assert!(!meta.archetype_component_access().has_read_all());
}

#[test]
fn world_read_first_then_query_conflicts() {
    let s = setup();
    let mut meta = SystemMeta::new("reader".to_string());
    register_world_read(&s.world, &mut meta).unwrap();
    assert!(meta.archetype_component_access().has_read_all());
    assert!(meta.component_access().has_read_all());
    let err = match register(&s.world, &mut meta, vec![(s.health, false)], vec![], vec![]) {
        Ok(_) => panic!("expected a conflict"),
        Err(e) => e,
    };
    assert!(err.is_whole_store());
    assert!(err.component_ids().is_empty());
}

#[test]
fn param_set_accepts_conflicting_members() {
    let s = setup();
    let mut meta = SystemMeta::new("fancy_system".to_string());
    let members = vec![
        QueryDescriptor {
            fetch: vec![(s.health, true)],
            with: vec![],
            without: vec![],
            query_type: "&mut Health".to_string(),
            filter_type: "()".to_string(),
        },
        QueryDescriptor {
            fetch: vec![(s.health, true)],
            with: vec![s.ally],
            without: vec![],
            query_type: "&mut Health".to_string(),
            filter_type: "With<Ally>".to_string(),
        },
    ];
    let mut set = register_set(&s.world, &mut meta, members).unwrap();
    assert_eq!(set.len(), 2);
    let tick = s.world.change_tick();
    {
        let p0 = set.p(0, &meta, tick);
        assert_eq!(p0.entities(&s.world), vec![0, 1]);
    }
    {
        let p1 = set.p(1, &meta, tick);
        assert_eq!(p1.entities(&s.world), vec![1]);
    }
    // The union is recorded: a later reader of Health conflicts.
    let later = register(&s.world, &mut meta, vec![(s.health, false)], vec![], vec![]);
    assert!(later.is_err());
}

#[test]
fn param_set_member_conflicting_with_earlier_param_fails() {
    let s = setup();
    let mut meta = SystemMeta::new("sys".to_string());
    register(&s.world, &mut meta, vec![(s.health, false)], vec![s.enemy], vec![]).unwrap();
    let members = vec![
        QueryDescriptor {
            fetch: vec![(s.health, true)],
            with: vec![s.ally],
            without: vec![],
            query_type: "&mut Health".to_string(),
            filter_type: "With<Ally>".to_string(),
        },
        QueryDescriptor {
            fetch: vec![(s.health, true)],
            with: vec![],
            without: vec![],
            query_type: "&mut Health".to_string(),
            filter_type: "()".to_string(),
        },
    ];
    let err = match register_set(&s.world, &mut meta, members) {
        Ok(_) => panic!("expected a conflict"),
        Err(e) => e,
    };
    assert_eq!(err.param_name(), "Query<&mut Health, ()>");
    assert_eq!(err.component_ids(), &vec![s.health]);
    let h1 = s.world.archetype_location(1, s.health).unwrap();
    assert!(!meta.archetype_component_access().has_write(h1));
}

#[test]
fn param_set_takes_in_new_archetypes() {
    let mut world = World::new();
    let x = world.init_component("X".to_string());
    let mut meta = SystemMeta::new("sys".to_string());
    let members = vec![
        QueryDescriptor { fetch: vec![(x, true)], with: vec![], without: vec![], query_type: "&mut X".to_string(), filter_type: "()".to_string() },
        QueryDescriptor { fetch: vec![(x, false)], with: vec![], without: vec![], query_type: "&X".to_string(), filter_type: "()".to_string() },
    ];
    let mut set = register_set(&world, &mut meta, members).unwrap();
    world.spawn(&vec![x]);
    set.check_new_archetype(&world, 0, &meta).unwrap();
    set.new_archetype(&world, 0, &mut meta);
    let l = world.archetype_location(0, x).unwrap();
    assert!(meta.archetype_component_access().has_write(l));
    let tick = world.change_tick();
    assert_eq!(set.p(1, &meta, tick).entities(&world), vec![0]);
}

#[test]
fn world_read_excludes_queries_without_matches() {
    let mut world = World::new();
    let x = world.init_component("X".to_string());
    let mut meta = SystemMeta::new("reader".to_string());
    register_world_read(&world, &mut meta).unwrap();
    let err = match register(&world, &mut meta, vec![(x, false)], vec![], vec![]) {
        Ok(_) => panic!("expected a conflict"),
        Err(e) => e,
    };
    assert!(err.is_whole_store());
    assert_eq!(err.param_name(), "Query<&mut Health, With<Marker>>");
    // A query that fetches nothing reads no data.
    assert!(register(&world, &mut meta, vec![], vec![x], vec![]).is_ok());
}

#[test]
fn query_without_matches_excludes_later_world_read() {
    let mut world = World::new();
    let x = world.init_component("X".to_string());
    let mut meta = SystemMeta::new("writer".to_string());
    register(&world, &mut meta, vec![(x, true)], vec![], vec![]).unwrap();
    assert!(meta.archetype_component_access().is_empty());
    assert!(register_world_read(&world, &mut meta).is_err());
}

#[test]
fn assert_accepts_compatible_access() {
    let s = setup();
    let h0 = s.world.archetype_location(0, s.health).unwrap();
    let h1 = s.world.archetype_location(1, s.health).unwrap();
    let mut system = Access::new();
    system.add_write(h0);
    let mut current = Access::new();
    current.add_write(h1);
    assert!(check_component_access_compatibility("s", "&mut Health", "()", &system, &current, &s.world).is_ok());
    assert_component_access_compatibility("s", "&mut Health", "()", &system, &current, &s.world);
    current.add_read(h0);
    let err = check_component_access_compatibility("s", "&mut Health", "()", &system, &current, &s.world).unwrap_err();
    assert_eq!(err.component_names(), &vec!["Health".to_string()]);
}

#[test]
fn world_param_is_the_store() {
    let s = setup();
    assert_eq!(s.world.get_param().entity_count(), 2);
}

#[test]
fn param_set_refresh_reports_conflict_with_outside_param() {
    let mut world = World::new();
    let x = world.init_component("X".to_string());
    let y = world.init_component("Y".to_string());
    let mut meta = SystemMeta::new("sys".to_string());
    let mut outside = register(&world, &mut meta, vec![(x, true)], vec![y], vec![]).unwrap();
    let members = vec![QueryDescriptor {
        fetch: vec![(x, false)],
        with: vec![],
        without: vec![],
        query_type: "&X".to_string(),
        filter_type: "()".to_string(),
    }];
    let mut set = register_set(&world, &mut meta, members).unwrap();
    world.spawn(&vec![x, y]);
    refresh(&mut outside, &world, 0, &mut meta).unwrap();
    let err = set.check_new_archetype(&world, 0, &meta).unwrap_err();
    assert_eq!(err.component_names(), &vec!["X".to_string()]);
}

#[test]
fn disjoint_systems_stay_compatible_after_refresh() {
    let mut world = World::new();
    let x = world.init_component("X".to_string());
    let y = world.init_component("Y".to_string());
    let z = world.init_component("Z".to_string());
    let mut m1 = SystemMeta::new("s1".to_string());
    let mut m2 = SystemMeta::new("s2".to_string());
    let mut q1 = register(&world, &mut m1, vec![(x, true)], vec![y], vec![]).unwrap();
    let mut q2 = register(&world, &mut m2, vec![(x, true)], vec![z], vec![]).unwrap();
    world.spawn(&vec![x, y]);
    world.spawn(&vec![x, z]);
    for a in 0..2 {
        refresh(&mut q1, &world, a, &mut m1).unwrap();
        refresh(&mut q2, &world, a, &mut m2).unwrap();
    }
    assert!(!m1.archetype_component_access().is_empty());
    assert!(m1.archetype_component_access().is_compatible(m2.archetype_component_access()));
    assert!(!m1.component_access().is_compatible(m2.component_access()));
}

#[test]
fn param_set_reports_what_members_have_seen() {
    let s = setup();
    let mut meta = SystemMeta::new("sys".to_string());
    let members = vec![QueryDescriptor {
        fetch: vec![(s.health, false)],
        with: vec![],
        without: vec![],
        query_type: "&Health".to_string(),
        filter_type: "()".to_string(),
    }];
    let set = register_set(&s.world, &mut meta, members).unwrap();
    assert!(set.has_seen(2));
    assert!(!set.has_seen(1));
}
