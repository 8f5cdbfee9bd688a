use system_param::conflict::AccessConflict;
use system_param::meta::SystemMeta;
use system_param::param_set::QueryDescriptor;
use system_param::params::StaticSystemParam;
use system_param::tuple::ParamTuple;
use system_param::world::World;

fn query(fetch: Vec<(usize, bool)>, with: Vec<usize>, without: Vec<usize>, name: &str) -> QueryDescriptor {
    QueryDescriptor { fetch, with, without, query_type: name.to_string(), filter_type: "()".to_string() }
}

fn register_tuple(world: &World, meta: &mut SystemMeta, members: Vec<QueryDescriptor>) -> Result<ParamTuple, AccessConflict> {
    ParamTuple::check_init_state(world, meta, &members)?;
    Ok(ParamTuple::init_state(world, meta, members))
}

fn refresh_tuple(t: &mut ParamTuple, world: &World, archetype: usize, meta: &mut SystemMeta) -> Result<(), AccessConflict> {
    t.check_new_archetype(world, archetype, meta)?;
    t.new_archetype(world, archetype, meta);
    Ok(())
}

#[test]
fn tuple_registers_compatible_members() {
    let mut world = World::new();
    let x = world.init_component("X".to_string());
    let y = world.init_component("Y".to_string());
    world.spawn(&vec![x]);
    world.spawn(&vec![y]);
    let mut meta = SystemMeta::new("pair".to_string());
    let t = register_tuple(
        &world,
        &mut meta,
        vec![query(vec![(x, true)], vec![], vec![], "&mut X"), query(vec![(y, true)], vec![], vec![], "&mut Y")],
    )
    .unwrap();
    assert_eq!(t.len(), 2);
    let tick = world.change_tick();
    assert_eq!(t.get_param(0, &meta, tick).entities(&world), vec![0]);
    assert_eq!(t.get_param(1, &meta, tick).entities(&world), vec![1]);
    assert!(meta.archetype_component_access().has_write(world.archetype_location(0, x).unwrap()));
    assert!(meta.archetype_component_access().has_write(world.archetype_location(1, y).unwrap()));
}

#[test]
fn tuple_reports_the_first_conflict() {
    let mut world = World::new();
    let x = world.init_component("X".to_string());
    let y = world.init_component("Y".to_string());
    world.spawn(&vec![x, y]);
    let mut meta = SystemMeta::new("triple".to_string());
    let err = register_tuple(
        &world,
        &mut meta,
        vec![
            query(vec![(x, true)], vec![], vec![], "&mut X"),
            query(vec![(y, false), (x, false)], vec![], vec![], "(&Y, &X)"),
            query(vec![(y, true)], vec![], vec![], "&mut Y"),
        ],
    )
    .unwrap_err();
    assert_eq!(err.param_name(), "Query<(&Y, &X), ()>");
    assert_eq!(err.component_names(), &vec!["X".to_string()]);
    assert!(meta.archetype_component_access().is_empty());
}

#[test]
fn tuple_takes_in_new_archetypes_in_order() {
    let mut world = World::new();
    let x = world.init_component("X".to_string());
    let y = world.init_component("Y".to_string());
    let z = world.init_component("Z".to_string());
    let mut meta = SystemMeta::new("grow".to_string());
    let mut t = register_tuple(
        &world,
        &mut meta,
        vec![query(vec![(x, true)], vec![y], vec![], "&mut X"), query(vec![(x, false)], vec![z], vec![], "&X")],
    )
    .unwrap();
    world.spawn(&vec![x, y]);
    refresh_tuple(&mut t, &world, 0, &mut meta).unwrap();
    world.spawn(&vec![x, y, z]);
    let err = refresh_tuple(&mut t, &world, 1, &mut meta).unwrap_err();
    assert_eq!(err.param_name(), "Query<&X, ()>");
    let l = world.archetype_location(1, x).unwrap();
    assert!(!meta.archetype_component_access().has_read(l));
    assert!(meta.archetype_component_access().has_write(world.archetype_location(0, x).unwrap()));
}

#[test]
fn static_param_passes_through() {
    let wrapped = StaticSystemParam::get_param(17u32);
    assert_eq!(*wrapped.get(), 17);
    assert_eq!(wrapped.into_inner(), 17);
}

#[test]
fn tuple_members_report_what_they_have_seen() {
    let mut world = World::new();
    let x = world.init_component("X".to_string());
    let mut meta = SystemMeta::new("seen".to_string());
    let mut t = register_tuple(&world, &mut meta, vec![query(vec![(x, false)], vec![], vec![], "&X")]).unwrap();
    assert!(t.has_seen(0));
    world.spawn(&vec![x]);
    refresh_tuple(&mut t, &world, 0, &mut meta).unwrap();
    assert!(t.has_seen(1));
    assert!(!t.has_seen(0));
}
