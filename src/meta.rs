//! Per-system metadata: the system's name, the access its parameters have
//! declared, and the tick of its previous run.

use vstd::prelude::*;
use vstd::string::StringExecFns;
use crate::access::{Access, AccessModel};
use crate::tick::Tick;
use crate::world::World;

verus! {

/// Every storage location in `locations` is one of `world`'s, and its
/// component is declared in `components` in the same way; a whole-store
/// marker over locations is one over components too.
pub open spec fn covers(world: &World, locations: AccessModel, components: AccessModel) -> bool {
    &&& (locations.reads_all ==> components.reads_all)
    &&& (locations.writes_all ==> components.writes_all)
    &&& forall|l: usize| #[trigger] locations.reads.contains(l) ==>
        l < world.location_seq().len() && components.grants_read(world.location_seq()[l as int].1)
    &&& forall|l: usize| #[trigger] locations.writes.contains(l) ==>
        l < world.location_seq().len() && components.grants_write(world.location_seq()[l as int].1)
}

pub proof fn lemma_covers_union(world: &World, l1: AccessModel, c1: AccessModel, l2: AccessModel, c2: AccessModel)
    requires
        covers(world, l1, c1),
        covers(world, l2, c2),
    ensures
        covers(world, l1.union(l2), c1.union(c2)),
{
}

pub proof fn lemma_covers_within(world: &World, locations: AccessModel, components: AccessModel, wider: AccessModel)
    requires
        covers(world, locations, components),
        components.within(wider),
    ensures
        covers(world, locations, wider),
{
}

/// Agreement with a store survives the store's growth.
pub proof fn lemma_covers_extends(older: &World, newer: &World, locations: AccessModel, components: AccessModel)
    requires
        covers(older, locations, components),
        newer.extends(older),
    ensures
        covers(newer, locations, components),
{
    assert forall|l: usize| #[trigger] locations.reads.contains(l) implies
        l < newer.location_seq().len() && components.grants_read(newer.location_seq()[l as int].1) by {
        assert(older.location_seq()[l as int] == newer.location_seq()[l as int]);
    }
    assert forall|l: usize| #[trigger] locations.writes.contains(l) implies
        l < newer.location_seq().len() && components.grants_write(newer.location_seq()[l as int].1) by {
        assert(older.location_seq()[l as int] == newer.location_seq()[l as int]);
    }
}

/// What one system has declared about itself. Created when the system is
/// added to a store; grown while its parameters register.
#[derive(Debug)]
pub struct SystemMeta {
    name: String,
    component_access: Access,
    archetype_component_access: Access,
    last_run: Tick,
}

impl SystemMeta {
    pub closed spec fn name_view(&self) -> Seq<char> {
        self.name@
    }

    /// Declared access over component identifiers.
    pub closed spec fn components(&self) -> AccessModel {
        self.component_access@
    }

    /// Declared access over storage-location identifiers; this is what
    /// conflicts are decided on.
    pub closed spec fn locations(&self) -> AccessModel {
        self.archetype_component_access@
    }

    pub closed spec fn last_run_tick(&self) -> u32 {
        self.last_run@
    }

    /// The declaration over storage locations agrees with the one over
    /// components, in `world`.
    pub open spec fn wf(&self, world: &World) -> bool {
        covers(world, self.locations(), self.components())
    }

    pub proof fn lemma_valid(&self)
        ensures
            self.components().valid(),
            self.locations().valid(),
    {
        self.component_access.lemma_valid();
        self.archetype_component_access.lemma_valid();
    }

    /// Metadata of a system named `name` that has declared nothing and last
    /// ran at tick zero.
    pub fn new(name: String) -> (r: SystemMeta)
        ensures
            r.name_view() == name@,
            r.components() == AccessModel::empty(),
            r.locations() == AccessModel::empty(),
            r.last_run_tick() == 0,
    {
        SystemMeta {
            name,
            component_access: Access::new(),
            archetype_component_access: Access::new(),
            last_run: Tick::new(0),
        }
    }

    /// A separate metadata scope seeded with everything `self` holds; what is
    /// declared in it does not reach `self`.
    pub fn isolated_scope(&self) -> (r: SystemMeta)
        ensures
            r.name_view() == self.name_view(),
            r.components() == self.components(),
            r.locations() == self.locations(),
            r.last_run_tick() == self.last_run_tick(),
    {
        SystemMeta {
            name: String::from_str(self.name.as_str()),
            component_access: self.component_access.duplicate(),
            archetype_component_access: self.archetype_component_access.duplicate(),
            last_run: self.last_run,
        }
    }

    pub fn name(&self) -> (r: &str)
        ensures
            r@ == self.name_view(),
    {
        self.name.as_str()
    }

    pub fn component_access(&self) -> (r: &Access)
        ensures
            r@ == self.components(),
    {
        &self.component_access
    }

    pub fn archetype_component_access(&self) -> (r: &Access)
        ensures
            r@ == self.locations(),
    {
        &self.archetype_component_access
    }

    pub fn last_run(&self) -> (r: Tick)
        ensures
            r@ == self.last_run_tick(),
    {
        self.last_run
    }

    /// Records the tick at which the system last ran.
    pub fn set_last_run(&mut self, tick: Tick)
        ensures
            final(self).last_run_tick() == tick@,
            final(self).name_view() == old(self).name_view(),
            final(self).components() == old(self).components(),
            final(self).locations() == old(self).locations(),
    {
        self.last_run = tick;
    }

    /// Merges a declaration into the accumulated one, at both granularities.
    pub fn add_access(&mut self, components: &Access, locations: &Access)
        ensures
            final(self).components() == old(self).components().union(components@),
            final(self).locations() == old(self).locations().union(locations@),
            final(self).name_view() == old(self).name_view(),
            final(self).last_run_tick() == old(self).last_run_tick(),
    {
        self.component_access.extend(components);
        self.archetype_component_access.extend(locations);
    }
}

} // verus!
