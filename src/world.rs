//! A store model: registered component types, archetypes (the shards that hold
//! entities of one component composition), the storage locations that pair an
//! archetype with one of its components, entities, and the change counter.

use vstd::prelude::*;
use crate::tick::Tick;

verus! {

/// Dense identifier of a registered component type.
pub type ComponentId = usize;

/// Dense identifier of an archetype.
pub type ArchetypeId = usize;

/// Dense identifier of one (archetype, component) storage location.
pub type ArchetypeComponentId = usize;

/// `s` is sorted in strictly increasing order.
pub open spec fn strictly_increasing(s: Seq<usize>) -> bool {
    forall|i: int, j: int| 0 <= i < j < s.len() ==> s[i] < s[j]
}

/// The shared store that systems read and write.
#[derive(Debug)]
pub struct World {
    components: Vec<String>,
    archetypes: Vec<Vec<ComponentId>>,
    archetype_base: Vec<ArchetypeComponentId>,
    locations: Vec<(ArchetypeId, ComponentId)>,
    entities: Vec<ArchetypeId>,
    change_tick: Tick,
}

impl World {
    /// Names of the registered component types, by identifier.
    pub closed spec fn component_names(&self) -> Seq<Seq<char>> {
        self.components@.map_values(|s: String| s@)
    }

    /// Component identifiers of each archetype, strictly increasing.
    pub closed spec fn archetype_seq(&self) -> Seq<Seq<ComponentId>> {
        self.archetypes@.map_values(|v: Vec<ComponentId>| v@)
    }

    /// The (archetype, component) pair of each storage location.
    pub closed spec fn location_seq(&self) -> Seq<(ArchetypeId, ComponentId)> {
        self.locations@
    }

    /// The archetype of each entity.
    pub closed spec fn entity_seq(&self) -> Seq<ArchetypeId> {
        self.entities@
    }

    pub closed spec fn tick(&self) -> u32 {
        self.change_tick@
    }

    /// `self` is `older` with more components, archetypes, storage locations
    /// or entities added; the storage locations added belong to the
    /// archetypes added.
    pub open spec fn extends(&self, older: &World) -> bool {
        &&& older.component_names().is_prefix_of(self.component_names())
        &&& older.archetype_seq().is_prefix_of(self.archetype_seq())
        &&& older.location_seq().is_prefix_of(self.location_seq())
        &&& older.entity_seq().is_prefix_of(self.entity_seq())
        &&& forall|l: int| older.location_seq().len() <= l < self.location_seq().len()
            ==> #[trigger] self.location_seq()[l].0 >= older.archetype_seq().len()
    }

    pub closed spec fn wf(&self) -> bool {
        &&& self.archetype_base.len() == self.archetypes.len()
        &&& forall|a: int| 0 <= a < self.archetypes.len() ==> {
            &&& strictly_increasing(#[trigger] self.archetypes@[a]@)
            &&& self.archetype_base@[a] + self.archetypes@[a].len() <= self.locations.len()
        }
        &&& forall|a: int, i: int| 0 <= a < self.archetypes.len() && 0 <= i < self.archetypes@[a].len() ==> {
            &&& #[trigger] self.archetypes@[a]@[i] < self.components.len()
            &&& self.locations@[self.archetype_base@[a] + i] == (a as usize, self.archetypes@[a]@[i])
        }
        &&& forall|l: int| 0 <= l < self.locations.len() ==> {
            let a = (#[trigger] self.locations@[l]).0 as int;
            &&& 0 <= a < self.archetypes.len()
            &&& self.archetype_base@[a] <= l < self.archetype_base@[a] + self.archetypes@[a].len()
        }
        &&& forall|e: int| 0 <= e < self.entities.len() ==> #[trigger] self.entities@[e] < self.archetypes.len()
    }

    /// Facts of a well-formed store that other modules reason with.
    pub proof fn lemma_wf(&self)
        requires
            self.wf(),
        ensures
            self.archetype_seq().len() <= usize::MAX,
            self.location_seq().len() <= usize::MAX,
            forall|a: int| 0 <= a < self.archetype_seq().len() ==> strictly_increasing(#[trigger] self.archetype_seq()[a]),
            forall|a: int, i: int| 0 <= a < self.archetype_seq().len() && 0 <= i < self.archetype_seq()[a].len()
                ==> #[trigger] self.archetype_seq()[a][i] < self.component_names().len(),
            forall|l: int| 0 <= l < self.location_seq().len() ==> {
                let (a, c) = #[trigger] self.location_seq()[l];
                &&& a < self.archetype_seq().len()
                &&& self.archetype_seq()[a as int].contains(c)
                &&& c < self.component_names().len()
            },
            forall|e: int| 0 <= e < self.entity_seq().len() ==> #[trigger] self.entity_seq()[e] < self.archetype_seq().len(),
    {
        assert(self.locations@.len() == self.locations.len());
        assert forall|a: int, i: int| 0 <= a < self.archetype_seq().len() && 0 <= i < self.archetype_seq()[a].len()
            implies #[trigger] self.archetype_seq()[a][i] < self.component_names().len() by {
            assert(strictly_increasing(self.archetypes@[a]@));
            assert(self.locations@[self.archetype_base@[a] + i] == (a as usize, self.archetypes@[a]@[i]));
        }
        assert forall|l: int| 0 <= l < self.location_seq().len() implies {
            let (a, c) = #[trigger] self.location_seq()[l];
            &&& a < self.archetype_seq().len()
            &&& self.archetype_seq()[a as int].contains(c)
            &&& c < self.component_names().len()
        } by {
            let a = self.locations@[l].0 as int;
            let i = l - self.archetype_base@[a];
            assert(self.locations@[self.archetype_base@[a] + i] == (a as usize, self.archetypes@[a]@[i]));
            assert(self.archetype_seq()[a][i] == self.archetypes@[a]@[i]);
        }
    }

    /// Each component of an archetype has a storage location.
    pub proof fn lemma_location_exists(&self, a: int, i: int)
        requires
            self.wf(),
            0 <= a < self.archetype_seq().len(),
            0 <= i < self.archetype_seq()[a].len(),
        ensures
            exists|l: int| 0 <= l < self.location_seq().len() && #[trigger] self.location_seq()[l] == (a as usize, self.archetype_seq()[a][i]),
    {
        assert(self.archetypes@[a]@[i] < self.components.len());
        assert(strictly_increasing(self.archetypes@[a]@));
        assert(self.archetype_seq()[a][i] == self.archetypes@[a]@[i]);
        assert(self.location_seq()[self.archetype_base@[a] + i] == (a as usize, self.archetype_seq()[a][i]));
    }

    /// An empty store at change tick zero.
    pub fn new() -> (r: World)
        ensures
            r.wf(),
            r.component_names() == Seq::<Seq<char>>::empty(),
            r.archetype_seq() == Seq::<Seq<ComponentId>>::empty(),
            r.location_seq() == Seq::<(ArchetypeId, ComponentId)>::empty(),
            r.entity_seq() == Seq::<ArchetypeId>::empty(),
            r.tick() == 0,
    {
        let r = World {
            components: Vec::new(),
            archetypes: Vec::new(),
            archetype_base: Vec::new(),
            locations: Vec::new(),
            entities: Vec::new(),
            change_tick: Tick::new(0),
        };
        assert(r.component_names() =~= Seq::<Seq<char>>::empty());
        assert(r.archetype_seq() =~= Seq::<Seq<ComponentId>>::empty());
        r
    }

    /// The identifier of the component type named `name`, registering it
    /// first if no component of that name exists.
    pub fn init_component(&mut self, name: String) -> (r: ComponentId)
        requires
            old(self).wf(),
        ensures
            final(self).wf(),
            r < final(self).component_names().len(),
            final(self).component_names()[r as int] == name@,
            final(self).extends(old(self)),
            old(self).component_names().contains(name@) ==> final(self).component_names() == old(self).component_names(),
            !old(self).component_names().contains(name@) ==> final(self).component_names() == old(self).component_names().push(name@),
            final(self).archetype_seq() == old(self).archetype_seq(),
            final(self).location_seq() == old(self).location_seq(),
            final(self).entity_seq() == old(self).entity_seq(),
            final(self).tick() == old(self).tick(),
    {
        let mut i: usize = 0;
        while i < self.components.len()
            invariant
                i <= self.components.len(),
                self.wf(),
                *self == *old(self),
                forall|j: int| 0 <= j < i ==> self.components@[j]@ != name@,
            decreases self.components.len() - i,
        {
            if self.components[i] == name {
                assert(self.component_names()[i as int] == name@);
                return i;
            }
            i = i + 1;
        }
        proof {
            assert forall|j: int| 0 <= j < self.component_names().len() implies self.component_names()[j] != name@ by {
                assert(self.components@[j]@ != name@);
            }
        }
        self.components.push(name);
        assert(self.component_names() =~= old(self).component_names().push(name@));
        i
    }

    pub fn component_count(&self) -> (r: usize)
        ensures
            r == self.component_names().len(),
    {
        self.components.len()
    }

    /// The name of component `id`.
    pub fn component_name(&self, id: ComponentId) -> (r: &str)
        requires
            id < self.component_names().len(),
        ensures
            r@ == self.component_names()[id as int],
    {
        self.components[id].as_str()
    }

    pub fn archetype_count(&self) -> (r: usize)
        ensures
            r == self.archetype_seq().len(),
    {
        self.archetypes.len()
    }

    /// The component identifiers of archetype `archetype`, strictly increasing.
    pub fn archetype_components(&self, archetype: ArchetypeId) -> (r: &Vec<ComponentId>)
        requires
            archetype < self.archetype_seq().len(),
        ensures
            r@ == self.archetype_seq()[archetype as int],
    {
        &self.archetypes[archetype]
    }

    pub fn location_count(&self) -> (r: usize)
        ensures
            r == self.location_seq().len(),
    {
        self.locations.len()
    }

    /// The (archetype, component) pair of storage location `location`.
    pub fn location(&self, location: ArchetypeComponentId) -> (r: (ArchetypeId, ComponentId))
        requires
            location < self.location_seq().len(),
        ensures
            r == self.location_seq()[location as int],
    {
        self.locations[location]
    }

    /// The storage location of component `component` in archetype `archetype`,
    /// if the archetype has that component.
    pub fn archetype_location(&self, archetype: ArchetypeId, component: ComponentId) -> (r: Option<ArchetypeComponentId>)
        requires
            self.wf(),
            archetype < self.archetype_seq().len(),
        ensures
            r is Some <==> self.archetype_seq()[archetype as int].contains(component),
            match r {
                Some(l) => {
                    &&& l < self.location_seq().len()
                    &&& self.location_seq()[l as int] == (archetype, component)
                    &&& forall|k: int| 0 <= k < self.location_seq().len() && #[trigger] self.location_seq()[k] == (archetype, component) ==> k == l
                },
                None => forall|l: int| 0 <= l < self.location_seq().len() ==> #[trigger] self.location_seq()[l] != (archetype, component),
            },
    {
        assert(self.archetype_seq().len() == self.archetypes.len());
        let comps = &self.archetypes[archetype];
        let mut i: usize = 0;
        while i < comps.len()
            invariant
                i <= comps.len(),
                self.wf(),
                archetype < self.archetypes.len(),
                comps@ == self.archetypes@[archetype as int]@,
                forall|j: int| 0 <= j < i ==> comps@[j] != component,
            decreases comps.len() - i,
        {
            if comps[i] == component {
                proof {
                    assert(strictly_increasing(self.archetypes@[archetype as int]@));
                    assert(self.locations@[self.archetype_base@[archetype as int] + i] == (archetype, comps@[i as int]));
                    assert(self.archetype_seq()[archetype as int][i as int] == component);
                    assert forall|k: int| 0 <= k < self.location_seq().len() && #[trigger] self.location_seq()[k] == (archetype, component) implies k == self.archetype_base@[archetype as int] + i by {
                        let a = archetype as int;
                        let q = k - self.archetype_base@[a];
                        assert(self.locations@[self.archetype_base@[a] + q] == (archetype, self.archetypes@[a]@[q]));
                        assert(comps@[q] == component);
                    }
                }
                return Some(self.archetype_base[archetype] + i);
            }
            i = i + 1;
        }
        proof {
            assert(self.archetype_seq()[archetype as int] == comps@);
            assert forall|l: int| 0 <= l < self.location_seq().len() implies #[trigger] self.location_seq()[l] != (archetype, component) by {
                if self.locations@[l] == (archetype, component) {
                    let a = archetype as int;
                    let k = l - self.archetype_base@[a];
                    assert(strictly_increasing(self.archetypes@[a]@));
                    assert(self.locations@[self.archetype_base@[a] + k] == (archetype, self.archetypes@[a]@[k]));
                    assert(comps@[k] == component);
                }
            }
        }
        None
    }

    pub fn entity_count(&self) -> (r: usize)
        ensures
            r == self.entity_seq().len(),
    {
        self.entities.len()
    }

    /// The archetype that entity `entity` lives in.
    pub fn entity_archetype(&self, entity: usize) -> (r: ArchetypeId)
        requires
            entity < self.entity_seq().len(),
        ensures
            r == self.entity_seq()[entity as int],
    {
        self.entities[entity]
    }

    /// The current value of the change counter.
    pub fn change_tick(&self) -> (r: Tick)
        ensures
            r@ == self.tick(),
    {
        self.change_tick
    }

    /// Advances the change counter by one, wrapping, and returns its previous
    /// value.
    pub fn increment_change_tick(&mut self) -> (r: Tick)
        requires
            old(self).wf(),
        ensures
            final(self).wf(),
            r@ == old(self).tick(),
            final(self).tick() == old(self).tick().wrapping_add(1),
            final(self).component_names() == old(self).component_names(),
            final(self).archetype_seq() == old(self).archetype_seq(),
            final(self).location_seq() == old(self).location_seq(),
            final(self).entity_seq() == old(self).entity_seq(),
    {
        let prev = self.change_tick;
        self.change_tick = Tick::new(prev.get().wrapping_add(1));
        prev
    }

    /// The archetype whose component identifiers are exactly `components`.
    fn find_archetype(&self, components: &Vec<ComponentId>) -> (r: Option<ArchetypeId>)
        ensures
            match r {
                Some(a) => a < self.archetype_seq().len() && self.archetype_seq()[a as int] == components@,
                None => !self.archetype_seq().contains(components@),
            },
    {
        let mut a: usize = 0;
        while a < self.archetypes.len()
            invariant
                a <= self.archetypes.len(),
                forall|b: int| 0 <= b < a ==> #[trigger] self.archetypes@[b]@ != components@,
            decreases self.archetypes.len() - a,
        {
            if same_ids(&self.archetypes[a], components) {
                return Some(a);
            }
            a = a + 1;
        }
        proof {
            if self.archetype_seq().contains(components@) {
                let b = choose|b: int| 0 <= b < self.archetype_seq().len() && #[trigger] self.archetype_seq()[b] == components@;
                assert(self.archetypes@[b]@ == components@);
            }
        }
        None
    }

    /// Adds one entity with exactly the components `components`, creating its
    /// archetype (and that archetype's storage locations) if no entity had
    /// that composition before. Returns the entity's archetype.
    pub fn spawn(&mut self, components: &Vec<ComponentId>) -> (r: ArchetypeId)
        requires
            old(self).wf(),
            strictly_increasing(components@),
            forall|i: int| 0 <= i < components@.len() ==> #[trigger] components@[i] < old(self).component_names().len(),
        ensures
            final(self).wf(),
            final(self).extends(old(self)),
            r < final(self).archetype_seq().len(),
            final(self).archetype_seq()[r as int] == components@,
            final(self).entity_seq() == old(self).entity_seq().push(r),
            final(self).component_names() == old(self).component_names(),
            final(self).tick() == old(self).tick(),
            old(self).archetype_seq().contains(components@) ==> {
                &&& final(self).archetype_seq() == old(self).archetype_seq()
                &&& final(self).location_seq() == old(self).location_seq()
            },
            !old(self).archetype_seq().contains(components@) ==> {
                &&& r == old(self).archetype_seq().len()
                &&& final(self).archetype_seq() == old(self).archetype_seq().push(components@)
                &&& final(self).location_seq() == old(self).location_seq() + Seq::new(
                    components@.len(),
                    |i: int| (r, components@[i]),
                )
            },
    {
        let found = self.find_archetype(components);
        let a = match found {
            Some(a) => a,
            None => {
                let a = self.archetypes.len();
                let base = self.locations.len();
                let mut copy: Vec<ComponentId> = Vec::new();
                let mut new_locations: Vec<(ArchetypeId, ComponentId)> = Vec::new();
                let mut i: usize = 0;
                while i < components.len()
                    invariant
                        i <= components.len(),
                        copy@ == components@.take(i as int),
                        new_locations@ == Seq::new(i as nat, |j: int| (a, components@[j])),
                    decreases components.len() - i,
                {
                    copy.push(components[i]);
                    new_locations.push((a, components[i]));
                    assert(copy@ =~= components@.take(i + 1));
                    assert(new_locations@ =~= Seq::new((i + 1) as nat, |j: int| (a, components@[j])));
                    i = i + 1;
                }
                assert(copy@ =~= components@);
                let ghost prev = *self;
                self.archetypes.push(copy);
                self.archetype_base.push(base);
                self.locations.append(&mut new_locations);
                proof {
                    assert(self.archetype_seq() =~= prev.archetype_seq().push(components@));
                    assert forall|b: int| 0 <= b < self.archetypes.len() implies {
                        &&& strictly_increasing(#[trigger] self.archetypes@[b]@)
                        &&& self.archetype_base@[b] + self.archetypes@[b].len() <= self.locations.len()
                    } by {
                        if b < a {
                            assert(prev.archetypes@[b] == self.archetypes@[b]);
                            assert(strictly_increasing(prev.archetypes@[b]@));
                        }
                    }
                    assert forall|b: int, k: int| 0 <= b < self.archetypes.len() && 0 <= k < self.archetypes@[b].len() implies {
                        &&& #[trigger] self.archetypes@[b]@[k] < self.components.len()
                        &&& self.locations@[self.archetype_base@[b] + k] == (b as usize, self.archetypes@[b]@[k])
                    } by {
                        if b < a {
                            assert(prev.archetypes@[b] == self.archetypes@[b]);
                            assert(prev.archetypes@[b]@[k] < prev.components.len());
                            assert(strictly_increasing(prev.archetypes@[b]@));
                        } else {
                            assert(self.archetypes@[b]@[k] == components@[k]);
                        }
                    }
                    assert forall|l: int| 0 <= l < self.locations.len() implies {
                        let b = (#[trigger] self.locations@[l]).0 as int;
                        &&& 0 <= b < self.archetypes.len()
                        &&& self.archetype_base@[b] <= l < self.archetype_base@[b] + self.archetypes@[b].len()
                    } by {
                        if l < base {
                            assert(prev.locations@[l] == self.locations@[l]);
                        }
                    }
                }
                a
            },
        };
        let ghost before_push = *self;
        self.entities.push(a);
        proof {
            assert forall|e: int| 0 <= e < self.entities.len() implies #[trigger] self.entities@[e] < self.archetypes.len() by {
                if e < before_push.entities.len() {
                    assert(before_push.entities@[e] == self.entities@[e]);
                }
            }
            assert(self.archetype_seq() == before_push.archetype_seq());
        }
        a
    }
}

fn same_ids(x: &Vec<usize>, y: &Vec<usize>) -> (r: bool)
    ensures
        r == (x@ == y@),
{
    if x.len() != y.len() {
        return false;
    }
    let mut i: usize = 0;
    while i < x.len()
        invariant
            i <= x.len(),
            x.len() == y.len(),
            forall|j: int| 0 <= j < i ==> x@[j] == y@[j],
        decreases x.len() - i,
    {
        if x[i] != y[i] {
            return false;
        }
        i = i + 1;
    }
    assert(x@ =~= y@);
    true
}

} // verus!
