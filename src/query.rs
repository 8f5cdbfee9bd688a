//! The filtered store view: a query's state, its registration against a
//! system's metadata, its refresh when archetypes appear, and the value a run
//! receives.

use vstd::prelude::*;
use vstd::string::StringExecFns;
use crate::access::{Access, AccessModel};
use crate::conflict::{check_component_access_compatibility, components_of, marker_allows, query_name, refers_to, AccessConflict};
use crate::meta::{covers, lemma_covers_union, lemma_covers_within, SystemMeta};
use crate::tick::Tick;
use crate::world::{ArchetypeId, ComponentId, World};

verus! {

/// Some term of `fetch` reads (or writes) component `c`.
pub open spec fn fetches(fetch: Seq<(ComponentId, bool)>, c: ComponentId) -> bool {
    exists|i: int| 0 <= i < fetch.len() && #[trigger] fetch[i].0 == c
}

/// Some term of `fetch` writes component `c`.
pub open spec fn fetches_mut(fetch: Seq<(ComponentId, bool)>, c: ComponentId) -> bool {
    exists|i: int| 0 <= i < fetch.len() && #[trigger] fetch[i] == (c, true)
}

/// An archetype with components `arch` matches a query when it has every
/// fetched component and every `with` component, and no `without` component.
pub open spec fn archetype_matches(
    arch: Seq<ComponentId>,
    fetch: Seq<(ComponentId, bool)>,
    with: Seq<ComponentId>,
    without: Seq<ComponentId>,
) -> bool {
    &&& forall|i: int| 0 <= i < fetch.len() ==> arch.contains(#[trigger] fetch[i].0)
    &&& forall|i: int| 0 <= i < with.len() ==> arch.contains(#[trigger] with[i])
    &&& forall|i: int| 0 <= i < without.len() ==> !arch.contains(#[trigger] without[i])
}

/// The storage locations of archetype `a` that a query touches.
pub open spec fn query_delta(
    world: &World,
    fetch: Seq<(ComponentId, bool)>,
    with: Seq<ComponentId>,
    without: Seq<ComponentId>,
    a: int,
) -> AccessModel {
    AccessModel {
        reads_all: false,
        writes_all: false,
        reads: Set::new(|l: usize| {
            &&& l < world.location_seq().len()
            &&& world.location_seq()[l as int].0 == a
            &&& archetype_matches(world.archetype_seq()[a], fetch, with, without)
            &&& fetches(fetch, world.location_seq()[l as int].1)
        }),
        writes: Set::new(|l: usize| {
            &&& l < world.location_seq().len()
            &&& world.location_seq()[l as int].0 == a
            &&& archetype_matches(world.archetype_seq()[a], fetch, with, without)
            &&& fetches_mut(fetch, world.location_seq()[l as int].1)
        }),
    }
}

/// The storage locations, in the first `n` archetypes, that a query touches.
pub open spec fn query_locations(
    world: &World,
    fetch: Seq<(ComponentId, bool)>,
    with: Seq<ComponentId>,
    without: Seq<ComponentId>,
    n: nat,
) -> AccessModel {
    AccessModel {
        reads_all: false,
        writes_all: false,
        reads: Set::new(|l: usize| {
            &&& l < world.location_seq().len()
            &&& world.location_seq()[l as int].0 < n
            &&& archetype_matches(world.archetype_seq()[world.location_seq()[l as int].0 as int], fetch, with, without)
            &&& fetches(fetch, world.location_seq()[l as int].1)
        }),
        writes: Set::new(|l: usize| {
            &&& l < world.location_seq().len()
            &&& world.location_seq()[l as int].0 < n
            &&& archetype_matches(world.archetype_seq()[world.location_seq()[l as int].0 as int], fetch, with, without)
            &&& fetches_mut(fetch, world.location_seq()[l as int].1)
        }),
    }
}

/// Two queries whose archetypes never coincide do not conflict, whatever they
/// write: a system that has declared nothing accepts the first and then the
/// second.
pub proof fn lemma_disjoint_queries_compatible(
    world: &World,
    fetch1: Seq<(ComponentId, bool)>,
    with1: Seq<ComponentId>,
    without1: Seq<ComponentId>,
    fetch2: Seq<(ComponentId, bool)>,
    with2: Seq<ComponentId>,
    without2: Seq<ComponentId>,
)
    requires
        world.wf(),
        forall|a: int| 0 <= a < world.archetype_seq().len() ==> !(
            archetype_matches(#[trigger] world.archetype_seq()[a], fetch1, with1, without1)
            && archetype_matches(world.archetype_seq()[a], fetch2, with2, without2)),
    ensures
        ({
            let first = query_locations(world, fetch1, with1, without1, world.archetype_seq().len());
            let second = query_locations(world, fetch2, with2, without2, world.archetype_seq().len());
            &&& first.compatible(second)
            &&& AccessModel::empty().union(first).compatible(second)
        }),
{
    let n = world.archetype_seq().len();
    let first = query_locations(world, fetch1, with1, without1, n);
    let second = query_locations(world, fetch2, with2, without2, n);
    assert forall|l: usize| !first.conflicts(second).contains(l) by {
        if first.conflicts(second).contains(l) {
            let a = world.location_seq()[l as int].0 as int;
            assert(archetype_matches(world.archetype_seq()[a], fetch1, with1, without1));
            assert(archetype_matches(world.archetype_seq()[a], fetch2, with2, without2));
        }
    }
    assert(first.conflicts(second) =~= Set::empty());
    crate::access::lemma_empty_accepts_all(first);
}

/// In a system whose two declarations agree, a query whose component access
/// does not conflict with the system's component access is accepted: the
/// check on storage locations never rejects what the check on components
/// accepts.
pub proof fn lemma_component_compatible_suffices(
    world: &World,
    meta: &SystemMeta,
    fetch: Seq<(ComponentId, bool)>,
    with: Seq<ComponentId>,
    without: Seq<ComponentId>,
)
    requires
        world.wf(),
        meta.wf(world),
        meta.components().compatible(QueryState::declared_components(fetch)),
    ensures
        meta.locations().compatible(query_locations(world, fetch, with, without, world.archetype_seq().len())),
        marker_allows(meta.components(), QueryState::declared_components(fetch)),
{
    let n = world.archetype_seq().len();
    let c = QueryState::declared_components(fetch);
    let l = query_locations(world, fetch, with, without, n);
    let k = meta.components();
    let m = meta.locations();
    meta.lemma_valid();
    if k.has_marker() {
        assert forall|x: ComponentId| !c.reads.contains(x) by {}
        assert(c.reads =~= Set::empty());
        assert(c.writes =~= Set::empty());
        assert forall|x: usize| !l.reads.contains(x) && !l.writes.contains(x) by {
            if l.reads.contains(x) {
                assert(c.reads.contains(world.location_seq()[x as int].1));
            }
            if l.writes.contains(x) {
                assert(c.writes.contains(world.location_seq()[x as int].1));
            }
        }
        assert(l.reads =~= Set::empty());
        assert(l.writes =~= Set::empty());
    } else {
        assert forall|x: usize| !m.conflicts(l).contains(x) by {
            if m.writes.contains(x) && l.reads.contains(x) {
                assert(k.conflicts(c).contains(world.location_seq()[x as int].1));
            }
            if l.writes.contains(x) && m.reads.contains(x) {
                assert(k.conflicts(c).contains(world.location_seq()[x as int].1));
            }
        }
        assert(m.conflicts(l) =~= Set::empty());
    }
}

/// Two queries that both match an archetype holding component `c`, the first
/// writing `c` and the second reading or writing it, conflict: a system that
/// has declared nothing accepts the first and rejects the second, and the
/// overlap names `c`.
pub proof fn lemma_shared_write_conflicts(
    world: &World,
    fetch1: Seq<(ComponentId, bool)>,
    with1: Seq<ComponentId>,
    without1: Seq<ComponentId>,
    fetch2: Seq<(ComponentId, bool)>,
    with2: Seq<ComponentId>,
    without2: Seq<ComponentId>,
    a: int,
    c: ComponentId,
)
    requires
        world.wf(),
        0 <= a < world.archetype_seq().len(),
        world.archetype_seq()[a].contains(c),
        archetype_matches(world.archetype_seq()[a], fetch1, with1, without1),
        archetype_matches(world.archetype_seq()[a], fetch2, with2, without2),
        fetches_mut(fetch1, c),
        fetches(fetch2, c),
    ensures
        ({
            let first = AccessModel::empty().union(query_locations(world, fetch1, with1, without1, world.archetype_seq().len()));
            let second = query_locations(world, fetch2, with2, without2, world.archetype_seq().len());
            &&& !first.compatible(second)
            &&& !first.conflicts_everything(second)
            &&& components_of(world, first.conflicts(second)).contains(c)
        }),
{
    let n = world.archetype_seq().len();
    let first = query_locations(world, fetch1, with1, without1, n);
    let second = query_locations(world, fetch2, with2, without2, n);
    crate::access::lemma_empty_accepts_all(first);
    world.lemma_wf();
    let i = choose|i: int| 0 <= i < world.archetype_seq()[a].len() && world.archetype_seq()[a][i] == c;
    world.lemma_location_exists(a, i);
    let l = choose|l: int| 0 <= l < world.location_seq().len() && #[trigger] world.location_seq()[l] == (a as usize, world.archetype_seq()[a][i]);
    let j = choose|j: int| 0 <= j < fetch1.len() && #[trigger] fetch1[j] == (c, true);
    assert(fetch1[j].0 == c);
    assert(first.writes.contains(l as usize));
    assert(second.reads.contains(l as usize));
    assert(first.conflicts(second).contains(l as usize));
    assert(components_of(world, first.conflicts(second)).contains(c));
}

pub(crate) fn copy_vec<T: Copy>(v: &Vec<T>) -> (r: Vec<T>)
    ensures
        r@ == v@,
{
    let mut r: Vec<T> = Vec::new();
    let mut i: usize = 0;
    while i < v.len()
        invariant
            i <= v.len(),
            r@ == v@.take(i as int),
        decreases v.len() - i,
    {
        r.push(v[i]);
        assert(r@ =~= v@.take(i + 1));
        i = i + 1;
    }
    assert(v@.take(i as int) =~= v@);
    r
}

/// The registered state of one query parameter: what it fetches, its filters,
/// how many of the store's archetypes it has looked at, which of those it
/// matched, and the access it has declared.
#[derive(Debug)]
pub struct QueryState {
    fetch: Vec<(ComponentId, bool)>,
    with: Vec<ComponentId>,
    without: Vec<ComponentId>,
    query_type: String,
    filter_type: String,
    archetypes_seen: usize,
    matched_archetypes: Vec<ArchetypeId>,
    component_access: Access,
    archetype_component_access: Access,
}

impl QueryState {
    /// The fetched components, each with whether it is written.
    pub closed spec fn fetch_seq(&self) -> Seq<(ComponentId, bool)> {
        self.fetch@
    }

    pub closed spec fn with_seq(&self) -> Seq<ComponentId> {
        self.with@
    }

    pub closed spec fn without_seq(&self) -> Seq<ComponentId> {
        self.without@
    }

    /// How many archetypes, from the first, the state has looked at.
    pub closed spec fn seen(&self) -> nat {
        self.archetypes_seen as nat
    }

    pub closed spec fn matched_seq(&self) -> Seq<ArchetypeId> {
        self.matched_archetypes@
    }

    /// Declared access over storage locations.
    pub closed spec fn locations(&self) -> AccessModel {
        self.archetype_component_access@
    }

    /// Declared access over components.
    pub closed spec fn components(&self) -> AccessModel {
        self.component_access@
    }

    pub open spec fn matches_in(&self, world: &World, a: int) -> bool {
        archetype_matches(world.archetype_seq()[a], self.fetch_seq(), self.with_seq(), self.without_seq())
    }

    /// The storage locations of archetype `a` that the query touches.
    pub open spec fn archetype_delta(&self, world: &World, a: int) -> AccessModel {
        query_delta(world, self.fetch_seq(), self.with_seq(), self.without_seq(), a)
    }

    /// The storage locations, in the first `n` archetypes, that the query
    /// touches.
    pub open spec fn declared_locations(&self, world: &World, n: nat) -> AccessModel {
        query_locations(world, self.fetch_seq(), self.with_seq(), self.without_seq(), n)
    }

    /// The component access the fetch terms declare.
    pub open spec fn declared_components(fetch: Seq<(ComponentId, bool)>) -> AccessModel {
        AccessModel {
            reads_all: false,
            writes_all: false,
            reads: Set::new(|c: ComponentId| fetches(fetch, c)),
            writes: Set::new(|c: ComponentId| fetches_mut(fetch, c)),
        }
    }

    /// The state agrees with the first `seen()` archetypes of `world`.
    pub closed spec fn wf(&self, world: &World) -> bool {
        &&& world.wf()
        &&& self.archetypes_seen <= world.archetype_seq().len()
        &&& self.locations() == self.declared_locations(world, self.seen())
        &&& self.components() == Self::declared_components(self.fetch_seq())
        &&& forall|a: ArchetypeId| #[trigger] self.matched_archetypes@.contains(a) <==> (a < self.archetypes_seen && self.matches_in(world, a as int))
    }

    /// The query's storage-location access agrees with its component access.
    pub proof fn lemma_covers(&self, world: &World)
        requires
            self.wf(world),
        ensures
            covers(world, self.locations(), self.components()),
    {
    }

    /// The access a query adds for one archetype agrees with its component
    /// access.
    pub proof fn lemma_delta_covers(&self, world: &World, a: int)
        requires
            self.wf(world),
        ensures
            covers(world, self.archetype_delta(world, a), self.components()),
    {
    }

    /// Two query states, of one system or of two, whose archetypes never
    /// coincide stay compatible however many archetypes each has taken in:
    /// the storage locations decide, whatever the components share.
    pub proof fn lemma_disjoint_states_compatible(world: &World, first: &QueryState, second: &QueryState)
        requires
            first.wf(world),
            second.wf(world),
            forall|a: int| 0 <= a < world.archetype_seq().len() ==>
                !(#[trigger] first.matches_in(world, a) && second.matches_in(world, a)),
        ensures
            first.locations().compatible(second.locations()),
    {
        let l1 = first.locations();
        let l2 = second.locations();
        assert forall|l: usize| !l1.conflicts(l2).contains(l) by {
            if l1.conflicts(l2).contains(l) {
                let a = world.location_seq()[l as int].0 as int;
                assert(first.matches_in(world, a) && second.matches_in(world, a));
            }
        }
        assert(l1.conflicts(l2) =~= Set::empty());
    }

    /// A state that stays in agreement with the store as the store grows.
    pub proof fn lemma_wf_extends(&self, older: &World, newer: &World)
        requires
            self.wf(older),
            newer.wf(),
            newer.extends(older),
        ensures
            self.wf(newer),
    {
        let n = self.seen();
        assert forall|a: int| 0 <= a < n implies self.matches_in(older, a) == self.matches_in(newer, a) by {
            assert(older.archetype_seq()[a] == newer.archetype_seq()[a]);
        }
        assert forall|l: usize| l < newer.location_seq().len() && newer.location_seq()[l as int].0 < n
            implies l < older.location_seq().len() && older.location_seq()[l as int] == newer.location_seq()[l as int] by {
            if l >= older.location_seq().len() {
                assert(newer.location_seq()[l as int].0 >= older.archetype_seq().len());
            }
        }
        assert(self.declared_locations(older, n).reads =~= self.declared_locations(newer, n).reads);
        assert(self.declared_locations(older, n).writes =~= self.declared_locations(newer, n).writes);
        assert forall|a: ArchetypeId| #[trigger] self.matched_archetypes@.contains(a) <==> (a < self.archetypes_seen && self.matches_in(newer, a as int)) by {
            if a < self.archetypes_seen {
                assert(self.matches_in(older, a as int) == self.matches_in(newer, a as int));
            }
        }
    }

    /// Whether archetype `a` matches, and the access it adds if so.
    fn archetype_access(&self, world: &World, a: ArchetypeId) -> (r: (bool, Access))
        requires
            world.wf(),
            a < world.archetype_seq().len(),
        ensures
            r.0 == self.matches_in(world, a as int),
            r.1@ == self.archetype_delta(world, a as int),
    {
        let ghost arch = world.archetype_seq()[a as int];
        let mut matched = true;
        let mut i: usize = 0;
        while i < self.fetch.len()
            invariant
                world.wf(),
                a < world.archetype_seq().len(),
                arch == world.archetype_seq()[a as int],
                i <= self.fetch.len(),
                matched == forall|j: int| 0 <= j < i ==> arch.contains(#[trigger] self.fetch@[j].0),
            decreases self.fetch.len() - i,
        {
            if world.archetype_location(a, self.fetch[i].0).is_none() {
                matched = false;
            }
            i = i + 1;
        }
        let mut i: usize = 0;
        while i < self.with.len()
            invariant
                world.wf(),
                a < world.archetype_seq().len(),
                arch == world.archetype_seq()[a as int],
                i <= self.with.len(),
                matched == ((forall|j: int| 0 <= j < self.fetch.len() ==> arch.contains(#[trigger] self.fetch@[j].0))
                    && forall|j: int| 0 <= j < i ==> arch.contains(#[trigger] self.with@[j])),
            decreases self.with.len() - i,
        {
            if world.archetype_location(a, self.with[i]).is_none() {
                matched = false;
            }
            i = i + 1;
        }
        let mut i: usize = 0;
        while i < self.without.len()
            invariant
                world.wf(),
                a < world.archetype_seq().len(),
                arch == world.archetype_seq()[a as int],
                i <= self.without.len(),
                matched == ((forall|j: int| 0 <= j < self.fetch.len() ==> arch.contains(#[trigger] self.fetch@[j].0))
                    && (forall|j: int| 0 <= j < self.with.len() ==> arch.contains(#[trigger] self.with@[j]))
                    && forall|j: int| 0 <= j < i ==> !arch.contains(#[trigger] self.without@[j])),
            decreases self.without.len() - i,
        {
            if world.archetype_location(a, self.without[i]).is_some() {
                matched = false;
            }
            i = i + 1;
        }
        let mut delta = Access::new();
        if matched {
            let mut i: usize = 0;
            while i < self.fetch.len()
                invariant
                    world.wf(),
                    a < world.archetype_seq().len(),
                    arch == world.archetype_seq()[a as int],
                    matched,
                    self.matches_in(world, a as int),
                    i <= self.fetch.len(),
                    !delta@.reads_all,
                    !delta@.writes_all,
                    forall|l: usize| #[trigger] delta@.reads.contains(l) <==> (l < world.location_seq().len()
                        && world.location_seq()[l as int].0 == a && fetches(self.fetch@.take(i as int), world.location_seq()[l as int].1)),
                    forall|l: usize| #[trigger] delta@.writes.contains(l) <==> (l < world.location_seq().len()
                        && world.location_seq()[l as int].0 == a && fetches_mut(self.fetch@.take(i as int), world.location_seq()[l as int].1)),
                decreases self.fetch.len() - i,
            {
                let (c, write) = self.fetch[i];
                assert(arch.contains(self.fetch@[i as int].0));
                let l = match world.archetype_location(a, c) {
                    Some(l) => l,
                    None => {
                        assert(false);
                        0
                    },
                };
                if write {
                    delta.add_write(l);
                } else {
                    delta.add_read(l);
                }
                proof {
                    let t = self.fetch@.take(i as int);
                    let t1 = self.fetch@.take(i + 1);
                    assert(t1 =~= t.push((c, write)));
                    assert forall|x: ComponentId| fetches(t1, x) <==> (fetches(t, x) || x == c) by {
                        if fetches(t, x) {
                            let j = choose|j: int| 0 <= j < t.len() && #[trigger] t[j].0 == x;
                            assert(t1[j].0 == x);
                        }
                        if x == c {
                            assert(t1[i as int].0 == x);
                        }
                        if fetches(t1, x) {
                            let j = choose|j: int| 0 <= j < t1.len() && #[trigger] t1[j].0 == x;
                            if j < i {
                                assert(t[j].0 == x);
                            }
                        }
                    }
                    assert forall|x: ComponentId| fetches_mut(t1, x) <==> (fetches_mut(t, x) || (x == c && write)) by {
                        if fetches_mut(t, x) {
                            let j = choose|j: int| 0 <= j < t.len() && #[trigger] t[j] == (x, true);
                            assert(t1[j] == (x, true));
                        }
                        if x == c && write {
                            assert(t1[i as int] == (x, true));
                        }
                        if fetches_mut(t1, x) {
                            let j = choose|j: int| 0 <= j < t1.len() && #[trigger] t1[j] == (x, true);
                            if j < i {
                                assert(t[j] == (x, true));
                            }
                        }
                    }
                    assert forall|k: usize| k < world.location_seq().len() && world.location_seq()[k as int].0 == a
                        && world.location_seq()[k as int].1 == c implies k == l by {
                        assert(world.location_seq()[k as int] == (a, c));
                    }
                }
                i = i + 1;
            }
            assert(self.fetch@.take(i as int) =~= self.fetch@);
            assert(delta@.reads =~= self.archetype_delta(world, a as int).reads);
            assert(delta@.writes =~= self.archetype_delta(world, a as int).writes);
        } else {
            assert(delta@.reads =~= self.archetype_delta(world, a as int).reads);
            assert(delta@.writes =~= self.archetype_delta(world, a as int).writes);
        }
        (matched, delta)
    }

    pub proof fn lemma_declared_locations_step(&self, world: &World, n: nat)
        requires
            world.wf(),
        ensures
            self.declared_locations(world, n + 1) == self.declared_locations(world, n).union(self.archetype_delta(world, n as int)),
    {
        assert(self.declared_locations(world, n + 1).reads =~= self.declared_locations(world, n).union(self.archetype_delta(world, n as int)).reads);
        assert(self.declared_locations(world, n + 1).writes =~= self.declared_locations(world, n).union(self.archetype_delta(world, n as int)).writes);
    }

    /// A state that has looked at no archetype yet.
    fn unregistered(
        fetch: Vec<(ComponentId, bool)>,
        with: Vec<ComponentId>,
        without: Vec<ComponentId>,
        query_type: &str,
        filter_type: &str,
        world: &World,
    ) -> (r: QueryState)
        requires
            world.wf(),
        ensures
            r.wf(world),
            r.seen() == 0,
            r.fetch_seq() == fetch@,
            r.with_seq() == with@,
            r.without_seq() == without@,
            r.query_type@ == query_type@,
            r.filter_type@ == filter_type@,
    {
        let mut component_access = Access::new();
        let mut i: usize = 0;
        while i < fetch.len()
            invariant
                i <= fetch.len(),
                component_access@ == Self::declared_components(fetch@.take(i as int)),
            decreases fetch.len() - i,
        {
            let (c, write) = fetch[i];
            if write {
                component_access.add_write(c);
            } else {
                component_access.add_read(c);
            }
            proof {
                let t = fetch@.take(i as int);
                let t1 = fetch@.take(i + 1);
                assert(t1 =~= t.push((c, write)));
                assert forall|x: ComponentId| fetches(t1, x) <==> (fetches(t, x) || x == c) by {
                    if fetches(t, x) {
                        let j = choose|j: int| 0 <= j < t.len() && #[trigger] t[j].0 == x;
                        assert(t1[j].0 == x);
                    }
                    if x == c {
                        assert(t1[i as int].0 == x);
                    }
                    if fetches(t1, x) {
                        let j = choose|j: int| 0 <= j < t1.len() && #[trigger] t1[j].0 == x;
                        if j < i {
                            assert(t[j].0 == x);
                        }
                    }
                }
                assert forall|x: ComponentId| fetches_mut(t1, x) <==> (fetches_mut(t, x) || (x == c && write)) by {
                    if fetches_mut(t, x) {
                        let j = choose|j: int| 0 <= j < t.len() && #[trigger] t[j] == (x, true);
                        assert(t1[j] == (x, true));
                    }
                    if x == c && write {
                        assert(t1[i as int] == (x, true));
                    }
                    if fetches_mut(t1, x) {
                        let j = choose|j: int| 0 <= j < t1.len() && #[trigger] t1[j] == (x, true);
                        if j < i {
                            assert(t[j] == (x, true));
                        }
                    }
                }
                assert(component_access@.reads =~= Self::declared_components(t1).reads);
                assert(component_access@.writes =~= Self::declared_components(t1).writes);
            }
            i = i + 1;
        }
        assert(fetch@.take(i as int) =~= fetch@);
        let r = QueryState {
            fetch,
            with,
            without,
            query_type: String::from_str(query_type),
            filter_type: String::from_str(filter_type),
            archetypes_seen: 0,
            matched_archetypes: Vec::new(),
            component_access,
            archetype_component_access: Access::new(),
        };
        assert(r.locations() =~= r.declared_locations(world, 0));
        r
    }

    pub closed spec fn query_type_view(&self) -> Seq<char> {
        self.query_type@
    }

    pub closed spec fn filter_type_view(&self) -> Seq<char> {
        self.filter_type@
    }

    /// Looks at archetype `archetype`, the next one, without taking it in:
    /// its match, and the access it adds unless that overlaps `system_access`.
    pub(crate) fn check_archetype(
        &self,
        world: &World,
        archetype: ArchetypeId,
        system_name: &str,
        system_access: &Access,
    ) -> (r: Result<(bool, Access), AccessConflict>)
        requires
            self.wf(world),
            archetype < world.archetype_seq().len(),
        ensures
            r is Ok <==> system_access@.compatible(self.archetype_delta(world, archetype as int)),
            match r {
                Ok((matched, delta)) => matched == self.matches_in(world, archetype as int) && delta@ == self.archetype_delta(world, archetype as int),
                Err(_) => true,
            },
    {
        let (matched, delta) = self.archetype_access(world, archetype);
        let checked = check_component_access_compatibility(
            system_name,
            self.query_type.as_str(),
            self.filter_type.as_str(),
            system_access,
            &delta,
            world,
        );
        match checked {
            Ok(()) => Ok((matched, delta)),
            Err(e) => Err(e),
        }
    }

    /// Takes in the next archetype, whose match and access are given.
    pub(crate) fn advance(&mut self, world: &World, matched: bool, delta: &Access)
        requires
            old(self).wf(world),
            old(self).seen() < world.archetype_seq().len(),
            matched == old(self).matches_in(world, old(self).seen() as int),
            delta@ == old(self).archetype_delta(world, old(self).seen() as int),
        ensures
            final(self).wf(world),
            final(self).seen() == old(self).seen() + 1,
            final(self).fetch_seq() == old(self).fetch_seq(),
            final(self).with_seq() == old(self).with_seq(),
            final(self).without_seq() == old(self).without_seq(),
            final(self).query_type_view() == old(self).query_type_view(),
            final(self).filter_type_view() == old(self).filter_type_view(),
            final(self).locations() == old(self).locations().union(delta@),
    {
        let a = self.archetypes_seen;
        proof {
            world.lemma_wf();
        }
        if matched {
            self.matched_archetypes.push(a);
        }
        self.archetype_component_access.extend(delta);
        self.archetypes_seen = a + 1;
        proof {
            old(self).lemma_declared_locations_step(world, a as nat);
            assert forall|x: ArchetypeId| #[trigger] self.matched_archetypes@.contains(x) <==> (x < self.archetypes_seen && self.matches_in(world, x as int)) by {
                assert(self.matches_in(world, x as int) == old(self).matches_in(world, x as int));
                assert(old(self).matched_archetypes@.contains(x) <==> (x < a && old(self).matches_in(world, x as int)));
                if !matched {
                    assert(self.matched_archetypes@ == old(self).matched_archetypes@);
                }
                if matched && x == a {
                    assert(self.matched_archetypes@[self.matched_archetypes@.len() - 1] == a);
                }
                if self.matched_archetypes@.contains(x) && x != a {
                    let k = choose|k: int| 0 <= k < self.matched_archetypes@.len() && self.matched_archetypes@[k] == x;
                    assert(old(self).matched_archetypes@[k] == x);
                }
                if x < a && old(self).matched_archetypes@.contains(x) {
                    let k = choose|k: int| 0 <= k < old(self).matched_archetypes@.len() && old(self).matched_archetypes@[k] == x;
                    assert(self.matched_archetypes@[k] == x);
                }
            }
        }
    }

    /// Registers the query, or returns the conflict and records nothing.
    pub(crate) fn try_init_state(
        world: &World,
        meta: &mut SystemMeta,
        fetch: Vec<(ComponentId, bool)>,
        with: Vec<ComponentId>,
        without: Vec<ComponentId>,
        query_type: &str,
        filter_type: &str,
    ) -> (r: Result<QueryState, AccessConflict>)
        requires
            world.wf(),
        ensures
            r is Ok <==> {
                &&& old(meta).locations().compatible(query_locations(world, fetch@, with@, without@, world.archetype_seq().len()))
                &&& marker_allows(old(meta).components(), Self::declared_components(fetch@))
            },
            match r {
                Ok(s) => {
                    &&& s.wf(world)
                    &&& s.seen() == world.archetype_seq().len()
                    &&& s.fetch_seq() == fetch@
                    &&& s.with_seq() == with@
                    &&& s.without_seq() == without@
                    &&& s.locations() == query_locations(world, fetch@, with@, without@, world.archetype_seq().len())
                    &&& s.components() == Self::declared_components(fetch@)
                    &&& final(meta).locations() == old(meta).locations().union(s.locations())
                    &&& final(meta).components() == old(meta).components().union(s.components())
                    &&& final(meta).name_view() == old(meta).name_view()
                    &&& final(meta).last_run_tick() == old(meta).last_run_tick()
                },
                Err(e) => {
                    let current = query_locations(world, fetch@, with@, without@, world.archetype_seq().len());
                    &&& *final(meta) == *old(meta)
                    &&& e.system_name_view() == old(meta).name_view()
                    &&& e.param_name_view() == "Query<"@ + query_type@ + ", "@ + filter_type@ + ">"@
                    &&& e.whole_store_view() == (old(meta).locations().conflicts_everything(current)
                        || old(meta).locations().compatible(current))
                    &&& e.component_id_seq().to_set() == (if e.whole_store_view() {
                        Set::empty()
                    } else {
                        components_of(world, old(meta).locations().conflicts(current))
                    })
                },
            },
    {
        let mut state = Self::unregistered(fetch, with, without, query_type, filter_type, world);
        let n = world.archetype_count();
        let mut a: usize = 0;
        while a < n
            invariant
                n == world.archetype_seq().len(),
                a <= n,
                state.wf(world),
                state.seen() == a,
                state.fetch_seq() == fetch@,
                state.with_seq() == with@,
                state.without_seq() == without@,
            decreases n - a,
        {
            let (matched, delta) = state.archetype_access(world, a);
            state.advance(world, matched, &delta);
            a = a + 1;
        }
        assert(state.locations() == query_locations(world, fetch@, with@, without@, world.archetype_seq().len()));
        let checked = check_component_access_compatibility(
            meta.name(),
            query_type,
            filter_type,
            meta.archetype_component_access(),
            &state.archetype_component_access,
            world,
        );
        match checked {
            Ok(()) => {
                proof {
                    meta.lemma_valid();
                }
                if meta.component_access().has_read_all() && !state.component_access.is_empty() {
                    let name = query_name(query_type, filter_type);
                    return Err(AccessConflict::whole_store(meta.name(), name.as_str()));
                }
                meta.add_access(&state.component_access, &state.archetype_component_access);
                Ok(state)
            },
            Err(e) => Err(e),
        }
    }

    /// Takes in the next archetype, or returns the conflict and changes nothing.
    fn try_new_archetype(&mut self, world: &World, archetype: ArchetypeId, meta: &mut SystemMeta) -> (r: Result<(), AccessConflict>)
        requires
            old(self).wf(world),
            archetype == old(self).seen(),
            archetype < world.archetype_seq().len(),
        ensures
            r is Ok <==> old(meta).locations().compatible(old(self).archetype_delta(world, archetype as int)),
            r is Ok ==> {
                &&& final(self).wf(world)
                &&& final(self).seen() == old(self).seen() + 1
                &&& final(self).fetch_seq() == old(self).fetch_seq()
                &&& final(self).with_seq() == old(self).with_seq()
                &&& final(self).without_seq() == old(self).without_seq()
                &&& final(self).locations() == old(self).locations().union(old(self).archetype_delta(world, archetype as int))
                &&& final(meta).locations() == old(meta).locations().union(old(self).archetype_delta(world, archetype as int))
                &&& final(meta).components() == old(meta).components()
                &&& final(meta).name_view() == old(meta).name_view()
                &&& final(meta).last_run_tick() == old(meta).last_run_tick()
            },
            r is Err ==> *final(self) == *old(self) && *final(meta) == *old(meta),
    {
        let (matched, delta) = self.archetype_access(world, archetype);
        let checked = check_component_access_compatibility(
            meta.name(),
            self.query_type.as_str(),
            self.filter_type.as_str(),
            meta.archetype_component_access(),
            &delta,
            world,
        );
        match checked {
            Ok(()) => {
                self.advance(world, matched, &delta);
                let no_components = Access::new();
                meta.add_access(&no_components, &delta);
                proof {
                    assert(final(meta).components() =~= old(meta).components());
                }
                Ok(())
            },
            Err(e) => Err(e),
        }
    }

    /// The conflict, if any, that registering the query described by `fetch`,
    /// `with` and `without` would meet in a system with metadata `meta`; see
    /// [`QueryState::init_state`]. Nothing is recorded.
    pub fn check_init_state(
        world: &World,
        meta: &SystemMeta,
        fetch: &Vec<(ComponentId, bool)>,
        with: &Vec<ComponentId>,
        without: &Vec<ComponentId>,
        query_type: &str,
        filter_type: &str,
    ) -> (r: Result<(), AccessConflict>)
        requires
            world.wf(),
        ensures
            r is Ok <==> {
                &&& meta.locations().compatible(query_locations(world, fetch@, with@, without@, world.archetype_seq().len()))
                &&& marker_allows(meta.components(), Self::declared_components(fetch@))
            },
            match r {
                Ok(_) => true,
                Err(e) => {
                    let current = query_locations(world, fetch@, with@, without@, world.archetype_seq().len());
                    &&& e.system_name_view() == meta.name_view()
                    &&& e.param_name_view() == "Query<"@ + query_type@ + ", "@ + filter_type@ + ">"@
                    &&& e.whole_store_view() == (meta.locations().conflicts_everything(current)
                        || meta.locations().compatible(current))
                    &&& e.component_id_seq().to_set() == (if e.whole_store_view() {
                        Set::empty()
                    } else {
                        components_of(world, meta.locations().conflicts(current))
                    })
                },
            },
    {
        let mut scope = meta.isolated_scope();
        match Self::try_init_state(
            world,
            &mut scope,
            copy_vec(fetch),
            copy_vec(with),
            copy_vec(without),
            query_type,
            filter_type,
        ) {
            Ok(_) => Ok(()),
            Err(e) => Err(e),
        }
    }

    /// Registers a query over the store: the query fetches the components of
    /// `fetch` (each written where its flag is set) from the archetypes that
    /// have every fetched and every `with` component and no `without`
    /// component. Its storage-location access over the archetypes that exist
    /// now must not overlap what `meta` has accumulated, and it must fetch
    /// nothing beside a whole-store marker there: a conflict is a fatal
    /// configuration error, which [`QueryState::check_init_state`] reports.
    pub fn init_state(
        world: &World,
        meta: &mut SystemMeta,
        fetch: Vec<(ComponentId, bool)>,
        with: Vec<ComponentId>,
        without: Vec<ComponentId>,
        query_type: &str,
        filter_type: &str,
    ) -> (s: QueryState)
        requires
            world.wf(),
            old(meta).locations().compatible(query_locations(world, fetch@, with@, without@, world.archetype_seq().len())),
            marker_allows(old(meta).components(), Self::declared_components(fetch@)),
        ensures
            s.wf(world),
            s.seen() == world.archetype_seq().len(),
            s.fetch_seq() == fetch@,
            s.with_seq() == with@,
            s.without_seq() == without@,
            s.locations() == query_locations(world, fetch@, with@, without@, world.archetype_seq().len()),
            s.components() == Self::declared_components(fetch@),
            final(meta).locations() == old(meta).locations().union(s.locations()),
            final(meta).components() == old(meta).components().union(s.components()),
            final(meta).name_view() == old(meta).name_view(),
            final(meta).last_run_tick() == old(meta).last_run_tick(),
            old(meta).wf(world) ==> final(meta).wf(world),
    {
        match Self::try_init_state(world, meta, fetch, with, without, query_type, filter_type) {
            Ok(s) => {
                proof {
                    if old(meta).wf(world) {
                        s.lemma_covers(world);
                        lemma_covers_union(world, old(meta).locations(), old(meta).components(), s.locations(), s.components());
                    }
                }
                s
            },
            Err(_) => {
                assert(false);
                Self::unregistered(Vec::new(), Vec::new(), Vec::new(), query_type, filter_type, world)
            },
        }
    }

    /// The conflict, if any, that taking in archetype `archetype` would meet
    /// in a system with metadata `meta`; see [`QueryState::new_archetype`].
    pub fn check_new_archetype(&self, world: &World, archetype: ArchetypeId, meta: &SystemMeta) -> (r: Result<(), AccessConflict>)
        requires
            self.wf(world),
            archetype < world.archetype_seq().len(),
        ensures
            r is Ok <==> meta.locations().compatible(self.archetype_delta(world, archetype as int)),
    {
        match self.check_archetype(world, archetype, meta.name(), meta.archetype_component_access()) {
            Ok(_) => Ok(()),
            Err(e) => Err(e),
        }
    }

    /// Takes in archetype `archetype`, the next one the state has not looked
    /// at, for a system whose metadata `meta` holds the state's access. If it
    /// matches, its storage locations are recorded in both; they must not
    /// overlap what `meta` has accumulated, a fatal configuration error that
    /// [`QueryState::check_new_archetype`] reports.
    pub fn new_archetype(&mut self, world: &World, archetype: ArchetypeId, meta: &mut SystemMeta)
        requires
            old(self).wf(world),
            archetype == old(self).seen(),
            archetype < world.archetype_seq().len(),
            old(self).locations().within(old(meta).locations()),
            old(meta).locations().compatible(old(self).archetype_delta(world, archetype as int)),
        ensures
            final(self).wf(world),
            final(self).seen() == old(self).seen() + 1,
            final(self).fetch_seq() == old(self).fetch_seq(),
            final(self).with_seq() == old(self).with_seq(),
            final(self).without_seq() == old(self).without_seq(),
            final(self).locations() == old(self).locations().union(old(self).archetype_delta(world, archetype as int)),
            final(meta).locations() == old(meta).locations().union(old(self).archetype_delta(world, archetype as int)),
            final(self).locations().within(final(meta).locations()),
            final(meta).components() == old(meta).components(),
            final(meta).name_view() == old(meta).name_view(),
            final(meta).last_run_tick() == old(meta).last_run_tick(),
            old(meta).wf(world) && old(self).components().within(old(meta).components()) ==> final(meta).wf(world),
    {
        let ghost delta = old(self).archetype_delta(world, archetype as int);
        let r = self.try_new_archetype(world, archetype, meta);
        assert(r is Ok);
        proof {
            if old(meta).wf(world) && old(self).components().within(old(meta).components()) {
                old(self).lemma_delta_covers(world, archetype as int);
                lemma_covers_within(world, delta, old(self).components(), old(meta).components());
                lemma_covers_union(world, old(meta).locations(), old(meta).components(), delta, old(meta).components());
                assert(old(meta).components().union(old(meta).components()) =~= old(meta).components());
            }
        }
    }

    /// How many archetypes, from the first, the state has looked at.
    pub fn archetypes_seen(&self) -> (r: usize)
        ensures
            r == self.seen(),
    {
        self.archetypes_seen
    }

    /// The archetypes matched so far.
    pub fn matched_archetypes(&self) -> (r: &Vec<ArchetypeId>)
        ensures
            r@ == self.matched_seq(),
    {
        &self.matched_archetypes
    }

    pub fn archetype_component_access(&self) -> (r: &Access)
        ensures
            r@ == self.locations(),
    {
        &self.archetype_component_access
    }

    pub fn component_access(&self) -> (r: &Access)
        ensures
            r@ == self.components(),
    {
        &self.component_access
    }

    /// The value a run receives: the query's state with the system's
    /// previous-run tick and the current tick.
    pub fn get_param<'s>(&'s self, meta: &SystemMeta, change_tick: Tick) -> (r: Query<'s>)
        ensures
            *r.state_view() == *self,
            r.last_run_view() == meta.last_run_tick(),
            r.this_run_view() == change_tick@,
    {
        Query { state: self, last_run: meta.last_run(), this_run: change_tick }
    }
}

/// A query as one run of a system sees it.
#[derive(Debug)]
pub struct Query<'s> {
    state: &'s QueryState,
    last_run: Tick,
    this_run: Tick,
}

impl<'s> Query<'s> {
    pub closed spec fn state_view(&self) -> &'s QueryState {
        self.state
    }

    pub closed spec fn last_run_view(&self) -> u32 {
        self.last_run@
    }

    pub closed spec fn this_run_view(&self) -> u32 {
        self.this_run@
    }

    pub fn last_run(&self) -> (r: Tick)
        ensures
            r@ == self.last_run_view(),
    {
        self.last_run
    }

    pub fn this_run(&self) -> (r: Tick)
        ensures
            r@ == self.this_run_view(),
    {
        self.this_run
    }

    /// The storage locations this run may touch.
    pub fn location_access(&self) -> (r: &Access)
        ensures
            r@ == self.state_view().locations(),
    {
        &self.state.archetype_component_access
    }

    /// The entities of `world` that the query matches, in increasing order.
    pub fn entities(&self, world: &World) -> (r: Vec<usize>)
        requires
            self.state_view().wf(world),
        ensures
            forall|i: int, j: int| 0 <= i < j < r@.len() ==> r@[i] < r@[j],
            forall|e: usize| #[trigger] r@.contains(e) <==> (e < world.entity_seq().len()
                && world.entity_seq()[e as int] < self.state_view().seen()
                && self.state_view().matches_in(world, world.entity_seq()[e as int] as int)),
    {
        let n = world.entity_count();
        let mut r: Vec<usize> = Vec::new();
        let mut e: usize = 0;
        while e < n
            invariant
                n == world.entity_seq().len(),
                e <= n,
                self.state_view().wf(world),
                forall|i: int, j: int| 0 <= i < j < r@.len() ==> r@[i] < r@[j],
                forall|i: int| 0 <= i < r@.len() ==> r@[i] < e,
                forall|x: usize| #[trigger] r@.contains(x) <==> (x < e
                    && world.entity_seq()[x as int] < self.state_view().seen()
                    && self.state_view().matches_in(world, world.entity_seq()[x as int] as int)),
            decreases n - e,
        {
            let a = world.entity_archetype(e);
            let ghost prev = r@;
            if crate::access::vec_contains(&self.state.matched_archetypes, a) {
                r.push(e);
            }
            proof {
                assert forall|x: usize| #[trigger] r@.contains(x) <==> (x < e + 1
                    && world.entity_seq()[x as int] < self.state_view().seen()
                    && self.state_view().matches_in(world, world.entity_seq()[x as int] as int)) by {
                    if r@.contains(x) && x != e {
                        let k = choose|k: int| 0 <= k < r@.len() && r@[k] == x;
                        assert(prev[k] == x);
                        assert(prev.contains(x));
                    }
                    if x == e && r@.len() > prev.len() {
                        assert(r@[prev.len() as int] == e);
                    }
                    if x < e && prev.contains(x) {
                        let k = choose|k: int| 0 <= k < prev.len() && prev[k] == x;
                        assert(r@[k] == x);
                    }
                    if x == e && r@.contains(x) && r@.len() == prev.len() {
                        assert(prev.contains(x));
                    }
                }
            }
            e = e + 1;
        }
        r
    }
}

} // verus!
