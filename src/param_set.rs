//! Param sets: queries that would conflict with one another, registered
//! together and handed out one at a time.

use vstd::prelude::*;
use vstd::string::StringExecFns;
use crate::access::{Access, AccessModel};
use crate::conflict::{marker_allows, AccessConflict};
use crate::meta::{covers, lemma_covers_union, lemma_covers_within, SystemMeta};
use crate::query::{copy_vec, query_locations, Query, QueryState};
use crate::tick::Tick;
use crate::world::{ArchetypeId, ComponentId, World};

verus! {

/// The union of a sequence of declarations.
pub open spec fn union_all(s: Seq<AccessModel>) -> AccessModel
    decreases s.len(),
{
    if s.len() == 0 {
        AccessModel::empty()
    } else {
        union_all(s.drop_last()).union(s.last())
    }
}

/// Each declaration of a sequence lies within their union.
pub proof fn lemma_union_all_holds(s: Seq<AccessModel>, i: int)
    requires
        0 <= i < s.len(),
    ensures
        s[i].within(union_all(s)),
    decreases s.len(),
{
    if i < s.len() - 1 {
        lemma_union_all_holds(s.drop_last(), i);
        assert(s.drop_last()[i] == s[i]);
    }
}

pub proof fn lemma_covers_union_all(world: &World, ls: Seq<AccessModel>, cs: Seq<AccessModel>)
    requires
        ls.len() == cs.len(),
        forall|i: int| 0 <= i < ls.len() ==> covers(world, #[trigger] ls[i], cs[i]),
    ensures
        covers(world, union_all(ls), union_all(cs)),
    decreases ls.len(),
{
    if ls.len() > 0 {
        let (l0, c0) = (ls.drop_last(), cs.drop_last());
        assert forall|i: int| 0 <= i < l0.len() implies covers(world, #[trigger] l0[i], c0[i]) by {
            assert(l0[i] == ls[i] && c0[i] == cs[i]);
        }
        lemma_covers_union_all(world, l0, c0);
        assert(covers(world, ls[ls.len() - 1], cs[cs.len() - 1]));
        lemma_covers_union(world, union_all(l0), union_all(c0), ls.last(), cs.last());
    }
}

pub proof fn lemma_covers_union_all_by(world: &World, ls: Seq<AccessModel>, c: AccessModel)
    requires
        forall|i: int| 0 <= i < ls.len() ==> covers(world, #[trigger] ls[i], c),
    ensures
        covers(world, union_all(ls), c),
    decreases ls.len(),
{
    if ls.len() > 0 {
        let l0 = ls.drop_last();
        assert forall|i: int| 0 <= i < l0.len() implies covers(world, #[trigger] l0[i], c) by {
            assert(l0[i] == ls[i]);
        }
        lemma_covers_union_all_by(world, l0, c);
        assert(covers(world, ls[ls.len() - 1], c));
    }
}

/// A param set is accepted by a system that has declared nothing else, however
/// much its members overlap one another.
pub proof fn lemma_param_set_alone_accepted(world: &World, members: Seq<QueryDescriptor>)
    ensures
        forall|i: int| 0 <= i < members.len() ==>
            (#[trigger] members[i]).accepted_by(world, AccessModel::empty(), AccessModel::empty()),
{
    assert forall|i: int| 0 <= i < members.len() implies
        (#[trigger] members[i]).accepted_by(world, AccessModel::empty(), AccessModel::empty()) by {
        crate::access::lemma_empty_accepts_all(members[i].locations_in(world, world.archetype_seq().len()));
    }
}

/// What the system records for a param set still excludes any later
/// declaration that conflicts with one of the members.
pub proof fn lemma_param_set_blocks_conflicts(system: AccessModel, members: Seq<AccessModel>, i: int, later: AccessModel)
    requires
        0 <= i < members.len(),
        !members[i].compatible(later),
    ensures
        !system.union(union_all(members)).compatible(later),
{
    lemma_union_all_holds(members, i);
    if system.union(union_all(members)).compatible(later) {
        assert(members[i].within(system.union(union_all(members))));
        crate::access::lemma_within_compatible(members[i], system.union(union_all(members)), later);
    }
}

pub(crate) fn copy_descriptors(v: &Vec<QueryDescriptor>) -> (r: Vec<QueryDescriptor>)
    ensures
        r@.len() == v@.len(),
        forall|i: int| 0 <= i < v@.len() ==> {
            &&& (#[trigger] r@[i]).fetch@ == v@[i].fetch@
            &&& r@[i].with@ == v@[i].with@
            &&& r@[i].without@ == v@[i].without@
        },
{
    let mut r: Vec<QueryDescriptor> = Vec::new();
    let mut i: usize = 0;
    while i < v.len()
        invariant
            i <= v.len(),
            r@.len() == i,
            forall|j: int| 0 <= j < i ==> {
                &&& (#[trigger] r@[j]).fetch@ == v@[j].fetch@
                &&& r@[j].with@ == v@[j].with@
                &&& r@[j].without@ == v@[j].without@
            },
        decreases v.len() - i,
    {
        let d = &v[i];
        r.push(QueryDescriptor {
            fetch: copy_vec(&d.fetch),
            with: copy_vec(&d.with),
            without: copy_vec(&d.without),
            query_type: String::from_str(d.query_type.as_str()),
            filter_type: String::from_str(d.filter_type.as_str()),
        });
        i = i + 1;
    }
    r
}

/// What one query of a set fetches and filters on, with the type names that
/// a conflict report uses.
#[derive(Debug)]
pub struct QueryDescriptor {
    pub fetch: Vec<(ComponentId, bool)>,
    pub with: Vec<ComponentId>,
    pub without: Vec<ComponentId>,
    pub query_type: String,
    pub filter_type: String,
}

impl QueryDescriptor {
    /// The storage locations, in the first `n` archetypes of `world`, that
    /// the query touches.
    pub open spec fn locations_in(&self, world: &World, n: nat) -> AccessModel {
        query_locations(world, self.fetch@, self.with@, self.without@, n)
    }

    /// The component access the query declares.
    pub open spec fn components_declared(&self) -> AccessModel {
        QueryState::declared_components(self.fetch@)
    }

    /// A system whose accumulated declaration is `locations` over storage
    /// locations and `components` over components accepts the query over the
    /// archetypes of `world`.
    pub open spec fn accepted_by(&self, world: &World, locations: AccessModel, components: AccessModel) -> bool {
        &&& locations.compatible(self.locations_in(world, world.archetype_seq().len()))
        &&& marker_allows(components, self.components_declared())
    }
}

/// Queries that may overlap one another. Each is checked only against what
/// the owning system declared before the set; the union of their access is
/// recorded for the owning system, so that what comes after the set is
/// checked against all of them.
#[derive(Debug)]
pub struct ParamSet {
    states: Vec<QueryState>,
}

impl ParamSet {
    pub closed spec fn members(&self) -> Seq<QueryState> {
        self.states@
    }

    pub open spec fn member_locations(&self) -> Seq<AccessModel> {
        self.members().map_values(|s: QueryState| s.locations())
    }

    pub open spec fn member_components(&self) -> Seq<AccessModel> {
        self.members().map_values(|s: QueryState| s.components())
    }

    pub open spec fn wf(&self, world: &World) -> bool {
        forall|i: int| 0 <= i < self.members().len() ==> (#[trigger] self.members()[i]).wf(world)
    }

    /// The conflict, if any, that registering a set of the queries `members`
    /// would meet in a system with metadata `meta`: the first member that
    /// conflicts with what `meta` holds. Nothing is recorded.
    pub fn check_init_state(world: &World, meta: &SystemMeta, members: &Vec<QueryDescriptor>) -> (r: Result<(), AccessConflict>)
        requires
            world.wf(),
        ensures
            r is Ok <==> forall|i: int| 0 <= i < members@.len() ==>
                (#[trigger] members@[i]).accepted_by(world, meta.locations(), meta.components()),
    {
        let copies = copy_descriptors(members);
        let ghost c = copies@;
        let mut scope = meta.isolated_scope();
        let r = Self::try_init_state(world, &mut scope, copies);
        proof {
            assert forall|i: int| 0 <= i < members@.len() implies
                (#[trigger] members@[i]).accepted_by(world, meta.locations(), meta.components())
                    == c[i].accepted_by(world, meta.locations(), meta.components()) by {
                assert(c[i].fetch@ == members@[i].fetch@);
            }
        }
        match r {
            Ok(_) => Ok(()),
            Err(e) => Err(e),
        }
    }

    /// Registers the queries of `members`, each in its own scope seeded from
    /// `meta`, and records the union of their access in `meta`. Each member
    /// must be compatible with what `meta` had accumulated: a conflict is a
    /// fatal configuration error, which [`ParamSet::check_init_state`]
    /// reports.
    pub fn init_state(world: &World, meta: &mut SystemMeta, members: Vec<QueryDescriptor>) -> (set: ParamSet)
        requires
            world.wf(),
            forall|i: int| 0 <= i < members@.len() ==>
                (#[trigger] members@[i]).accepted_by(world, old(meta).locations(), old(meta).components()),
        ensures
            set.wf(world),
            set.members().len() == members@.len(),
            forall|i: int| 0 <= i < members@.len() ==> {
                &&& (#[trigger] set.members()[i]).seen() == world.archetype_seq().len()
                &&& set.members()[i].fetch_seq() == members@[i].fetch@
                &&& set.members()[i].with_seq() == members@[i].with@
                &&& set.members()[i].without_seq() == members@[i].without@
                &&& set.members()[i].locations() == members@[i].locations_in(world, world.archetype_seq().len())
            },
            final(meta).locations() == old(meta).locations().union(union_all(set.member_locations())),
            final(meta).components() == old(meta).components().union(union_all(set.member_components())),
            final(meta).name_view() == old(meta).name_view(),
            final(meta).last_run_tick() == old(meta).last_run_tick(),
            old(meta).wf(world) ==> final(meta).wf(world),
    {
        match Self::try_init_state(world, meta, members) {
            Ok(set) => {
                proof {
                    if old(meta).wf(world) {
                        assert forall|i: int| 0 <= i < set.member_locations().len() implies
                            covers(world, #[trigger] set.member_locations()[i], set.member_components()[i]) by {
                            assert(set.members()[i].wf(world));
                            set.members()[i].lemma_covers(world);
                        }
                        lemma_covers_union_all(world, set.member_locations(), set.member_components());
                        lemma_covers_union(world, old(meta).locations(), old(meta).components(),
                            union_all(set.member_locations()), union_all(set.member_components()));
                    }
                }
                set
            },
            Err(_) => {
                assert(false);
                ParamSet { states: Vec::new() }
            },
        }
    }

    /// Registers the set, or returns the first member's conflict and records
    /// nothing.
    fn try_init_state(world: &World, meta: &mut SystemMeta, members: Vec<QueryDescriptor>) -> (r: Result<ParamSet, AccessConflict>)
        requires
            world.wf(),
        ensures
            r is Ok <==> forall|i: int| 0 <= i < members@.len() ==>
                (#[trigger] members@[i]).accepted_by(world, old(meta).locations(), old(meta).components()),
            match r {
                Ok(set) => {
                    &&& set.wf(world)
                    &&& set.members().len() == members@.len()
                    &&& forall|i: int| 0 <= i < members@.len() ==> {
                        &&& (#[trigger] set.members()[i]).seen() == world.archetype_seq().len()
                        &&& set.members()[i].fetch_seq() == members@[i].fetch@
                        &&& set.members()[i].with_seq() == members@[i].with@
                        &&& set.members()[i].without_seq() == members@[i].without@
                        &&& set.members()[i].locations() == members@[i].locations_in(world, world.archetype_seq().len())
                    }
                    &&& final(meta).locations() == old(meta).locations().union(union_all(set.member_locations()))
                    &&& final(meta).components() == old(meta).components().union(union_all(set.member_components()))
                    &&& final(meta).name_view() == old(meta).name_view()
                    &&& final(meta).last_run_tick() == old(meta).last_run_tick()
                },
                Err(_) => *final(meta) == *old(meta),
            },
    {
        let ghost all = members@;
        assert(members.len() == members@.len());
        let mut rest = members;
        let mut states: Vec<QueryState> = Vec::new();
        let mut locations = Access::new();
        let mut components = Access::new();
        let mut i: usize = 0;
        while rest.len() > 0
            invariant
                world.wf(),
                all == members@,
                all.len() <= usize::MAX,
                i + rest@.len() == all.len(),
                rest@ == all.subrange(i as int, all.len() as int),
                states@.len() == i,
                *meta == *old(meta),
                forall|j: int| 0 <= j < i ==> (#[trigger] all[j]).accepted_by(world, old(meta).locations(), old(meta).components()),
                forall|j: int| 0 <= j < i ==> {
                    &&& (#[trigger] states@[j]).wf(world)
                    &&& states@[j].seen() == world.archetype_seq().len()
                    &&& states@[j].fetch_seq() == all[j].fetch@
                    &&& states@[j].with_seq() == all[j].with@
                    &&& states@[j].without_seq() == all[j].without@
                    &&& states@[j].locations() == all[j].locations_in(world, world.archetype_seq().len())
                },
                locations@ == union_all(states@.map_values(|s: QueryState| s.locations())),
                components@ == union_all(states@.map_values(|s: QueryState| s.components())),
            decreases rest@.len(),
        {
            let d = rest.remove(0);
            assert(d == all[i as int]);
            let QueryDescriptor { fetch, with, without, query_type, filter_type } = d;
            let mut scope = meta.isolated_scope();
            let registered = QueryState::try_init_state(
                world,
                &mut scope,
                fetch,
                with,
                without,
                query_type.as_str(),
                filter_type.as_str(),
            );
            match registered {
                Ok(state) => {
                    locations.extend(state.archetype_component_access());
                    components.extend(state.component_access());
                    let ghost prev = states@;
                    states.push(state);
                    proof {
                        assert(states@.map_values(|s: QueryState| s.locations()).drop_last() =~= prev.map_values(|s: QueryState| s.locations()));
                        assert(states@.map_values(|s: QueryState| s.components()).drop_last() =~= prev.map_values(|s: QueryState| s.components()));
                        assert(rest@ =~= all.subrange(i + 1, all.len() as int));
                    }
                },
                Err(e) => {
                    proof {
                        assert(!all[i as int].accepted_by(world, old(meta).locations(), old(meta).components()));
                        assert(members@[i as int] == all[i as int]);
                    }
                    return Err(e);
                },
            }
            i = i + 1;
        }
        meta.add_access(&components, &locations);
        let set = ParamSet { states };
        assert(set.member_locations() =~= states@.map_values(|s: QueryState| s.locations()));
        assert(set.member_components() =~= states@.map_values(|s: QueryState| s.components()));
        Ok(set)
    }

    pub fn len(&self) -> (r: usize)
        ensures
            r == self.members().len(),
    {
        self.states.len()
    }

    /// Whether every member has looked at exactly the first `archetypes`
    /// archetypes, so that archetype `archetypes` is the next one for all.
    pub fn has_seen(&self, archetypes: usize) -> (r: bool)
        ensures
            r <==> forall|i: int| 0 <= i < self.members().len() ==> (#[trigger] self.members()[i]).seen() == archetypes,
    {
        let mut i: usize = 0;
        while i < self.states.len()
            invariant
                i <= self.states.len(),
                forall|j: int| 0 <= j < i ==> (#[trigger] self.members()[j]).seen() == archetypes,
            decreases self.states.len() - i,
        {
            if self.states[i].archetypes_seen() != archetypes {
                assert(self.members()[i as int].seen() != archetypes);
                return false;
            }
            i = i + 1;
        }
        true
    }

    /// Member `i` as one run sees it. The result holds the set's exclusive
    /// borrow, so no other member can be taken out while it is alive.
    pub fn p<'s>(&'s mut self, i: usize, meta: &SystemMeta, change_tick: Tick) -> (r: Query<'s>)
        requires
            i < old(self).members().len(),
        ensures
            *r.state_view() == old(self).members()[i as int],
            r.last_run_view() == meta.last_run_tick(),
            r.this_run_view() == change_tick@,
            *final(self) == *old(self),
    {
        self.states[i].get_param(meta, change_tick)
    }

    /// The conflict, if any, that taking in archetype `archetype` would meet
    /// in a system with metadata `meta`: the first member whose access to it
    /// overlaps what `meta` holds.
    pub fn check_new_archetype(&self, world: &World, archetype: ArchetypeId, meta: &SystemMeta) -> (r: Result<(), AccessConflict>)
        requires
            self.wf(world),
            archetype < world.archetype_seq().len(),
        ensures
            r is Ok <==> forall|i: int| 0 <= i < self.members().len() ==>
                meta.locations().compatible((#[trigger] self.members()[i]).archetype_delta(world, archetype as int)),
    {
        let mut i: usize = 0;
        while i < self.states.len()
            invariant
                i <= self.states.len(),
                self.wf(world),
                archetype < world.archetype_seq().len(),
                forall|j: int| 0 <= j < i ==>
                    meta.locations().compatible((#[trigger] self.members()[j]).archetype_delta(world, archetype as int)),
            decreases self.states.len() - i,
        {
            assert(self.members()[i as int].wf(world));
            if let Err(e) = self.states[i].check_new_archetype(world, archetype, meta) {
                return Err(e);
            }
            i = i + 1;
        }
        Ok(())
    }

    /// Takes in archetype `archetype`, the next one for every member, for a
    /// system whose metadata `meta` holds the members' access. Each member's
    /// access to it must not overlap `meta` as it was before the call, a
    /// fatal configuration error that [`ParamSet::check_new_archetype`]
    /// reports; every member takes the archetype in and the union is
    /// recorded in `meta`.
    pub fn new_archetype(&mut self, world: &World, archetype: ArchetypeId, meta: &mut SystemMeta)
        requires
            old(self).wf(world),
            archetype < world.archetype_seq().len(),
            forall|i: int| 0 <= i < old(self).members().len() ==> (#[trigger] old(self).members()[i]).seen() == archetype,
            forall|i: int| 0 <= i < old(self).members().len() ==> (#[trigger] old(self).members()[i]).locations().within(old(meta).locations()),
            forall|i: int| 0 <= i < old(self).members().len() ==>
                old(meta).locations().compatible((#[trigger] old(self).members()[i]).archetype_delta(world, archetype as int)),
        ensures
            final(self).wf(world),
            final(self).members().len() == old(self).members().len(),
            forall|i: int| 0 <= i < old(self).members().len() ==> {
                &&& (#[trigger] final(self).members()[i]).seen() == archetype + 1
                &&& final(self).members()[i].fetch_seq() == old(self).members()[i].fetch_seq()
                &&& final(self).members()[i].with_seq() == old(self).members()[i].with_seq()
                &&& final(self).members()[i].without_seq() == old(self).members()[i].without_seq()
                &&& final(self).members()[i].locations() == old(self).members()[i].locations().union(
                    old(self).members()[i].archetype_delta(world, archetype as int),
                )
                &&& final(self).members()[i].locations().within(final(meta).locations())
            },
            final(meta).locations() == old(meta).locations().union(union_all(
                old(self).members().map_values(|s: QueryState| s.archetype_delta(world, archetype as int)),
            )),
            final(meta).components() == old(meta).components(),
            final(meta).name_view() == old(meta).name_view(),
            final(meta).last_run_tick() == old(meta).last_run_tick(),
            old(meta).wf(world) && (forall|i: int| 0 <= i < old(self).members().len()
                ==> (#[trigger] old(self).members()[i]).components().within(old(meta).components())) ==> final(meta).wf(world),
    {
        let ghost deltas = old(self).members().map_values(|s: QueryState| s.archetype_delta(world, archetype as int));
        let r = self.try_new_archetype(world, archetype, meta);
        assert(r is Ok);
        proof {
            if old(meta).wf(world) && (forall|i: int| 0 <= i < old(self).members().len()
                ==> (#[trigger] old(self).members()[i]).components().within(old(meta).components())) {
                assert forall|i: int| 0 <= i < deltas.len() implies covers(world, #[trigger] deltas[i], old(meta).components()) by {
                    let m = old(self).members()[i];
                    assert(m.wf(world));
                    m.lemma_covers(world);
                    m.lemma_delta_covers(world, archetype as int);
                    lemma_covers_within(world, deltas[i], m.components(), old(meta).components());
                }
                lemma_covers_union_all_by(world, deltas, old(meta).components());
                lemma_covers_union(world, old(meta).locations(), old(meta).components(), union_all(deltas), old(meta).components());
                assert(old(meta).components().union(old(meta).components()) =~= old(meta).components());
            }
            assert forall|i: int| 0 <= i < old(self).members().len() implies
                (#[trigger] final(self).members()[i]).locations().within(final(meta).locations()) by {
                lemma_union_all_holds(deltas, i);
                assert(old(self).members()[i].locations().within(old(meta).locations()));
            }
        }
    }

    /// Takes in the next archetype for every member, or returns the first
    /// member's conflict and changes nothing.
    fn try_new_archetype(&mut self, world: &World, archetype: ArchetypeId, meta: &mut SystemMeta) -> (r: Result<(), AccessConflict>)
        requires
            old(self).wf(world),
            archetype < world.archetype_seq().len(),
            forall|i: int| 0 <= i < old(self).members().len() ==> (#[trigger] old(self).members()[i]).seen() == archetype,
        ensures
            r is Ok <==> forall|i: int| 0 <= i < old(self).members().len() ==>
                old(meta).locations().compatible((#[trigger] old(self).members()[i]).archetype_delta(world, archetype as int)),
            r is Ok ==> {
                &&& final(self).wf(world)
                &&& final(self).members().len() == old(self).members().len()
                &&& forall|i: int| 0 <= i < old(self).members().len() ==> {
                    &&& (#[trigger] final(self).members()[i]).seen() == archetype + 1
                    &&& final(self).members()[i].fetch_seq() == old(self).members()[i].fetch_seq()
                    &&& final(self).members()[i].with_seq() == old(self).members()[i].with_seq()
                    &&& final(self).members()[i].without_seq() == old(self).members()[i].without_seq()
                    &&& final(self).members()[i].locations() == old(self).members()[i].locations().union(
                        old(self).members()[i].archetype_delta(world, archetype as int),
                    )
                }
                &&& final(meta).locations() == old(meta).locations().union(union_all(
                    old(self).members().map_values(|s: QueryState| s.archetype_delta(world, archetype as int)),
                ))
                &&& final(meta).components() == old(meta).components()
                &&& final(meta).name_view() == old(meta).name_view()
                &&& final(meta).last_run_tick() == old(meta).last_run_tick()
            },
            r is Err ==> *final(self) == *old(self) && *final(meta) == *old(meta),
    {
        let ghost deltas = self.members().map_values(|s: QueryState| s.archetype_delta(world, archetype as int));
        let n = self.states.len();
        let mut checks: Vec<(bool, Access)> = Vec::new();
        let mut union = Access::new();
        let mut i: usize = 0;
        while i < n
            invariant
                n == self.states.len(),
                i <= n,
                *self == *old(self),
                *meta == *old(meta),
                self.wf(world),
                archetype < world.archetype_seq().len(),
                deltas == self.members().map_values(|s: QueryState| s.archetype_delta(world, archetype as int)),
                checks@.len() == i,
                forall|j: int| 0 <= j < i ==> old(meta).locations().compatible((#[trigger] self.members()[j]).archetype_delta(world, archetype as int)),
                forall|j: int| 0 <= j < i ==> {
                    &&& (#[trigger] checks@[j]).0 == self.members()[j].matches_in(world, archetype as int)
                    &&& checks@[j].1@ == deltas[j]
                },
                union@ == union_all(deltas.take(i as int)),
            decreases n - i,
        {
            assert(self.members()[i as int].wf(world));
            match self.states[i].check_archetype(world, archetype, meta.name(), meta.archetype_component_access()) {
                Ok((matched, delta)) => {
                    union.extend(&delta);
                    checks.push((matched, delta));
                    assert(deltas.take(i + 1).drop_last() =~= deltas.take(i as int));
                },
                Err(e) => {
                    return Err(e);
                },
            }
            i = i + 1;
        }
        assert(deltas.take(n as int) =~= deltas);
        let ghost olds = self.members();
        let mut rest: Vec<QueryState> = Vec::new();
        std::mem::swap(&mut rest, &mut self.states);
        let mut done: Vec<QueryState> = Vec::new();
        let mut k: usize = 0;
        while k < n
            invariant
                n == olds.len(),
                k <= n,
                rest@ == olds.subrange(k as int, n as int),
                done@.len() == k,
                checks@.len() == n,
                archetype < world.archetype_seq().len(),
                forall|j: int| 0 <= j < n ==> (#[trigger] olds[j]).wf(world),
                forall|j: int| 0 <= j < n ==> (#[trigger] olds[j]).seen() == archetype,
                forall|j: int| 0 <= j < n ==> {
                    &&& (#[trigger] checks@[j]).0 == olds[j].matches_in(world, archetype as int)
                    &&& checks@[j].1@ == olds[j].archetype_delta(world, archetype as int)
                },
                forall|j: int| 0 <= j < k ==> {
                    &&& (#[trigger] done@[j]).wf(world)
                    &&& done@[j].seen() == archetype + 1
                    &&& done@[j].fetch_seq() == olds[j].fetch_seq()
                    &&& done@[j].with_seq() == olds[j].with_seq()
                    &&& done@[j].without_seq() == olds[j].without_seq()
                    &&& done@[j].locations() == olds[j].locations().union(olds[j].archetype_delta(world, archetype as int))
                },
            decreases n - k,
        {
            let mut state = rest.remove(0);
            assert(state == olds[k as int]);
            let (matched, _) = checks[k];
            state.advance(world, matched, &checks[k].1);
            done.push(state);
            assert(rest@ =~= olds.subrange(k + 1, n as int));
            k = k + 1;
        }
        self.states = done;
        let no_components = Access::new();
        meta.add_access(&no_components, &union);
        proof {
            assert(final(meta).components() =~= old(meta).components());
        }
        Ok(())
    }
}

} // verus!
