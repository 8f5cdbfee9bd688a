//! Ordered composition of several queries into one parameter: registration and
//! refresh are threaded through the members in declaration order, so the first
//! member that conflicts with what came before it is the one reported.

use vstd::prelude::*;
use crate::access::{Access, AccessModel};
use crate::conflict::{marker_allows, AccessConflict};
use crate::meta::{covers, lemma_covers_union, lemma_covers_within, SystemMeta};
use crate::param_set::{copy_descriptors, lemma_covers_union_all, lemma_covers_union_all_by, lemma_union_all_holds, union_all, QueryDescriptor};
use crate::query::{Query, QueryState};
use crate::tick::Tick;
use crate::world::{ArchetypeId, World};

verus! {

/// Each declaration of `members` is compatible with `system` together with
/// every declaration before it.
pub open spec fn accepted_in_order(system: AccessModel, members: Seq<AccessModel>) -> bool {
    forall|i: int| 0 <= i < members.len() ==> system.union(union_all(members.take(i))).compatible(#[trigger] members[i])
}

proof fn lemma_rejected_at(system: AccessModel, members: Seq<AccessModel>, i: int)
    requires
        0 <= i < members.len(),
        !system.union(union_all(members.take(i))).compatible(members[i]),
    ensures
        !accepted_in_order(system, members),
{
}

proof fn lemma_union_assoc(a: AccessModel, b: AccessModel, c: AccessModel)
    ensures
        a.union(b).union(c) == a.union(b.union(c)),
{
    assert(a.union(b).union(c) =~= a.union(b.union(c)));
}

/// Queries of one system, registered one after the other.
#[derive(Debug)]
pub struct ParamTuple {
    states: Vec<QueryState>,
}

impl ParamTuple {
    pub closed spec fn members(&self) -> Seq<QueryState> {
        self.states@
    }

    pub open spec fn member_locations(&self) -> Seq<AccessModel> {
        self.members().map_values(|s: QueryState| s.locations())
    }

    pub open spec fn member_components(&self) -> Seq<AccessModel> {
        self.members().map_values(|s: QueryState| s.components())
    }

    pub open spec fn wf(&self, world: &World) -> bool {
        forall|i: int| 0 <= i < self.members().len() ==> (#[trigger] self.members()[i]).wf(world)
    }

    /// The conflict, if any, that registering the queries `members` in order
    /// would meet in a system with metadata `meta`: the first member that
    /// conflicts with `meta` together with the members before it. Nothing is
    /// recorded.
    pub fn check_init_state(world: &World, meta: &SystemMeta, members: &Vec<QueryDescriptor>) -> (r: Result<(), AccessConflict>)
        requires
            world.wf(),
        ensures
            r is Ok <==> {
                &&& accepted_in_order(
                    meta.locations(),
                    members@.map_values(|d: QueryDescriptor| d.locations_in(world, world.archetype_seq().len())),
                )
                &&& forall|i: int| 0 <= i < members@.len() ==> marker_allows(meta.components(), (#[trigger] members@[i]).components_declared())
            },
    {
        let copies = copy_descriptors(members);
        let ghost c = copies@;
        let mut scope = meta.isolated_scope();
        let r = Self::try_init_state(world, &mut scope, copies);
        proof {
            let n = world.archetype_seq().len();
            assert(c.map_values(|d: QueryDescriptor| d.locations_in(world, n))
                =~= members@.map_values(|d: QueryDescriptor| d.locations_in(world, n)));
            assert forall|i: int| 0 <= i < members@.len() implies
                marker_allows(meta.components(), (#[trigger] members@[i]).components_declared())
                    == marker_allows(meta.components(), c[i].components_declared()) by {
                assert(c[i].fetch@ == members@[i].fetch@);
            }
        }
        match r {
            Ok(_) => Ok(()),
            Err(e) => Err(e),
        }
    }

    /// Registers the queries of `members` in order and records their union in
    /// `meta`. Each must be compatible with what `meta` had accumulated
    /// together with the members before it: a conflict is a fatal
    /// configuration error, which [`ParamTuple::check_init_state`] reports.
    pub fn init_state(world: &World, meta: &mut SystemMeta, members: Vec<QueryDescriptor>) -> (t: ParamTuple)
        requires
            world.wf(),
            accepted_in_order(
                old(meta).locations(),
                members@.map_values(|d: QueryDescriptor| d.locations_in(world, world.archetype_seq().len())),
            ),
            forall|i: int| 0 <= i < members@.len() ==> marker_allows(old(meta).components(), (#[trigger] members@[i]).components_declared()),
        ensures
            t.wf(world),
            t.members().len() == members@.len(),
            forall|i: int| 0 <= i < members@.len() ==> {
                &&& (#[trigger] t.members()[i]).seen() == world.archetype_seq().len()
                &&& t.members()[i].fetch_seq() == members@[i].fetch@
                &&& t.members()[i].with_seq() == members@[i].with@
                &&& t.members()[i].without_seq() == members@[i].without@
                &&& t.members()[i].locations() == members@[i].locations_in(world, world.archetype_seq().len())
            },
            final(meta).locations() == old(meta).locations().union(union_all(t.member_locations())),
            final(meta).components() == old(meta).components().union(union_all(t.member_components())),
            final(meta).name_view() == old(meta).name_view(),
            final(meta).last_run_tick() == old(meta).last_run_tick(),
            old(meta).wf(world) ==> final(meta).wf(world),
    {
        match Self::try_init_state(world, meta, members) {
            Ok(t) => {
                proof {
                    if old(meta).wf(world) {
                        assert forall|i: int| 0 <= i < t.member_locations().len() implies
                            covers(world, #[trigger] t.member_locations()[i], t.member_components()[i]) by {
                            assert(t.members()[i].wf(world));
                            t.members()[i].lemma_covers(world);
                        }
                        lemma_covers_union_all(world, t.member_locations(), t.member_components());
                        lemma_covers_union(world, old(meta).locations(), old(meta).components(),
                            union_all(t.member_locations()), union_all(t.member_components()));
                    }
                }
                t
            },
            Err(_) => {
                assert(false);
                ParamTuple { states: Vec::new() }
            },
        }
    }

    /// Registers the queries in order, or returns the first conflict and
    /// records nothing.
    fn try_init_state(world: &World, meta: &mut SystemMeta, members: Vec<QueryDescriptor>) -> (r: Result<ParamTuple, AccessConflict>)
        requires
            world.wf(),
        ensures
            r is Ok <==> {
                &&& accepted_in_order(
                    old(meta).locations(),
                    members@.map_values(|d: QueryDescriptor| d.locations_in(world, world.archetype_seq().len())),
                )
                &&& forall|i: int| 0 <= i < members@.len() ==> marker_allows(old(meta).components(), (#[trigger] members@[i]).components_declared())
            },
            match r {
                Ok(t) => {
                    &&& t.wf(world)
                    &&& t.members().len() == members@.len()
                    &&& forall|i: int| 0 <= i < members@.len() ==> {
                        &&& (#[trigger] t.members()[i]).seen() == world.archetype_seq().len()
                        &&& t.members()[i].fetch_seq() == members@[i].fetch@
                        &&& t.members()[i].with_seq() == members@[i].with@
                        &&& t.members()[i].without_seq() == members@[i].without@
                        &&& t.members()[i].locations() == members@[i].locations_in(world, world.archetype_seq().len())
                    }
                    &&& final(meta).locations() == old(meta).locations().union(union_all(t.member_locations()))
                    &&& final(meta).components() == old(meta).components().union(union_all(t.member_components()))
                    &&& final(meta).name_view() == old(meta).name_view()
                    &&& final(meta).last_run_tick() == old(meta).last_run_tick()
                },
                Err(_) => *final(meta) == *old(meta),
            },
    {
        let ghost all = members@;
        let ghost decl = members@.map_values(|d: QueryDescriptor| d.locations_in(world, world.archetype_seq().len()));
        assert(members.len() == members@.len());
        let mut rest = members;
        let mut scope = meta.isolated_scope();
        let mut states: Vec<QueryState> = Vec::new();
        let mut locations = Access::new();
        let mut components = Access::new();
        let mut i: usize = 0;
        while rest.len() > 0
            invariant
                world.wf(),
                all == members@,
                decl == all.map_values(|d: QueryDescriptor| d.locations_in(world, world.archetype_seq().len())),
                all.len() <= usize::MAX,
                i + rest@.len() == all.len(),
                rest@ == all.subrange(i as int, all.len() as int),
                states@.len() == i,
                *meta == *old(meta),
                scope.name_view() == old(meta).name_view(),
                scope.locations() == old(meta).locations().union(locations@),
                scope.components() == old(meta).components().union(components@),
                forall|j: int| 0 <= j < i ==> old(meta).locations().union(union_all(decl.take(j))).compatible(#[trigger] decl[j]),
                forall|j: int| 0 <= j < i ==> marker_allows(old(meta).components(), (#[trigger] all[j]).components_declared()),
                !components@.has_marker(),
                forall|j: int| 0 <= j < i ==> {
                    &&& (#[trigger] states@[j]).wf(world)
                    &&& states@[j].seen() == world.archetype_seq().len()
                    &&& states@[j].fetch_seq() == all[j].fetch@
                    &&& states@[j].with_seq() == all[j].with@
                    &&& states@[j].without_seq() == all[j].without@
                    &&& states@[j].locations() == decl[j]
                },
                locations@ == union_all(states@.map_values(|s: QueryState| s.locations())),
                locations@ == union_all(decl.take(i as int)),
                components@ == union_all(states@.map_values(|s: QueryState| s.components())),
            decreases rest@.len(),
        {
            let d = rest.remove(0);
            assert(d == all[i as int]);
            let QueryDescriptor { fetch, with, without, query_type, filter_type } = d;
            let ghost before = scope;
            let registered = QueryState::try_init_state(
                world,
                &mut scope,
                fetch,
                with,
                without,
                query_type.as_str(),
                filter_type.as_str(),
            );
            match registered {
                Ok(state) => {
                    proof {
                        lemma_union_assoc(old(meta).locations(), locations@, state.locations());
                        lemma_union_assoc(old(meta).components(), components@, state.components());
                    }
                    locations.extend(state.archetype_component_access());
                    components.extend(state.component_access());
                    let ghost prev = states@;
                    states.push(state);
                    proof {
                        assert(states@.map_values(|s: QueryState| s.locations()).drop_last() =~= prev.map_values(|s: QueryState| s.locations()));
                        assert(states@.map_values(|s: QueryState| s.components()).drop_last() =~= prev.map_values(|s: QueryState| s.components()));
                        assert(decl.take(i + 1).drop_last() =~= decl.take(i as int));
                        assert(rest@ =~= all.subrange(i + 1, all.len() as int));
                    }
                },
                Err(e) => {
                    proof {
                        if old(meta).locations().union(union_all(decl.take(i as int))).compatible(decl[i as int]) {
                            assert(!marker_allows(old(meta).components(), all[i as int].components_declared()));
                        } else {
                            lemma_rejected_at(old(meta).locations(), decl, i as int);
                        }
                    }
                    return Err(e);
                },
            }
            i = i + 1;
        }
        meta.add_access(&components, &locations);
        let t = ParamTuple { states };
        assert(t.member_locations() =~= states@.map_values(|s: QueryState| s.locations()));
        assert(t.member_components() =~= states@.map_values(|s: QueryState| s.components()));
        Ok(t)
    }

    pub fn len(&self) -> (r: usize)
        ensures
            r == self.members().len(),
    {
        self.states.len()
    }

    /// Whether every member has looked at exactly the first `archetypes`
    /// archetypes, so that archetype `archetypes` is the next one for all.
    pub fn has_seen(&self, archetypes: usize) -> (r: bool)
        ensures
            r <==> forall|i: int| 0 <= i < self.members().len() ==> (#[trigger] self.members()[i]).seen() == archetypes,
    {
        let mut i: usize = 0;
        while i < self.states.len()
            invariant
                i <= self.states.len(),
                forall|j: int| 0 <= j < i ==> (#[trigger] self.members()[j]).seen() == archetypes,
            decreases self.states.len() - i,
        {
            if self.states[i].archetypes_seen() != archetypes {
                assert(self.members()[i as int].seen() != archetypes);
                return false;
            }
            i = i + 1;
        }
        true
    }

    /// Member `i` as one run sees it.
    pub fn get_param<'s>(&'s self, i: usize, meta: &SystemMeta, change_tick: Tick) -> (r: Query<'s>)
        requires
            i < self.members().len(),
        ensures
            *r.state_view() == self.members()[i as int],
            r.last_run_view() == meta.last_run_tick(),
            r.this_run_view() == change_tick@,
    {
        self.states[i].get_param(meta, change_tick)
    }

    /// Checks every member's access to archetype `archetype` against `meta`
    /// together with the members before it, without changing anything.
    #[verifier::rlimit(60)]
    fn check_in_order(&self, world: &World, archetype: ArchetypeId, meta: &SystemMeta) -> (r: Result<(Vec<(bool, Access)>, Access), AccessConflict>)
        requires
            self.wf(world),
            archetype < world.archetype_seq().len(),
        ensures
            r is Ok <==> accepted_in_order(
                meta.locations(),
                self.members().map_values(|s: QueryState| s.archetype_delta(world, archetype as int)),
            ),
            match r {
                Ok((checks, union)) => {
                    &&& checks@.len() == self.members().len()
                    &&& forall|j: int| 0 <= j < self.members().len() ==> {
                        &&& (#[trigger] checks@[j]).0 == self.members()[j].matches_in(world, archetype as int)
                        &&& checks@[j].1@ == self.members()[j].archetype_delta(world, archetype as int)
                    }
                    &&& union@ == union_all(self.members().map_values(|s: QueryState| s.archetype_delta(world, archetype as int)))
                },
                Err(_) => true,
            },
    {
        let ghost deltas = self.members().map_values(|s: QueryState| s.archetype_delta(world, archetype as int));
        let ghost base = meta.locations();
        let n = self.states.len();
        let mut seen = meta.archetype_component_access().duplicate();
        let mut checks: Vec<(bool, Access)> = Vec::new();
        let mut union = Access::new();
        let mut i: usize = 0;
        while i < n
            invariant
                n == self.states.len(),
                n == deltas.len(),
                base == meta.locations(),
                i <= n,
                self.wf(world),
                archetype < world.archetype_seq().len(),
                deltas == self.members().map_values(|s: QueryState| s.archetype_delta(world, archetype as int)),
                checks@.len() == i,
                seen@ == base.union(union@),
                forall|j: int| 0 <= j < i ==> base.union(union_all(deltas.take(j))).compatible(#[trigger] deltas[j]),
                forall|j: int| 0 <= j < i ==> {
                    &&& (#[trigger] checks@[j]).0 == self.members()[j].matches_in(world, archetype as int)
                    &&& checks@[j].1@ == deltas[j]
                },
                union@ == union_all(deltas.take(i as int)),
            decreases n - i,
        {
            assert(self.members()[i as int].wf(world));
            let checked = self.states[i].check_archetype(world, archetype, meta.name(), &seen);
            match checked {
                Ok((matched, delta)) => {
                    proof {
                        lemma_union_assoc(base, union@, delta@);
                        assert(deltas.take(i + 1).drop_last() =~= deltas.take(i as int));
                    }
                    union.extend(&delta);
                    seen.extend(&delta);
                    checks.push((matched, delta));
                },
                Err(e) => {
                    proof {
                        lemma_rejected_at(base, deltas, i as int);
                    }
                    return Err(e);
                },
            }
            i = i + 1;
        }
        assert(deltas.take(n as int) =~= deltas);
        Ok((checks, union))
    }

    /// The conflict, if any, that taking in archetype `archetype` would meet
    /// in a system with metadata `meta`: the first member whose access to it
    /// overlaps `meta` together with the members before it.
    pub fn check_new_archetype(&self, world: &World, archetype: ArchetypeId, meta: &SystemMeta) -> (r: Result<(), AccessConflict>)
        requires
            self.wf(world),
            archetype < world.archetype_seq().len(),
        ensures
            r is Ok <==> accepted_in_order(
                meta.locations(),
                self.members().map_values(|s: QueryState| s.archetype_delta(world, archetype as int)),
            ),
    {
        match self.check_in_order(world, archetype, meta) {
            Ok(_) => Ok(()),
            Err(e) => Err(e),
        }
    }

    /// Takes in archetype `archetype`, the next one for every member, for a
    /// system whose metadata `meta` holds the members' access. Member by
    /// member, its access to the archetype must not overlap `meta` together
    /// with the members before it, a fatal configuration error that
    /// [`ParamTuple::check_new_archetype`] reports; every member takes the
    /// archetype in and the union is recorded in `meta`.
    pub fn new_archetype(&mut self, world: &World, archetype: ArchetypeId, meta: &mut SystemMeta)
        requires
            old(self).wf(world),
            archetype < world.archetype_seq().len(),
            forall|i: int| 0 <= i < old(self).members().len() ==> (#[trigger] old(self).members()[i]).seen() == archetype,
            forall|i: int| 0 <= i < old(self).members().len() ==> (#[trigger] old(self).members()[i]).locations().within(old(meta).locations()),
            accepted_in_order(
                old(meta).locations(),
                old(self).members().map_values(|s: QueryState| s.archetype_delta(world, archetype as int)),
            ),
        ensures
            final(self).wf(world),
            final(self).members().len() == old(self).members().len(),
            forall|i: int| 0 <= i < old(self).members().len() ==> {
                &&& (#[trigger] final(self).members()[i]).seen() == archetype + 1
                &&& final(self).members()[i].fetch_seq() == old(self).members()[i].fetch_seq()
                &&& final(self).members()[i].with_seq() == old(self).members()[i].with_seq()
                &&& final(self).members()[i].without_seq() == old(self).members()[i].without_seq()
                &&& final(self).members()[i].locations() == old(self).members()[i].locations().union(
                    old(self).members()[i].archetype_delta(world, archetype as int),
                )
                &&& final(self).members()[i].locations().within(final(meta).locations())
            },
            final(meta).locations() == old(meta).locations().union(union_all(
                old(self).members().map_values(|s: QueryState| s.archetype_delta(world, archetype as int)),
            )),
            final(meta).components() == old(meta).components(),
            final(meta).name_view() == old(meta).name_view(),
            final(meta).last_run_tick() == old(meta).last_run_tick(),
            old(meta).wf(world) && (forall|i: int| 0 <= i < old(self).members().len()
                ==> (#[trigger] old(self).members()[i]).components().within(old(meta).components())) ==> final(meta).wf(world),
    {
        let ghost deltas = old(self).members().map_values(|s: QueryState| s.archetype_delta(world, archetype as int));
        let r = self.try_new_archetype(world, archetype, meta);
        assert(r is Ok);
        proof {
            if old(meta).wf(world) && (forall|i: int| 0 <= i < old(self).members().len()
                ==> (#[trigger] old(self).members()[i]).components().within(old(meta).components())) {
                assert forall|i: int| 0 <= i < deltas.len() implies covers(world, #[trigger] deltas[i], old(meta).components()) by {
                    let m = old(self).members()[i];
                    assert(m.wf(world));
                    m.lemma_covers(world);
                    m.lemma_delta_covers(world, archetype as int);
                    lemma_covers_within(world, deltas[i], m.components(), old(meta).components());
                }
                lemma_covers_union_all_by(world, deltas, old(meta).components());
                lemma_covers_union(world, old(meta).locations(), old(meta).components(), union_all(deltas), old(meta).components());
                assert(old(meta).components().union(old(meta).components()) =~= old(meta).components());
            }
            assert forall|i: int| 0 <= i < old(self).members().len() implies
                (#[trigger] final(self).members()[i]).locations().within(final(meta).locations()) by {
                lemma_union_all_holds(deltas, i);
                assert(old(self).members()[i].locations().within(old(meta).locations()));
            }
        }
    }

    /// Takes in the next archetype for every member, or returns the first
    /// conflict and changes nothing.
    fn try_new_archetype(&mut self, world: &World, archetype: ArchetypeId, meta: &mut SystemMeta) -> (r: Result<(), AccessConflict>)
        requires
            old(self).wf(world),
            archetype < world.archetype_seq().len(),
            forall|i: int| 0 <= i < old(self).members().len() ==> (#[trigger] old(self).members()[i]).seen() == archetype,
        ensures
            r is Ok <==> accepted_in_order(
                old(meta).locations(),
                old(self).members().map_values(|s: QueryState| s.archetype_delta(world, archetype as int)),
            ),
            r is Ok ==> {
                &&& final(self).wf(world)
                &&& final(self).members().len() == old(self).members().len()
                &&& forall|i: int| 0 <= i < old(self).members().len() ==> {
                    &&& (#[trigger] final(self).members()[i]).seen() == archetype + 1
                    &&& final(self).members()[i].fetch_seq() == old(self).members()[i].fetch_seq()
                    &&& final(self).members()[i].with_seq() == old(self).members()[i].with_seq()
                    &&& final(self).members()[i].without_seq() == old(self).members()[i].without_seq()
                    &&& final(self).members()[i].locations() == old(self).members()[i].locations().union(
                        old(self).members()[i].archetype_delta(world, archetype as int),
                    )
                }
                &&& final(meta).locations() == old(meta).locations().union(union_all(
                    old(self).members().map_values(|s: QueryState| s.archetype_delta(world, archetype as int)),
                ))
                &&& final(meta).components() == old(meta).components()
                &&& final(meta).name_view() == old(meta).name_view()
                &&& final(meta).last_run_tick() == old(meta).last_run_tick()
            },
            r is Err ==> *final(self) == *old(self) && *final(meta) == *old(meta),
    {
        let ghost deltas = self.members().map_values(|s: QueryState| s.archetype_delta(world, archetype as int));
        let n = self.states.len();
        let (checks, union) = match self.check_in_order(world, archetype, meta) {
            Ok(found) => found,
            Err(e) => {
                return Err(e);
            },
        };
        let no_components = Access::new();
        let ghost olds = self.members();
        let mut rest: Vec<QueryState> = Vec::new();
        std::mem::swap(&mut rest, &mut self.states);
        let mut done: Vec<QueryState> = Vec::new();
        let mut k: usize = 0;
        while k < n
            invariant
                n == olds.len(),
                k <= n,
                rest@ == olds.subrange(k as int, n as int),
                done@.len() == k,
                checks@.len() == n,
                archetype < world.archetype_seq().len(),
                forall|j: int| 0 <= j < n ==> (#[trigger] olds[j]).wf(world),
                forall|j: int| 0 <= j < n ==> (#[trigger] olds[j]).seen() == archetype,
                forall|j: int| 0 <= j < n ==> {
                    &&& (#[trigger] checks@[j]).0 == olds[j].matches_in(world, archetype as int)
                    &&& checks@[j].1@ == olds[j].archetype_delta(world, archetype as int)
                },
                forall|j: int| 0 <= j < k ==> {
                    &&& (#[trigger] done@[j]).wf(world)
                    &&& done@[j].seen() == archetype + 1
                    &&& done@[j].fetch_seq() == olds[j].fetch_seq()
                    &&& done@[j].with_seq() == olds[j].with_seq()
                    &&& done@[j].without_seq() == olds[j].without_seq()
                    &&& done@[j].locations() == olds[j].locations().union(olds[j].archetype_delta(world, archetype as int))
                },
            decreases n - k,
        {
            let mut state = rest.remove(0);
            assert(state == olds[k as int]);
            let (matched, _) = checks[k];
            state.advance(world, matched, &checks[k].1);
            done.push(state);
            assert(rest@ =~= olds.subrange(k + 1, n as int));
            k = k + 1;
        }
        self.states = done;
        meta.add_access(&no_components, &union);
        proof {
            assert(final(meta).components() =~= old(meta).components());
        }
        Ok(())
    }
}

} // verus!
