//! The registration-time conflict detector and the error it reports.

use vstd::prelude::*;
use vstd::string::StringExecFns;
use crate::access::{push_unique, Access, AccessConflicts, AccessModel};
use crate::world::{ComponentId, World};

verus! {

/// The names joined with ", " between them.
pub open spec fn join_names(names: Seq<Seq<char>>) -> Seq<char>
    decreases names.len(),
{
    if names.len() == 0 {
        Seq::empty()
    } else if names.len() == 1 {
        names[0]
    } else {
        join_names(names.drop_last()) + ", "@ + names.last()
    }
}

/// The components of the storage locations in `locations`.
pub open spec fn components_of(world: &World, locations: Set<usize>) -> Set<ComponentId> {
    Set::new(|c: ComponentId| exists|l: usize| #[trigger] locations.contains(l) && l < world.location_seq().len() && world.location_seq()[l as int].1 == c)
}

/// Every identifier that `access` reads or writes is a storage location of
/// `world`.
pub open spec fn refers_to(access: AccessModel, world: &World) -> bool {
    &&& forall|l: usize| #[trigger] access.reads.contains(l) ==> l < world.location_seq().len()
    &&& forall|l: usize| #[trigger] access.writes.contains(l) ==> l < world.location_seq().len()
}

/// Whole-store markers are decided on component identifiers: once `system`
/// holds one, only a declaration of no component is accepted beside it.
pub open spec fn marker_allows(system: AccessModel, components: AccessModel) -> bool {
    system.has_marker() ==> components.is_empty()
}

/// The name a conflict report gives a query.
pub(crate) fn query_name(query_type: &str, filter_type: &str) -> (r: String)
    ensures
        r@ == "Query<"@ + query_type@ + ", "@ + filter_type@ + ">"@,
{
    let mut name = String::from_str("Query<");
    name.append(query_type);
    name.append(", ");
    name.append(filter_type);
    name.append(">");
    name
}

/// A parameter's declaration overlaps what the system had declared before.
/// Registration cannot go on: the schedule would be unsound.
#[derive(Debug)]
pub struct AccessConflict {
    system_name: String,
    param_name: String,
    whole_store: bool,
    component_ids: Vec<ComponentId>,
    component_names: Vec<String>,
}

impl AccessConflict {
    pub closed spec fn system_name_view(&self) -> Seq<char> {
        self.system_name@
    }

    pub closed spec fn param_name_view(&self) -> Seq<char> {
        self.param_name@
    }

    /// The overlap is a whole-store marker meeting another declaration.
    pub closed spec fn whole_store_view(&self) -> bool {
        self.whole_store
    }

    pub closed spec fn component_id_seq(&self) -> Seq<ComponentId> {
        self.component_ids@
    }

    pub closed spec fn component_name_seq(&self) -> Seq<Seq<char>> {
        self.component_names@.map_values(|s: String| s@)
    }

    /// The report's text.
    pub open spec fn message_view(&self) -> Seq<char> {
        if self.whole_store_view() {
            self.param_name_view() + " in system "@ + self.system_name_view()
                + " conflicts with a previous system parameter: access to the whole store excludes any other declared access. Consider merging the conflicting parameters into a `ParamSet`."@
        } else {
            self.param_name_view() + " in system "@ + self.system_name_view() + " accesses component(s) "@
                + join_names(self.component_name_seq())
                + " in a way that conflicts with a previous system parameter. Consider using `Without<T>` to create disjoint Queries or merging conflicting Queries into a `ParamSet`."@
        }
    }

    /// A conflict between a whole-store declaration and another one.
    pub fn whole_store(system_name: &str, param_name: &str) -> (r: AccessConflict)
        ensures
            r.system_name_view() == system_name@,
            r.param_name_view() == param_name@,
            r.whole_store_view(),
            r.component_id_seq() == Seq::<ComponentId>::empty(),
            r.component_name_seq() == Seq::<Seq<char>>::empty(),
    {
        let r = AccessConflict {
            system_name: String::from_str(system_name),
            param_name: String::from_str(param_name),
            whole_store: true,
            component_ids: Vec::new(),
            component_names: Vec::new(),
        };
        assert(r.component_name_seq() =~= Seq::<Seq<char>>::empty());
        r
    }

    pub fn system_name(&self) -> (r: &str)
        ensures
            r@ == self.system_name_view(),
    {
        self.system_name.as_str()
    }

    pub fn param_name(&self) -> (r: &str)
        ensures
            r@ == self.param_name_view(),
    {
        self.param_name.as_str()
    }

    pub fn is_whole_store(&self) -> (r: bool)
        ensures
            r == self.whole_store_view(),
    {
        self.whole_store
    }

    /// The conflicting component types, each once.
    pub fn component_ids(&self) -> (r: &Vec<ComponentId>)
        ensures
            r@ == self.component_id_seq(),
    {
        &self.component_ids
    }

    /// The names of the conflicting component types, in the order of
    /// [`AccessConflict::component_ids`].
    pub fn component_names(&self) -> (r: &Vec<String>)
        ensures
            r@.map_values(|s: String| s@) == self.component_name_seq(),
    {
        &self.component_names
    }

    /// The report, naming the parameter, the system and the components, with
    /// a hint at how to resolve the conflict.
    pub fn message(&self) -> (r: String)
        ensures
            r@ == self.message_view(),
    {
        let mut text = String::from_str(self.param_name.as_str());
        text.append(" in system ");
        text.append(self.system_name.as_str());
        if self.whole_store {
            text.append(" conflicts with a previous system parameter: access to the whole store excludes any other declared access. Consider merging the conflicting parameters into a `ParamSet`.");
        } else {
            text.append(" accesses component(s) ");
            let joined = join(&self.component_names);
            text.append(joined.as_str());
            text.append(" in a way that conflicts with a previous system parameter. Consider using `Without<T>` to create disjoint Queries or merging conflicting Queries into a `ParamSet`.");
        }
        text
    }
}

fn join(names: &Vec<String>) -> (r: String)
    ensures
        r@ == join_names(names@.map_values(|s: String| s@)),
{
    let ghost all = names@.map_values(|s: String| s@);
    let mut text = String::new();
    let mut i: usize = 0;
    while i < names.len()
        invariant
            i <= names.len(),
            all == names@.map_values(|s: String| s@),
            text@ == join_names(all.take(i as int)),
        decreases names.len() - i,
    {
        proof {
            assert(all.take(i + 1).drop_last() =~= all.take(i as int));
        }
        if i > 0 {
            text.append(", ");
        } else {
            assert(text@ =~= Seq::<char>::empty());
        }
        text.append(names[i].as_str());
        i = i + 1;
    }
    assert(all.take(i as int) =~= all);
    text
}

/// Asserts that a query's declaration `current` does not overlap the access
/// its system had declared before. An overlap is a fatal configuration error,
/// so it is excluded here; [`check_component_access_compatibility`] reports
/// one.
pub fn assert_component_access_compatibility(
    system_name: &str,
    query_type: &str,
    filter_type: &str,
    system_access: &Access,
    current: &Access,
    world: &World,
)
    requires
        world.wf(),
        refers_to(current@, world),
        system_access@.compatible(current@),
{
    let checked = check_component_access_compatibility(system_name, query_type, filter_type, system_access, current, world);
    assert(checked is Ok);
}

/// Checks a query's declaration `current` against the access its system had
/// declared before. On an overlap, reports the query and filter types, the
/// system, and the components of the overlapping storage locations.
pub fn check_component_access_compatibility(
    system_name: &str,
    query_type: &str,
    filter_type: &str,
    system_access: &Access,
    current: &Access,
    world: &World,
) -> (r: Result<(), AccessConflict>)
    requires
        world.wf(),
        refers_to(current@, world),
    ensures
        r is Ok <==> system_access@.compatible(current@),
        match r {
            Ok(_) => true,
            Err(e) => {
                &&& e.system_name_view() == system_name@
                &&& e.param_name_view() == "Query<"@ + query_type@ + ", "@ + filter_type@ + ">"@
                &&& e.whole_store_view() == system_access@.conflicts_everything(current@)
                &&& e.component_id_seq().no_duplicates()
                &&& e.component_id_seq().to_set() == (if e.whole_store_view() {
                    Set::empty()
                } else {
                    components_of(world, system_access@.conflicts(current@))
                })
                &&& e.component_name_seq() == e.component_id_seq().map_values(|c: ComponentId| world.component_names()[c as int])
            },
        },
{
    let conflicts = system_access.get_conflicts(current);
    let param_name = query_name(query_type, filter_type);
    match conflicts {
        AccessConflicts::All => {
            let r = AccessConflict {
                system_name: String::from_str(system_name),
                param_name,
                whole_store: true,
                component_ids: Vec::new(),
                component_names: Vec::new(),
            };
            assert(r.component_id_seq().to_set() =~= Set::empty());
            assert(r.component_name_seq() =~= r.component_id_seq().map_values(|c: ComponentId| world.component_names()[c as int]));
            Err(r)
        },
        AccessConflicts::Individual(ids) => {
            if ids.len() == 0 {
                proof {
                    assert forall|x: usize| !system_access@.conflicts(current@).contains(x) by {
                        if system_access@.conflicts(current@).contains(x) {
                            assert(ids@.contains(x));
                        }
                    }
                    assert(system_access@.conflicts(current@) =~= Set::empty());
                }
                return Ok(());
            }
            assert(ids@.contains(ids@[0]));
            proof {
                world.lemma_wf();
                current.lemma_valid();
            }
            let ghost target = components_of(world, system_access@.conflicts(current@));
            assert forall|j: int| 0 <= j < ids.len() implies #[trigger] ids@[j] < world.location_seq().len() by {
                assert(ids@.contains(ids@[j]));
            }
            let mut component_ids: Vec<ComponentId> = Vec::new();
            let mut i: usize = 0;
            while i < ids.len()
                invariant
                    i <= ids.len(),
                    world.wf(),
                    current@.valid(),
                    refers_to(current@, world),
                    forall|x: usize| #[trigger] ids@.contains(x) <==> system_access@.conflicts(current@).contains(x),
                    component_ids@.no_duplicates(),
                    forall|c: ComponentId| #[trigger] component_ids@.contains(c) <==> exists|j: int| 0 <= j < i && world.location_seq()[ids@[j] as int].1 == c,
                    forall|j: int| 0 <= j < ids.len() ==> #[trigger] ids@[j] < world.location_seq().len(),
                decreases ids.len() - i,
            {
                let (_, c) = world.location(ids[i]);
                let ghost before = component_ids@;
                if !crate::access::vec_contains(&component_ids, c) {
                    component_ids.push(c);
                    proof {
                        assert forall|p: int, q: int| 0 <= p < q < component_ids@.len() implies component_ids@[p] != component_ids@[q] by {
                            if q == component_ids@.len() - 1 {
                                assert(before.contains(component_ids@[p]));
                            }
                        }
                    }
                }
                proof {
                    assert forall|x: ComponentId| #[trigger] component_ids@.contains(x) <==> exists|j: int| 0 <= j < i + 1 && world.location_seq()[ids@[j] as int].1 == x by {
                        if component_ids@.contains(x) && x != c {
                            let k = choose|k: int| 0 <= k < component_ids@.len() && component_ids@[k] == x;
                            if k < before.len() {
                                assert(before.contains(x));
                            }
                        }
                        if x == c {
                            if before.contains(c) {
                                let k = choose|k: int| 0 <= k < before.len() && before[k] == c;
                                assert(component_ids@[k] == c);
                            } else {
                                assert(component_ids@[before.len() as int] == c);
                            }
                        }
                        if exists|j: int| 0 <= j < i && world.location_seq()[ids@[j] as int].1 == x {
                            assert(before.contains(x));
                            let k = choose|k: int| 0 <= k < before.len() && before[k] == x;
                            assert(component_ids@[k] == x);
                        }
                    }
                }
                i = i + 1;
            }
            proof {
                assert forall|c: ComponentId| component_ids@.to_set().contains(c) <==> target.contains(c) by {
                    if component_ids@.contains(c) {
                        let j = choose|j: int| 0 <= j < ids.len() && world.location_seq()[ids@[j] as int].1 == c;
                        assert(ids@.contains(ids@[j]));
                        assert(system_access@.conflicts(current@).contains(ids@[j]));
                    }
                    if target.contains(c) {
                        let l = choose|l: usize| #[trigger] system_access@.conflicts(current@).contains(l) && l < world.location_seq().len() && world.location_seq()[l as int].1 == c;
                        assert(ids@.contains(l));
                        let j = choose|j: int| 0 <= j < ids.len() && ids@[j] == l;
                        assert(world.location_seq()[ids@[j] as int].1 == c);
                    }
                }
                assert(component_ids@.to_set() =~= target);
            }
            let mut component_names: Vec<String> = Vec::new();
            let mut k: usize = 0;
            while k < component_ids.len()
                invariant
                    k <= component_ids.len(),
                    world.wf(),
                    forall|c: ComponentId| #[trigger] component_ids@.contains(c) ==> c < world.component_names().len(),
                    component_names@.map_values(|s: String| s@) == component_ids@.take(k as int).map_values(|c: ComponentId| world.component_names()[c as int]),
                decreases component_ids.len() - k,
            {
                assert(component_ids@.contains(component_ids@[k as int]));
                let name = String::from_str(world.component_name(component_ids[k]));
                let ghost prev = component_names@;
                component_names.push(name);
                proof {
                    assert(component_names@.map_values(|s: String| s@) =~= prev.map_values(|s: String| s@).push(name@));
                    assert(component_ids@.take(k + 1) =~= component_ids@.take(k as int).push(component_ids@[k as int]));
                    assert(component_ids@.take(k + 1).map_values(|c: ComponentId| world.component_names()[c as int])
                        =~= component_ids@.take(k as int).map_values(|c: ComponentId| world.component_names()[c as int]).push(world.component_names()[component_ids@[k as int] as int]));
                }
                k = k + 1;
            }
            assert(component_ids@.take(k as int) =~= component_ids@);
            Err(AccessConflict {
                system_name: String::from_str(system_name),
                param_name,
                whole_store: false,
                component_ids,
                component_names,
            })
        },
    }
}

} // verus!
