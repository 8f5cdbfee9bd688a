//! The parameter kinds other than queries: read access to the whole store,
//! per-system local state, deferred-mutation buffers, the tick snapshot and
//! the name probe.

use vstd::prelude::*;
use vstd::string::StringExecFns;
use crate::access::{Access, AccessModel};
use crate::conflict::AccessConflict;
use crate::meta::SystemMeta;
use crate::tick::Tick;
use crate::world::{strictly_increasing, ComponentId, World};

verus! {

/// A parameter kind that never requests write access to the store, so that it
/// can stand beside other read-only kinds without conflict.
pub trait ReadOnlySystemParam {}

/// The declaration of read access to everything.
pub open spec fn read_all_model() -> AccessModel {
    AccessModel { reads_all: true, ..AccessModel::empty() }
}

impl World {
    /// The conflict, if any, that registering read access to the whole store
    /// would meet in a system with metadata `meta`: it is compatible only
    /// with a system that has declared nothing so far.
    pub fn check_init_state(meta: &SystemMeta) -> (r: Result<(), AccessConflict>)
        ensures
            r is Ok <==> meta.locations().compatible(read_all_model()) && meta.components().compatible(read_all_model()),
            r is Ok <==> meta.locations().is_empty() && meta.components().is_empty(),
            match r {
                Ok(_) => true,
                Err(e) => {
                    &&& e.system_name_view() == meta.name_view()
                    &&& e.param_name_view() == "&World"@
                    &&& e.whole_store_view()
                },
            },
    {
        let mut access = Access::new();
        access.read_all();
        if !meta.archetype_component_access().is_compatible(&access) || !meta.component_access().is_compatible(&access) {
            return Err(AccessConflict::whole_store(meta.name(), "&World"));
        }
        Ok(())
    }

    /// Registers read access to the whole store. The system must have
    /// declared nothing so far: any earlier access is a fatal configuration
    /// error, which [`World::check_init_state`] reports.
    pub fn init_state(world: &World, meta: &mut SystemMeta)
        requires
            old(meta).locations().is_empty(),
            old(meta).components().is_empty(),
        ensures
            old(meta).locations().compatible(read_all_model()),
            old(meta).components().compatible(read_all_model()),
            final(meta).locations() == old(meta).locations().union(read_all_model()),
            final(meta).components() == old(meta).components().union(read_all_model()),
            final(meta).name_view() == old(meta).name_view(),
            final(meta).last_run_tick() == old(meta).last_run_tick(),
            final(meta).wf(world),
    {
        let mut access = Access::new();
        access.read_all();
        meta.add_access(&access, &access);
    }

    /// The value a run receives: the whole store, read-only.
    pub fn get_param(&self) -> (r: &World)
        ensures
            *r == *self,
    {
        self
    }
}

/// Storage for one system's local value; it persists across runs and no other
/// system sees it.
#[derive(Debug)]
pub struct LocalState<T> {
    value: T,
}

impl<T> LocalState<T> {
    pub closed spec fn value_view(&self) -> T {
        self.value
    }

    /// The state of a local parameter, holding `initial`. Nothing is declared
    /// on the store.
    pub fn init_state(initial: T) -> (r: LocalState<T>)
        ensures
            r.value_view() == initial,
    {
        LocalState { value: initial }
    }
}

/// A system's local value, borrowed for one run.
#[derive(Debug)]
pub struct Local<'s, T>(pub &'s mut T);

impl<'s, T> ReadOnlySystemParam for Local<'s, T> {}

impl<'s, T> Local<'s, T> {
    /// The value a run receives: a borrow of this state's value and nothing
    /// else, so that what a run writes stays in this state.
    pub fn get_param(state: &'s mut LocalState<T>) -> (r: Local<'s, T>)
        ensures
            *r.0 == old(state).value_view(),
            final(state).value_view() == *final(r.0),
    {
        Local(&mut state.value)
    }
}

/// A buffer of mutations that a system records during a run and that is
/// applied to the store only at an explicit synchronization point.
pub trait SystemBuffer: Sized {
    /// Every recorded mutation can be applied to `world`.
    spec fn applicable(&self, world: &World) -> bool;

    /// Nothing is recorded.
    spec fn is_empty(&self) -> bool;

    /// `after` is `before` with every recorded mutation applied once.
    spec fn applied(&self, before: &World, after: &World) -> bool;

    /// Applies the recorded mutations to the store and empties the buffer; an
    /// empty buffer leaves the store as it was.
    fn apply(&mut self, system_meta: &SystemMeta, world: &mut World)
        requires
            old(world).wf(),
            old(self).applicable(old(world)),
        ensures
            final(world).wf(),
            final(world).extends(old(world)),
            final(world).tick() == old(world).tick(),
            final(self).is_empty(),
            final(self).applicable(final(world)),
            old(self).applied(old(world), final(world)),
            old(self).is_empty() ==> *final(world) == *old(world),
    ;
}

/// Recorded entity spawns, each given by its strictly increasing component
/// identifiers.
#[derive(Debug)]
pub struct CommandQueue {
    spawns: Vec<Vec<ComponentId>>,
}

impl CommandQueue {
    pub closed spec fn pending(&self) -> Seq<Seq<ComponentId>> {
        self.spawns@.map_values(|v: Vec<ComponentId>| v@)
    }

    /// The spawns can be made in a store with `n` component types.
    pub open spec fn valid_for(spawns: Seq<Seq<ComponentId>>, n: nat) -> bool {
        forall|k: int| 0 <= k < spawns.len() ==> {
            &&& strictly_increasing(#[trigger] spawns[k])
            &&& forall|i: int| 0 <= i < spawns[k].len() ==> spawns[k][i] < n
        }
    }

    pub fn new() -> (r: CommandQueue)
        ensures
            r.pending() == Seq::<Seq<ComponentId>>::empty(),
    {
        let r = CommandQueue { spawns: Vec::new() };
        assert(r.pending() =~= Seq::<Seq<ComponentId>>::empty());
        r
    }

    pub fn len(&self) -> (r: usize)
        ensures
            r == self.pending().len(),
    {
        self.spawns.len()
    }

    /// Records the spawn of one entity with the components `components`. The
    /// store is not touched.
    pub fn spawn(&mut self, components: Vec<ComponentId>)
        ensures
            final(self).pending() == old(self).pending().push(components@),
    {
        let ghost v = components@;
        self.spawns.push(components);
        assert(self.pending() =~= old(self).pending().push(v));
    }

    /// Makes the recorded spawns, in order, and empties the queue.
    pub fn apply_to(&mut self, world: &mut World)
        requires
            old(world).wf(),
            Self::valid_for(old(self).pending(), old(world).component_names().len()),
        ensures
            final(world).wf(),
            final(world).extends(old(world)),
            final(world).tick() == old(world).tick(),
            final(world).component_names() == old(world).component_names(),
            final(world).entity_seq().len() == old(world).entity_seq().len() + old(self).pending().len(),
            forall|k: int| 0 <= k < old(self).pending().len() ==>
                #[trigger] final(world).archetype_seq()[final(world).entity_seq()[old(world).entity_seq().len() + k] as int] == old(self).pending()[k],
            old(self).pending().len() == 0 ==> *final(world) == *old(world),
            final(self).pending() == Seq::<Seq<ComponentId>>::empty(),
    {
        let ghost start = *world;
        let mut k: usize = 0;
        while k < self.spawns.len()
            invariant
                k <= self.spawns.len(),
                *self == *old(self),
                world.wf(),
                world.extends(&start),
                start == *old(world),
                world.tick() == start.tick(),
                world.component_names() == start.component_names(),
                world.entity_seq().len() == start.entity_seq().len() + k,
                k == 0 ==> *world == start,
                Self::valid_for(self.pending(), start.component_names().len()),
                forall|j: int| 0 <= j < k ==>
                    #[trigger] world.archetype_seq()[world.entity_seq()[start.entity_seq().len() + j] as int] == self.pending()[j],
            decreases self.spawns.len() - k,
        {
            assert(self.pending()[k as int] == self.spawns@[k as int]@);
            let ghost before = *world;
            let a = world.spawn(&self.spawns[k]);
            proof {
                assert forall|j: int| 0 <= j < k + 1 implies
                    #[trigger] world.archetype_seq()[world.entity_seq()[start.entity_seq().len() + j] as int] == self.pending()[j] by {
                    let e = start.entity_seq().len() + j;
                    if j < k {
                        before.lemma_wf();
                        assert(world.entity_seq()[e] == before.entity_seq()[e]);
                        assert(before.entity_seq()[e] < before.archetype_seq().len());
                        assert(before.archetype_seq()[before.entity_seq()[e] as int] == self.pending()[j]);
                        assert(before.archetype_seq().is_prefix_of(world.archetype_seq()));
                        assert(world.archetype_seq()[before.entity_seq()[e] as int] == before.archetype_seq()[before.entity_seq()[e] as int]);
                    } else {
                        assert(world.entity_seq()[e] == a);
                    }
                }
                assert(world.component_names().is_prefix_of(world.component_names()));
                assert(world.location_seq().is_prefix_of(world.location_seq()));
                assert forall|l: int| start.location_seq().len() <= l < world.location_seq().len()
                    implies #[trigger] world.location_seq()[l].0 >= start.archetype_seq().len() by {
                    if l < before.location_seq().len() {
                        assert(before.location_seq()[l] == world.location_seq()[l]);
                    }
                }
            }
            k = k + 1;
        }
        self.spawns = Vec::new();
        assert(self.pending() =~= Seq::<Seq<ComponentId>>::empty());
    }
}

impl SystemBuffer for CommandQueue {
    open spec fn applicable(&self, world: &World) -> bool {
        Self::valid_for(self.pending(), world.component_names().len())
    }

    open spec fn is_empty(&self) -> bool {
        self.pending().len() == 0
    }

    /// Each queued spawn made once, in order: one new entity per spawn, in
    /// the archetype of its components.
    open spec fn applied(&self, before: &World, after: &World) -> bool {
        &&& after.component_names() == before.component_names()
        &&& after.entity_seq().len() == before.entity_seq().len() + self.pending().len()
        &&& forall|k: int| 0 <= k < self.pending().len() ==>
            #[trigger] after.archetype_seq()[after.entity_seq()[before.entity_seq().len() + k] as int] == self.pending()[k]
    }

    /// Makes the queued spawns, each once and in order, and empties the queue.
    fn apply(&mut self, _system_meta: &SystemMeta, world: &mut World)
        ensures
            final(world).component_names() == old(world).component_names(),
            final(world).entity_seq().len() == old(world).entity_seq().len() + old(self).pending().len(),
            forall|k: int| 0 <= k < old(self).pending().len() ==>
                #[trigger] final(world).archetype_seq()[final(world).entity_seq()[old(world).entity_seq().len() + k] as int] == old(self).pending()[k],
            final(self).pending() == Seq::<Seq<ComponentId>>::empty(),
    {
        self.apply_to(world);
    }
}

/// Storage for one system's deferred buffer; it persists across runs.
pub struct DeferredState<T: SystemBuffer> {
    buffer: T,
}

impl<T: SystemBuffer> DeferredState<T> {
    pub closed spec fn buffer_view(&self) -> T {
        self.buffer
    }

    /// The state of a deferred parameter, holding the empty buffer `buffer`.
    /// Nothing is declared on the store.
    pub fn init_state(buffer: T) -> (r: DeferredState<T>)
        ensures
            r.buffer_view() == buffer,
    {
        DeferredState { buffer }
    }

    /// Applies the buffered mutations at a synchronization point, each once,
    /// through the buffer's own `apply`, and leaves the buffer empty; with
    /// nothing buffered the store stays as it was, so
    /// a second flush with nothing queued in between changes nothing.
    pub fn apply(&mut self, system_meta: &SystemMeta, world: &mut World)
        requires
            old(world).wf(),
            old(self).buffer_view().applicable(old(world)),
        ensures
            final(world).wf(),
            final(world).extends(old(world)),
            final(world).tick() == old(world).tick(),
            final(self).buffer_view().is_empty(),
            final(self).buffer_view().applicable(final(world)),
            old(self).buffer_view().applied(old(world), final(world)),
            old(self).buffer_view().is_empty() ==> *final(world) == *old(world),
    {
        self.buffer.apply(system_meta, world);
    }
}

impl DeferredState<CommandQueue> {
    /// Applies the queued spawns at a synchronization point: each becomes
    /// visible once, and the queue is left empty, so that a second flush
    /// with nothing queued in between changes nothing.
    pub fn apply_commands(&mut self, world: &mut World)
        requires
            old(world).wf(),
            CommandQueue::valid_for(old(self).buffer_view().pending(), old(world).component_names().len()),
        ensures
            final(world).wf(),
            final(world).extends(old(world)),
            final(world).entity_seq().len() == old(world).entity_seq().len() + old(self).buffer_view().pending().len(),
            forall|k: int| 0 <= k < old(self).buffer_view().pending().len() ==>
                #[trigger] final(world).archetype_seq()[final(world).entity_seq()[old(world).entity_seq().len() + k] as int]
                    == old(self).buffer_view().pending()[k],
            old(self).buffer_view().pending().len() == 0 ==> *final(world) == *old(world),
            final(self).buffer_view().pending() == Seq::<Seq<ComponentId>>::empty(),
    {
        self.buffer.apply_to(world);
    }
}

/// A system's deferred buffer, borrowed for one run.
pub struct Deferred<'s, T: SystemBuffer>(pub &'s mut T);

impl<'s, T: SystemBuffer> ReadOnlySystemParam for Deferred<'s, T> {}

impl<'s, T: SystemBuffer> Deferred<'s, T> {
    /// The value a run receives: a borrow of this state's buffer. Recording
    /// into it does not touch the store.
    pub fn get_param(state: &'s mut DeferredState<T>) -> (r: Deferred<'s, T>)
        ensures
            *r.0 == old(state).buffer_view(),
            final(state).buffer_view() == *final(r.0),
    {
        Deferred(&mut state.buffer)
    }
}

/// The ticks bracketing one run of a system: when it last ran, and now.
#[derive(Clone, Copy, Debug)]
pub struct SystemChangeTick {
    last_run: Tick,
    this_run: Tick,
}

impl ReadOnlySystemParam for SystemChangeTick {}

impl SystemChangeTick {
    pub closed spec fn last_run_view(&self) -> u32 {
        self.last_run@
    }

    pub closed spec fn this_run_view(&self) -> u32 {
        self.this_run@
    }

    /// The tick of the current run.
    pub fn this_run(&self) -> (r: Tick)
        ensures
            r@ == self.this_run_view(),
    {
        self.this_run
    }

    /// The tick of the previous run.
    pub fn last_run(&self) -> (r: Tick)
        ensures
            r@ == self.last_run_view(),
    {
        self.last_run
    }

    /// The snapshot a run at `change_tick` receives: the system's recorded
    /// previous-run tick and `change_tick`.
    pub fn get_param(system_meta: &SystemMeta, change_tick: Tick) -> (r: SystemChangeTick)
        ensures
            r.last_run_view() == system_meta.last_run_tick(),
            r.this_run_view() == change_tick@,
    {
        SystemChangeTick { last_run: system_meta.last_run(), this_run: change_tick }
    }
}

/// The name of the running system.
#[derive(Debug)]
pub struct SystemName<'s>(&'s str);

impl<'s> ReadOnlySystemParam for SystemName<'s> {}

impl<'s> SystemName<'s> {
    pub closed spec fn name_view(&self) -> Seq<char> {
        self.0@
    }

    /// The state of a name parameter: the system's name, captured once.
    /// Nothing is declared on the store.
    pub fn init_state(system_meta: &SystemMeta) -> (r: String)
        ensures
            r@ == system_meta.name_view(),
    {
        String::from_str(system_meta.name())
    }

    pub fn get_param(state: &'s String) -> (r: SystemName<'s>)
        ensures
            r.name_view() == state@,
    {
        SystemName(state.as_str())
    }

    pub fn name(&self) -> (r: &str)
        ensures
            r@ == self.name_view(),
    {
        self.0
    }
}

/// A pass-through wrapper around a parameter's value, giving it a stable type
/// identity for use in generic parameter structures.
#[derive(Debug)]
pub struct StaticSystemParam<P>(P);

impl<P> ReadOnlySystemParam for StaticSystemParam<P> where P: ReadOnlySystemParam {}

impl<P> StaticSystemParam<P> {
    pub closed spec fn inner_view(&self) -> P {
        self.0
    }

    /// Wraps the value `item` that a parameter produced for one run.
    pub fn get_param(item: P) -> (r: StaticSystemParam<P>)
        ensures
            r.inner_view() == item,
    {
        StaticSystemParam(item)
    }

    pub fn get(&self) -> (r: &P)
        ensures
            *r == self.inner_view(),
    {
        &self.0
    }

    /// The wrapped value.
    pub fn into_inner(self) -> (r: P)
        ensures
            r == self.inner_view(),
    {
        self.0
    }
}

} // verus!
