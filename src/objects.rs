//! The entity arena and the event scheduler.

use vstd::prelude::*;
use vstd::string::StringExecFns;
use crate::reporter::{report_due, SimulationReachedTimeEvent, DEFAULT_REPORT_INTERVAL_NS};
use crate::systems::{same_kind, System};
use crate::topology::{
    forward_outcome, lemma_pending_checkout, lemma_pending_pop, lemma_pending_restore, ticks_pending, lemma_emitters_remove, lemma_emitters_step, lemma_shape_keeps_links,
    acyclic, checked_in, coupled, forward_post, forward_safe, grows_by_server_ticks,
    lemma_checkout_keeps_links, lemma_coupled_checkout, lemma_grows_checkout,
    lemma_live_checkout, lemma_pop_keeps_invariant, lemma_run_invariant_step,
    lemma_shape_keeps_emitters, lemma_shape_restore, lemma_shape_update, lemma_world_wf_shape,
    live, run_invariant, same_shape, server_backlog, slots_wf, step_keeps, targets_emitters,
    tick_coupling, tick_post, tick_safe, total_backlog, well_linked,
};
use crate::traits::{HasQueue, Sampler, StatEmitter, SystemRef, WorldMember};
use crate::utils::{clamp_i64, counter_suffix, meter_suffix, ticks_suffix, grouped_int, Counter};

verus! {

/// Why a dispatch could not run: it met the placeholder of a checked-out
/// entity (a forwarding cycle), a handle past the arena, or an entity asked
/// for a behaviour it does not have (ticking a sink, forwarding to an
/// arrival source).
#[derive(Clone, Copy, Debug, PartialEq, Eq, Structural)]
pub enum Fault {
    Placeholder,
    OutOfRange,
    Unsupported,
}

/// The arena: every entity, addressed by a stable handle.
pub struct World {
    systems: Vec<System>,
}

impl World {
    /// The slots, in handle order.
    pub closed spec fn slots(&self) -> Seq<System> {
        self.systems@
    }

    /// Outside a checkout, every slot holds a real, well-formed entity.
    pub open spec fn wf(&self) -> bool {
        &&& slots_wf(self.slots())
        &&& forall|i: int| 0 <= i < self.slots().len() ==> !(#[trigger] self.slots()[i] is Unset)
    }

    pub fn new() -> (r: Self)
        ensures
            r.wf(),
            r.slots().len() == 0,
    {
        World { systems: Vec::new() }
    }

    /// The number of slots.
    pub fn len(&self) -> (r: usize)
        ensures
            r == self.slots().len(),
    {
        self.systems.len()
    }

    /// The entity at `h`.
    pub fn system(&self, h: SystemRef) -> (r: &System)
        requires
            h < self.slots().len(),
        ensures
            *r == self.slots()[h as int],
    {
        &self.systems[h]
    }

    /// Whether link target `l` of the entity at `i` has a lower handle and
    /// accepts forwarded notifications.
    fn aims_lower(&self, i: usize, l: SystemRef) -> (r: bool)
        requires
            i < self.slots().len(),
        ensures
            r == (l < i && !(self.slots()[l as int] is ArrivalSource)),
    {
        if l >= i {
            return false;
        }
        match &self.systems[l] {
            System::ArrivalSource(_) => false,
            _ => true,
        }
    }

    /// Whether every link leads to an entity of a lower handle that accepts
    /// forwarded notifications, as it does when each entity is registered
    /// after those it forwards to. Such an arena is acyclic.
    pub fn links_aim_lower(&self) -> (r: bool)
        ensures
            r ==> acyclic(self.slots()),
    {
        let n = self.systems.len();
        let mut i: usize = 0;
        while i < n
            invariant
                n == self.slots().len(),
                i <= n,
                forall|j: int, k: int|
                    0 <= j < i && 0 <= k < self.slots()[j].links().len() ==> {
                        &&& (#[trigger] self.slots()[j].links()[k] as int) < j
                        &&& !(self.slots()[self.slots()[j].links()[k] as int] is ArrivalSource)
                    },
            decreases n - i,
        {
            let ok = match &self.systems[i] {
                System::ArrivalSource(a) => self.aims_lower(i, a.sink()),
                System::Server(v) => self.aims_lower(i, v.sink()),
                System::LoadBalancer(b) => {
                    let sinks = b.sinks();
                    let mut k: usize = 0;
                    let mut all = true;
                    while k < sinks.len()
                        invariant
                            i < n,
                            n == self.slots().len(),
                            self.slots()[i as int] == System::LoadBalancer(*b),
                            sinks@ == b.targets(),
                            k <= sinks@.len(),
                            all ==> forall|q: int|
                                0 <= q < k ==> {
                                    &&& (#[trigger] sinks@[q] as int) < i
                                    &&& !(self.slots()[sinks@[q] as int] is ArrivalSource)
                                },
                        decreases sinks@.len() - k,
                    {
                        if !self.aims_lower(i, sinks[k]) {
                            all = false;
                        }
                        k = k + 1;
                    }
                    all
                },
                _ => true,
            };
            if !ok {
                return false;
            }
            i = i + 1;
        }
        proof {
            let rank = Seq::new(n as nat, |j: int| j as nat);
            assert(well_linked(self.slots(), rank));
        }
        true
    }

    /// Appends `system`, tells it its handle and display name, and returns
    /// that handle: the number of entities registered before it.
    pub fn add(&mut self, system: System, name: String) -> (r: SystemRef)
        requires
            old(self).wf(),
            system.member_wf(),
            old(self).slots().len() < usize::MAX,
        ensures
            final(self).wf(),
            r == old(self).slots().len(),
            final(self).slots().len() == old(self).slots().len() + 1,
            forall|i: int| 0 <= i < r ==> final(self).slots()[i] == old(self).slots()[i],
            same_kind(final(self).slots()[r as int], system),
            final(self).slots()[r as int].links() == system.links(),
            final(self).slots()[r as int].handle() == Some(r),
            system is EndSink ==> {
                let e0 = system->EndSink_0;
                let e1 = final(self).slots()[r as int]->EndSink_0;
                &&& e1.completions() == e0.completions()
                &&& e1.ticks_name() == Some(name@ + ticks_suffix())
            },
            system is Server ==> {
                let v0 = system->Server_0;
                let v1 = final(self).slots()[r as int]->Server_0;
                &&& v1.mean_service() == v0.mean_service()
                &&& v1.sink_ref() == v0.sink_ref()
                &&& v1.backlog() == v0.backlog()
                &&& v1.accepted() == v0.accepted()
                &&& v1.durations().samples() == v0.durations().samples()
                &&& v1.durations().total() == v0.durations().total()
                &&& v1.durations().registry_name() == Some(name@ + meter_suffix())
            },
            system is ArrivalSource ==> {
                let a0 = system->ArrivalSource_0;
                let a1 = final(self).slots()[r as int]->ArrivalSource_0;
                &&& a1.mean_gap() == a0.mean_gap()
                &&& a1.sink_ref() == a0.sink_ref()
                &&& a1.gaps().samples() == a0.gaps().samples()
                &&& a1.gaps().total() == a0.gaps().total()
                &&& a1.gaps().registry_name() == Some(name@ + meter_suffix())
            },
            system is LoadBalancer ==> {
                let b0 = system->LoadBalancer_0;
                let b1 = final(self).slots()[r as int]->LoadBalancer_0;
                &&& b1.targets() == b0.targets()
                &&& b1.routed() == b0.routed()
                &&& b1.cursor() == b0.cursor()
                &&& b1.dispatches() == b0.dispatches()
                &&& b1.counter_name() == Some(name@ + counter_suffix())
            },
    {
        let sr = self.systems.len();
        let system = match system {
            System::EndSink(mut e) => {
                e.register(sr, name);
                System::EndSink(e)
            },
            System::Server(mut e) => {
                e.register(sr, name);
                System::Server(e)
            },
            System::ArrivalSource(mut e) => {
                e.register(sr, name);
                System::ArrivalSource(e)
            },
            System::LoadBalancer(mut e) => {
                e.register(sr, name);
                System::LoadBalancer(e)
            },
            System::Unset => System::Unset,
        };
        self.systems.push(system);
        sr
    }

    /// Delivers one forwarded notification to the entity at `h`, checked
    /// out of its slot while [`System::next`] runs. A malformed topology is
    /// reported, never run: a handle past the arena, a forward to an arrival
    /// source, or a forwarding cycle, which meets the placeholder of an
    /// entity already checked out.
    pub fn forward_to<S: Sampler>(&mut self, h: SystemRef, scheduler: &mut Scheduler, rng: &mut S) -> (r: Result<(), Fault>)
        requires
            slots_wf(old(self).slots()),
            old(scheduler).wf(),
        ensures
            slots_wf(final(self).slots()),
            forward_post(old(self).slots(), *old(scheduler), final(self).slots(), *final(scheduler), h, r),
        decreases 2 * live(old(self).slots()) + 1,
    {
        proof {
            assert(scheduler.events().subrange(0, scheduler.events().len() as int) =~= scheduler.events());
        }
        if h >= self.systems.len() {
            return Err(Fault::OutOfRange);
        }
        match &self.systems[h] {
            System::Unset => return Err(Fault::Placeholder),
            System::ArrivalSource(_) => return Err(Fault::Unsupported),
            _ => {},
        }
        let ghost w0 = self.slots();
        proof {
            lemma_live_checkout(w0, h as int);
        }
        let mut sys = self.take(h);
        proof {
            assert(checked_in(self.slots(), sys) =~= w0);
        }
        let r = sys.next(self, scheduler, rng);
        let ghost w2 = self.slots();
        self.put(h, sys);
        proof {
            assert(self.slots() =~= checked_in(w2, sys));
        }
        r
    }

    /// Runs the tick of the entity at `h`, checked out of its slot while
    /// [`System::tick`] runs. A handle past the arena, an entity that does
    /// not tick, or a forwarding cycle is reported, never run.
    pub fn tick_system<S: Sampler>(&mut self, h: SystemRef, scheduler: &mut Scheduler, rng: &mut S) -> (r: Result<Option<i64>, Fault>)
        requires
            slots_wf(old(self).slots()),
            old(scheduler).wf(),
        ensures
            slots_wf(final(self).slots()),
            tick_post(old(self).slots(), *old(scheduler), final(self).slots(), *final(scheduler), h, r),
    {
        proof {
            assert(scheduler.events().subrange(0, scheduler.events().len() as int) =~= scheduler.events());
        }
        if h >= self.systems.len() {
            return Err(Fault::OutOfRange);
        }
        match &self.systems[h] {
            System::Unset => return Err(Fault::Placeholder),
            System::EndSink(_) | System::LoadBalancer(_) => return Err(Fault::Unsupported),
            _ => {},
        }
        let ghost w0 = self.slots();
        let mut sys = self.take(h);
        proof {
            assert(checked_in(self.slots(), sys) =~= w0);
        }
        let r = sys.tick(scheduler, self, rng);
        let ghost w2 = self.slots();
        self.put(h, sys);
        proof {
            assert(self.slots() =~= checked_in(w2, sys));
        }
        r
    }

    /// Takes the entity at `h` out of its slot, leaving the placeholder.
    fn take(&mut self, h: SystemRef) -> (r: System)
        requires
            h < old(self).slots().len(),
        ensures
            r == old(self).slots()[h as int],
            final(self).slots() == old(self).slots().update(h as int, System::Unset),
    {
        let mut out = System::Unset;
        std::mem::swap(&mut out, &mut self.systems[h]);
        out
    }

    /// Puts `s` back into slot `h`.
    fn put(&mut self, h: SystemRef, s: System)
        requires
            h < old(self).slots().len(),
        ensures
            final(self).slots() == old(self).slots().update(h as int, s),
    {
        self.systems.set(h, s);
    }
}

/// The behaviours of an entity checked out of its slot: the slot named by
/// its own handle holds the placeholder in `world` meanwhile, so a
/// forwarding cycle back to it meets the placeholder.
impl System {
    /// Handles one forwarded notification: a sink counts it, a server
    /// accepts a job whose service duration it draws from `rng` (scheduling
    /// its own tick if it was idle), and a load balancer passes it on to its
    /// next target in round-robin order. Arrival sources take no forwards.
    pub fn next<S: Sampler>(&mut self, world: &mut World, scheduler: &mut Scheduler, rng: &mut S) -> (r: Result<(), Fault>)
        requires
            old(self).member_wf(),
            old(self).accepts_forward(),
            old(self).handle() is Some,
            (old(self).handle()->0 as int) < old(world).slots().len(),
            old(world).slots()[old(self).handle()->0 as int] is Unset,
            slots_wf(checked_in(old(world).slots(), *old(self))),
            old(scheduler).wf(),
        ensures
            final(self).handle() == old(self).handle(),
            final(world).slots().len() == old(world).slots().len(),
            final(world).slots()[old(self).handle()->0 as int] is Unset,
            slots_wf(checked_in(final(world).slots(), *final(self))),
            forward_post(
                checked_in(old(world).slots(), *old(self)),
                *old(scheduler),
                checked_in(final(world).slots(), *final(self)),
                *final(scheduler),
                old(self).handle()->0,
                r,
            ),
        decreases 2 * live(old(world).slots()) + 2,
    {
        proof {
            assert(scheduler.events().subrange(0, scheduler.events().len() as int) =~= scheduler.events());
        }
        let h = match self.getref() {
            Some(h) => h,
            None => return Err(Fault::Placeholder),
        };
        let ghost w0 = checked_in(world.slots(), *self);
        let ghost s0 = *scheduler;
        let ghost w1 = world.slots();
        proof {
            assert(w1 =~= w0.update(h as int, System::Unset));
        }
        let mut sys = System::Unset;
        std::mem::swap(&mut sys, self);
        match sys {
            System::EndSink(mut e) => {
                e.next();
                *self = System::EndSink(e);
                proof {
                    assert(world.slots()[h as int] is Unset);
                    assert(checked_in(world.slots(), *self) =~= w0.update(h as int, *self));
                }
                proof {
                    lemma_shape_update(w0, h as int, System::EndSink(e));
                    if ticks_pending(w0, s0.events()) {
                        lemma_pending_checkout(w0, s0.events(), h as int);
                        lemma_pending_restore(w1, s0.events(), scheduler.events(), h, *self, None);
                        assert(w1.update(h as int, *self) =~= w0.update(h as int, *self));
                    }
                }
                Ok(())
            },
            System::Server(mut sv) => {
                let ghost sv0 = sv;
                let d = rng.sample(sv.mean());
                let now = scheduler.get_cur_t();
                let nt = sv.accept(now, d);
                proof {
                    assert(sv.backlog().subrange(0, sv0.backlog().len() as int) =~= sv0.backlog());
                }
                match nt {
                    Some(t) => scheduler.schedule_at(t, h),
                    None => {},
                }
                *self = System::Server(sv);
                proof {
                    assert(world.slots()[h as int] is Unset);
                    assert(checked_in(world.slots(), *self) =~= w0.update(h as int, *self));
                }
                proof {
                    lemma_shape_update(w0, h as int, System::Server(sv));
                    assert(scheduler.events().subrange(0, s0.events().len() as int) =~= s0.events());
                    if ticks_pending(w0, s0.events()) {
                        lemma_pending_checkout(w0, s0.events(), h as int);
                        if nt is None {
                            assert(server_backlog(w0[h as int]).len() > 0);
                        }
                        lemma_pending_restore(w1, s0.events(), scheduler.events(), h, *self, nt);
                        assert(w1.update(h as int, *self) =~= w0.update(h as int, *self));
                    }
                }
                Ok(())
            },
            System::LoadBalancer(mut lb) => {
                let ghost lb0 = lb;
                let target = lb.route();
                let ghost w1 = world.slots();
                proof {
                    if exists|rank: Seq<nat>| forward_safe(w0, rank, h as int) {
                        let rank = choose|rank: Seq<nat>| forward_safe(w0, rank, h as int);
                        lb0.lemma_has_targets();
                        let k = (lb0.routed() % lb0.targets().len()) as int;
                        vstd::arithmetic::div_mod::lemma_mod_bound(
                            lb0.routed() as int,
                            lb0.targets().len() as int,
                        );
                        assert(w0[h as int].links()[k] == target);
                        lemma_checkout_keeps_links(w0, rank, h as int);
                        assert(forward_safe(w1, rank, target as int));
                    }
                }
                let r = world.forward_to(target, scheduler, rng);
                let ghost w2 = world.slots();
                *self = System::LoadBalancer(lb);
                proof {
                    assert(same_kind(w1[h as int], w2[h as int]));
                    lb0.lemma_has_targets();
                    assert(w0.update(h as int, System::Unset) =~= w1);
                    assert(checked_in(world.slots(), *self).update(h as int, System::Unset) =~= w2);
                }
                proof {
                    lemma_shape_restore(w0, w2, h as int, System::LoadBalancer(lb));
                    if ticks_pending(w0, s0.events()) {
                        lemma_pending_checkout(w0, s0.events(), h as int);
                        lemma_pending_restore(w2, scheduler.events(), scheduler.events(), h, *self, None);
                    }
                }
                r
            },
            System::ArrivalSource(_) | System::Unset => {
                // ruled out by the precondition: neither takes a forward
                proof {
                    assert(false);
                }
                Err(Fault::Unsupported)
            },
        }
    }


    /// Runs the entity's own tick: an arrival source draws its next gap
    /// from `rng`, forwards one arrival downstream and returns the time of
    /// its next arrival; a server completes the head of its backlog,
    /// forwards one completion downstream and returns the deadline of its
    /// next job, if any. Sinks and load balancers do not tick.
    pub fn tick<S: Sampler>(&mut self, scheduler: &mut Scheduler, world: &mut World, rng: &mut S) -> (r: Result<Option<i64>, Fault>)
        requires
            old(self).member_wf(),
            old(self).emits(),
            old(self).handle() is Some,
            (old(self).handle()->0 as int) < old(world).slots().len(),
            old(world).slots()[old(self).handle()->0 as int] is Unset,
            slots_wf(checked_in(old(world).slots(), *old(self))),
            old(scheduler).wf(),
        ensures
            final(self).handle() == old(self).handle(),
            final(world).slots().len() == old(world).slots().len(),
            final(world).slots()[old(self).handle()->0 as int] is Unset,
            slots_wf(checked_in(final(world).slots(), *final(self))),
            tick_post(
                checked_in(old(world).slots(), *old(self)),
                *old(scheduler),
                checked_in(final(world).slots(), *final(self)),
                *final(scheduler),
                old(self).handle()->0,
                r,
            ),
    {
        proof {
            assert(scheduler.events().subrange(0, scheduler.events().len() as int) =~= scheduler.events());
        }
        let h = match self.getref() {
            Some(h) => h,
            None => return Err(Fault::Placeholder),
        };
        let ghost w0 = checked_in(world.slots(), *self);
        let ghost s0 = *scheduler;
        let ghost w1 = world.slots();
        proof {
            assert(w1 =~= w0.update(h as int, System::Unset));
        }
        let mut sys = System::Unset;
        std::mem::swap(&mut sys, self);
        match sys {
            System::ArrivalSource(mut a) => {
                let gap = rng.sample(a.mean());
                let now = scheduler.get_cur_t();
                let next = a.advance(now, gap);
                let sink = a.sink();
                proof {
                    if exists|rank: Seq<nat>| tick_safe(w0, rank, h as int) {
                        let rank = choose|rank: Seq<nat>| tick_safe(w0, rank, h as int);
                        assert(w0[h as int].links()[0] == sink);
                        lemma_checkout_keeps_links(w0, rank, h as int);
                        assert(forward_safe(w1, rank, sink as int));
                    }
                }
                proof {
                    if coupled(w0, s0.events()) {
                        lemma_coupled_checkout(w0, s0.events(), h as int);
                    }
                }
                let r = world.forward_to(sink, scheduler, rng);
                let ghost w2 = world.slots();
                let ghost s2 = *scheduler;
                *self = System::ArrivalSource(a);
                proof {
                    assert(same_kind(w1[h as int], w2[h as int]));
                    assert(checked_in(world.slots(), *self).update(h as int, System::Unset) =~= w2);
                }
                proof {
                    lemma_shape_restore(w0, w2, h as int, System::ArrivalSource(a));
                    lemma_grows_checkout(w0, h as int, s0, s2);
                    tick_coupling(w0, w1, w2, s0, s2, h, System::ArrivalSource(a), if r is Ok { Some(next) } else { None });
                }
                let out = match r {
                    Ok(()) => Ok(Some(next)),
                    Err(f) => Err(f),
                };
                proof {
                    match r {
                        Ok(u) => {
                            assert(u == ());
                        },
                        Err(f) => {},
                    }
                    assert(forward_outcome(out) == r);
                    if ticks_pending(w1, s0.events()) && out is Ok {
                        assert(w0.update(h as int, System::Unset) =~= w1);
                        lemma_pending_restore(
                            w2,
                            s2.events(),
                            match out->Ok_0 {
                                Some(t) => s2.events().push(Event { t, target: h }),
                                None => s2.events(),
                            },
                            h,
                            *self,
                            out->Ok_0,
                        );
                        assert(checked_in(world.slots(), *self) =~= w2.update(h as int, *self));
                    }
                }
                out
            },
            System::Server(mut sv) => {
                let nt = sv.complete();
                let sink = sv.sink();
                proof {
                    if exists|rank: Seq<nat>| tick_safe(w0, rank, h as int) {
                        let rank = choose|rank: Seq<nat>| tick_safe(w0, rank, h as int);
                        assert(w0[h as int].links()[0] == sink);
                        lemma_checkout_keeps_links(w0, rank, h as int);
                        assert(forward_safe(w1, rank, sink as int));
                    }
                }
                proof {
                    if coupled(w0, s0.events()) {
                        lemma_coupled_checkout(w0, s0.events(), h as int);
                    }
                }
                let r = world.forward_to(sink, scheduler, rng);
                let ghost w2 = world.slots();
                let ghost s2 = *scheduler;
                *self = System::Server(sv);
                proof {
                    assert(same_kind(w1[h as int], w2[h as int]));
                    assert(checked_in(world.slots(), *self).update(h as int, System::Unset) =~= w2);
                }
                proof {
                    lemma_shape_restore(w0, w2, h as int, System::Server(sv));
                    lemma_grows_checkout(w0, h as int, s0, s2);
                    tick_coupling(w0, w1, w2, s0, s2, h, System::Server(sv), if r is Ok { nt } else { None });
                }
                let out = match r {
                    Ok(()) => Ok(nt),
                    Err(f) => Err(f),
                };
                proof {
                    match r {
                        Ok(u) => {
                            assert(u == ());
                        },
                        Err(f) => {},
                    }
                    assert(forward_outcome(out) == r);
                    if ticks_pending(w1, s0.events()) && out is Ok {
                        assert(w0.update(h as int, System::Unset) =~= w1);
                        lemma_pending_restore(
                            w2,
                            s2.events(),
                            match out->Ok_0 {
                                Some(t) => s2.events().push(Event { t, target: h }),
                                None => s2.events(),
                            },
                            h,
                            *self,
                            out->Ok_0,
                        );
                        assert(checked_in(world.slots(), *self) =~= w2.update(h as int, *self));
                    }
                }
                out
            },
            System::EndSink(_) | System::LoadBalancer(_) | System::Unset => {
                // ruled out by the precondition: none of them ticks
                proof {
                    assert(false);
                }
                Err(Fault::Unsupported)
            },
        }
    }

}

impl StatEmitter for Scheduler {
    open spec fn stats_wf(&self) -> bool {
        true
    }

    open spec fn stats_text(&self) -> Seq<char> {
        seq!['e', 'x', 'e', 'c', 'u', 't', 'e', 'd', ' '] + grouped_int(self.processed())
    }

    fn stats(&self) -> String {
        proof { reveal_strlit("executed "); }
        String::from_str("executed ").concat(self.executed.stats().as_str())
    }
}

impl HasQueue for World {
    /// The jobs outstanding in all servers, saturating at `i64::MAX`.
    open spec fn backlog_len(&self) -> int {
        clamp_i64(total_backlog(self.slots()))
    }

    fn queue_size(&self) -> i64 {
        let mut qs: i64 = 0;
        let mut i: usize = 0;
        while i < self.systems.len()
            invariant
                0 <= i <= self.slots().len(),
                qs == clamp_i64(total_backlog(self.slots().take(i as int))),
                total_backlog(self.slots().take(i as int)) >= 0,
            decreases self.slots().len() - i,
        {
            let n = self.systems[i].queue_size();
            proof {
                let t = self.slots().take(i as int + 1);
                assert(t.drop_last() =~= self.slots().take(i as int));
                assert(t.last() == self.slots()[i as int]);
            }
            qs = crate::utils::saturating_add_i64(qs, n);
            i = i + 1;
        }
        proof {
            assert(self.slots().take(i as int) =~= self.slots());
        }
        qs
    }
}

/// A pending event: the entity at `target` ticks at virtual time `t`.
#[derive(Clone, Copy, Debug, PartialEq, Eq, Structural)]
pub struct Event {
    pub t: i64,
    pub target: SystemRef,
}

/// The time-ordered event queue, the virtual clock and the metrics
/// notifications that are due.
pub struct Scheduler {
    heap: Vec<Event>,
    cur_t_ns: i64,
    executed: Counter,
    reported_cur_t_ns: Option<i64>,
    report_interval_ns: i64,
    outbox: Vec<SimulationReachedTimeEvent>,
}

impl Scheduler {
    /// The pending events, in no particular order.
    pub closed spec fn events(&self) -> Seq<Event> {
        self.heap@
    }

    /// The virtual clock.
    pub closed spec fn clock(&self) -> int {
        self.cur_t_ns as int
    }

    /// The number of events popped so far.
    pub closed spec fn processed(&self) -> int {
        self.executed.count()
    }

    /// The virtual time of the last notification, if any.
    pub closed spec fn last_report(&self) -> Option<i64> {
        self.reported_cur_t_ns
    }

    /// The least advance of virtual time between two notifications.
    pub closed spec fn report_interval(&self) -> int {
        self.report_interval_ns as int
    }

    /// The notifications emitted and not yet taken, oldest first.
    pub closed spec fn notifications(&self) -> Seq<SimulationReachedTimeEvent> {
        self.outbox@
    }

    pub closed spec fn wf(&self) -> bool {
        &&& self.executed.wf()
        &&& self.report_interval_ns >= 0
    }

    /// The processed count of a well-formed scheduler lies in
    /// `0..=i64::MAX`.
    pub proof fn lemma_range(&self)
        requires
            self.wf(),
        ensures
            0 <= self.processed() <= i64::MAX,
    {
        self.executed.lemma_range();
    }

    /// No pending event lies before the clock.
    pub open spec fn no_past_events(&self) -> bool {
        forall|i: int| 0 <= i < self.events().len() ==> #[trigger] self.events()[i].t >= self.clock()
    }

    /// A scheduler at time zero with no event, reporting every half second
    /// of virtual time.
    pub fn new() -> (r: Self)
        ensures
            r.wf(),
            r.events().len() == 0,
            r.clock() == 0,
            r.processed() == 0,
            r.last_report() is None,
            r.report_interval() == DEFAULT_REPORT_INTERVAL_NS,
            r.notifications().len() == 0,
    {
        Self::with_report_interval(DEFAULT_REPORT_INTERVAL_NS)
    }

    /// A scheduler at time zero with no event, reporting each time virtual
    /// time has advanced by `interval_ns`.
    pub fn with_report_interval(interval_ns: i64) -> (r: Self)
        requires
            interval_ns >= 0,
        ensures
            r.wf(),
            r.events().len() == 0,
            r.clock() == 0,
            r.processed() == 0,
            r.last_report() is None,
            r.report_interval() == interval_ns,
            r.notifications().len() == 0,
    {
        Scheduler {
            heap: Vec::new(),
            cur_t_ns: 0,
            executed: Counter::new(),
            reported_cur_t_ns: None,
            report_interval_ns: interval_ns,
            outbox: Vec::new(),
        }
    }

    /// Inserts an event: the entity at `emitter` ticks at time `t`.
    pub fn schedule_at(&mut self, t: i64, emitter: SystemRef)
        ensures
            final(self).events() == old(self).events().push(Event { t, target: emitter }),
            final(self).clock() == old(self).clock(),
            final(self).processed() == old(self).processed(),
            final(self).last_report() == old(self).last_report(),
            final(self).report_interval() == old(self).report_interval(),
            final(self).notifications() == old(self).notifications(),
            old(self).wf() ==> final(self).wf(),
    {
        self.heap.push(Event { t, target: emitter });
    }

    /// The virtual clock.
    pub fn get_cur_t(&self) -> (r: i64)
        ensures
            r == self.clock(),
    {
        self.cur_t_ns
    }

    /// The number of events popped so far.
    pub fn executed_count(&self) -> (r: i64)
        ensures
            r == self.processed(),
    {
        self.executed.value()
    }

    /// The number of pending events.
    pub fn pending(&self) -> (r: usize)
        ensures
            r == self.events().len(),
    {
        self.heap.len()
    }

    /// Hands over the notifications emitted so far, oldest first.
    pub fn take_notifications(&mut self) -> (r: Vec<SimulationReachedTimeEvent>)
        ensures
            r@ == old(self).notifications(),
            final(self).notifications().len() == 0,
            final(self).events() == old(self).events(),
            final(self).clock() == old(self).clock(),
            final(self).processed() == old(self).processed(),
            final(self).last_report() == old(self).last_report(),
            final(self).report_interval() == old(self).report_interval(),
            old(self).wf() ==> final(self).wf(),
    {
        let mut out = Vec::new();
        std::mem::swap(&mut out, &mut self.outbox);
        out
    }

    /// Emits a notification of the current time if one is due: always for
    /// the last event of a run, else once virtual time has advanced by the
    /// reporting interval since the last one.
    fn report_metrics(&mut self, stop: bool)
        requires
            old(self).wf(),
        ensures
            final(self).wf(),
            report_due(old(self).last_report(), old(self).clock(), old(self).report_interval(), stop) ==> {
                &&& final(self).notifications() == old(self).notifications().push(
                    SimulationReachedTimeEvent { time_ns: old(self).clock() as i64, stop },
                )
                &&& final(self).last_report() == Some(old(self).clock() as i64)
            },
            !report_due(old(self).last_report(), old(self).clock(), old(self).report_interval(), stop) ==> {
                &&& final(self).notifications() == old(self).notifications()
                &&& final(self).last_report() == old(self).last_report()
            },
            final(self).events() == old(self).events(),
            final(self).clock() == old(self).clock(),
            final(self).processed() == old(self).processed(),
            final(self).report_interval() == old(self).report_interval(),
    {
        let due = stop || match self.reported_cur_t_ns {
            None => true,
            Some(t) => self.cur_t_ns as i128 >= t as i128 + self.report_interval_ns as i128,
        };
        if due {
            self.outbox.push(SimulationReachedTimeEvent { time_ns: self.cur_t_ns, stop });
            self.reported_cur_t_ns = Some(self.cur_t_ns);
        }
    }

    /// Primes a run: runs the tick of `emitter` once, now, and schedules the
    /// time it returns, if any. The forwarding graph must be acyclic and
    /// `emitter` must tick; anything else is a malformed topology.
    pub fn schedule<S: Sampler>(&mut self, world: &mut World, emitter: SystemRef, rng: &mut S)
        requires
            old(world).wf(),
            old(self).wf(),
            acyclic(old(world).slots()),
            (emitter as int) < old(world).slots().len(),
            old(world).slots()[emitter as int].emits(),
        ensures
            final(world).wf(),
            acyclic(final(world).slots()),
            same_shape(old(world).slots(), final(world).slots()),
            final(self).wf(),
            final(self).clock() == old(self).clock(),
            final(self).processed() == old(self).processed(),
            final(self).report_interval() == old(self).report_interval(),
            final(self).notifications() == old(self).notifications(),
            exists|s1: Scheduler, v: Option<i64>| {
                &&& tick_post(old(world).slots(), *old(self), final(world).slots(), s1, emitter, Ok(v))
                &&& final(self).events() == match v {
                    Some(t) => s1.events().push(Event { t, target: emitter }),
                    None => s1.events(),
                }
            },
            targets_emitters(old(world).slots(), old(self).events()) ==> targets_emitters(
                final(world).slots(),
                final(self).events(),
            ),
            run_invariant(old(world).slots(), *old(self)) && old(world).slots()[emitter as int] is ArrivalSource
                ==> run_invariant(final(world).slots(), *final(self)),
            ticks_pending(old(world).slots(), old(self).events()) ==> ticks_pending(
                final(world).slots(),
                final(self).events(),
            ),
    {
        let ghost w0 = world.slots();
        let ghost s0 = *self;
        proof {
            let rank = choose|rank: Seq<nat>| well_linked(w0, rank);
            assert(tick_safe(w0, rank, emitter as int));
        }
        let r = world.tick_system(emitter, self, rng);
        let ghost s1 = *self;
        match r {
            Ok(Some(nt)) => self.schedule_at(nt, emitter),
            Ok(None) => {},
            Err(_) => {
                proof {
                    assert(false);
                }
            },
        }
        proof {
            let v = r->Ok_0;
            assert(tick_post(w0, s0, world.slots(), s1, emitter, Ok(v)));
            lemma_world_wf_shape(w0, world.slots());
            let rank = choose|rank: Seq<nat>| well_linked(w0, rank);
            lemma_shape_keeps_links(w0, world.slots(), rank);
            if targets_emitters(w0, s0.events()) {
                lemma_emitters_step(w0, world.slots(), s0, s1, self.events(), emitter, v);
            }
            if ticks_pending(w0, s0.events()) {
                lemma_pending_checkout(w0, s0.events(), emitter as int);
            }
            if run_invariant(w0, s0) && w0[emitter as int] is ArrivalSource {
                lemma_shape_keeps_emitters(w0, world.slots(), s0.events());
                lemma_run_invariant_step(w0, world.slots(), s0, s1, *self, emitter, r);
            }
        }
    }

    /// Pops an event of least time and advances the clock to it. At or past
    /// the horizon `up_to_nano` the run ends: the event is counted but not
    /// dispatched, and `false` is returned. Otherwise the target's tick runs,
    /// its next time, if any, is scheduled, and `true` is returned while
    /// events remain. The forwarding graph must be acyclic and every event
    /// must aim at an entity that ticks; both carry over to the next call.
    pub fn execute_next<S: Sampler>(&mut self, world: &mut World, up_to_nano: i64, rng: &mut S) -> (r: bool)
        requires
            old(world).wf(),
            old(self).wf(),
            acyclic(old(world).slots()),
            targets_emitters(old(world).slots(), old(self).events()),
        ensures
            final(world).wf(),
            acyclic(final(world).slots()),
            targets_emitters(final(world).slots(), final(self).events()),
            same_shape(old(world).slots(), final(world).slots()),
            final(self).wf(),
            final(self).report_interval() == old(self).report_interval(),
            old(self).events().len() == 0 ==> {
                &&& !r
                &&& final(world).slots() == old(world).slots()
                &&& final(self).events() == old(self).events()
                &&& final(self).clock() == old(self).clock()
                &&& final(self).processed() == old(self).processed()
                &&& final(self).notifications() == old(self).notifications()
            },
            old(self).events().len() > 0 ==> exists|m: int| {
                &&& 0 <= m < old(self).events().len()
                &&& forall|j: int| 0 <= j < old(self).events().len() ==> old(self).events()[m].t
                    <= #[trigger] old(self).events()[j].t
                &&& final(self).clock() == old(self).events()[m].t
                &&& final(self).processed() == clamp_i64(old(self).processed() + 1)
                &&& old(self).events()[m].t >= up_to_nano ==> {
                    &&& !r
                    &&& final(world).slots() == old(world).slots()
                    &&& final(self).events() == old(self).events().remove(m)
                    &&& final(self).notifications() == old(self).notifications().push(
                        SimulationReachedTimeEvent { time_ns: old(self).events()[m].t, stop: true },
                    )
                }
                &&& old(self).events()[m].t < up_to_nano ==> {
                    &&& exists|s1: Scheduler, s2: Scheduler, v: Option<i64>| {
                        &&& s1.events() == old(self).events().remove(m)
                        &&& s1.clock() == old(self).events()[m].t
                        &&& tick_post(
                            old(world).slots(),
                            s1,
                            final(world).slots(),
                            s2,
                            old(self).events()[m].target,
                            Ok(v),
                        )
                        &&& final(self).events() == match v {
                            Some(t) => s2.events().push(Event { t, target: old(self).events()[m].target }),
                            None => s2.events(),
                        }
                    }
                    &&& r == (final(self).events().len() > 0)
                    &&& ticks_pending(old(world).slots(), old(self).events()) ==> ticks_pending(
                        final(world).slots(),
                        final(self).events(),
                    )
                    &&& report_due(
                        old(self).last_report(),
                        old(self).events()[m].t as int,
                        old(self).report_interval(),
                        false,
                    ) ==> final(self).notifications() == old(self).notifications().push(
                        SimulationReachedTimeEvent { time_ns: old(self).events()[m].t, stop: false },
                    )
                    &&& !report_due(
                        old(self).last_report(),
                        old(self).events()[m].t as int,
                        old(self).report_interval(),
                        false,
                    ) ==> final(self).notifications() == old(self).notifications()
                }
            },
            step_keeps(old(world).slots(), *old(self), final(world).slots(), *final(self)),
    {
        let ghost w0 = world.slots();
        let ghost s0 = *self;
        proof {
            assert(world.slots() =~= w0);
        }
        let top = self.pop_min();
        match top {
            None => false,
            Some(top) => {
                let ghost sp = *self;
                let ghost m = choose|m: int| {
                    &&& 0 <= m < s0.events().len()
                    &&& top == s0.events()[m]
                    &&& sp.events() == s0.events().remove(m)
                    &&& forall|j: int| 0 <= j < s0.events().len() ==> s0.events()[m].t
                        <= #[trigger] s0.events()[j].t
                };
                self.executed.inc();
                self.cur_t_ns = top.t;
                proof {
                    lemma_emitters_remove(w0, s0.events(), m);
                }
                if top.t >= up_to_nano {
                    self.report_metrics(true);
                    proof {
                        lemma_pop_keeps_invariant(w0, s0, *self, m);
                    }
                    false
                } else {
                    self.report_metrics(false);
                    let ghost s1 = *self;
                    proof {
                        lemma_pop_keeps_invariant(w0, s0, s1, m);
                        let rank = choose|rank: Seq<nat>| well_linked(w0, rank);
                        assert((s0.events()[m].target as int) < w0.len() && w0[s0.events()[m].target as int].emits());
                        assert(tick_safe(w0, rank, top.target as int));
                    }
                    let r = world.tick_system(top.target, self, rng);
                    let ghost s2 = *self;
                    let out = match r {
                        Err(_) => {
                            proof {
                                assert(false);
                            }
                            false
                        },
                        Ok(Some(nt)) => {
                            self.heap.push(Event { t: nt, target: top.target });
                            true
                        },
                        Ok(None) => self.heap.len() > 0,
                    };
                    proof {
                        let v = r->Ok_0;
                        assert(tick_post(w0, s1, world.slots(), s2, top.target, Ok(v)));
                        assert(self.events() == match v {
                            Some(t) => s2.events().push(Event { t, target: top.target }),
                            None => s2.events(),
                        });
                        lemma_world_wf_shape(w0, world.slots());
                        let rank = choose|rank: Seq<nat>| well_linked(w0, rank);
                        lemma_shape_keeps_links(w0, world.slots(), rank);
                        lemma_emitters_step(w0, world.slots(), s1, s2, self.events(), top.target, v);
                        if ticks_pending(w0, s0.events()) {
                            lemma_pending_pop(w0, s0.events(), m);
                        }
                        if run_invariant(w0, s0) {
                            lemma_shape_keeps_emitters(w0, world.slots(), s1.events());
                            lemma_run_invariant_step(w0, world.slots(), s1, s2, *self, top.target, r);
                        }
                    }
                    out
                }
            },
        }
    }

    /// Removes and returns an event of least time, if any; ties are broken
    /// arbitrarily.
    fn pop_min(&mut self) -> (r: Option<Event>)
        ensures
            old(self).events().len() == 0 ==> r is None && final(self).events() == old(self).events(),
            old(self).events().len() > 0 ==> exists|m: int| {
                &&& 0 <= m < old(self).events().len()
                &&& r == Some(old(self).events()[m])
                &&& final(self).events() == old(self).events().remove(m)
                &&& forall|j: int| 0 <= j < old(self).events().len() ==> old(self).events()[m].t
                    <= #[trigger] old(self).events()[j].t
            },
            final(self).clock() == old(self).clock(),
            final(self).processed() == old(self).processed(),
            final(self).last_report() == old(self).last_report(),
            final(self).report_interval() == old(self).report_interval(),
            final(self).notifications() == old(self).notifications(),
            final(self).wf() == old(self).wf(),
    {
        let n = self.heap.len();
        if n == 0 {
            return None;
        }
        let mut best: usize = 0;
        let mut i: usize = 1;
        while i < n
            invariant
                n == self.heap@.len(),
                0 <= best < n,
                1 <= i <= n,
                forall|j: int| 0 <= j < i ==> self.heap@[best as int].t <= #[trigger] self.heap@[j].t,
            decreases n - i,
        {
            if self.heap[i].t < self.heap[best].t {
                best = i;
            }
            i = i + 1;
        }
        let e = self.heap.remove(best);
        Some(e)
    }
}

} // verus!
