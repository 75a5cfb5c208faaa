//! The entity behaviours: arrival sources, FIFO servers, load balancers and
//! sinks, and the closed variant type that holds them in the arena.

use vstd::prelude::*;
use vstd::string::StringExecFns;
use std::collections::VecDeque;
use crate::traits::{HasQueue, StatEmitter, SystemRef, WorldMember};
use crate::utils::{clamp_i64, counter_suffix, meter_suffix, ticks_suffix, grouped_int, mean_text, saturating_add_i64, tostring, Counter, Meter};

verus! {

/// A sample drawn as `u64`, read as a duration in `i64`, saturating.
pub open spec fn duration_of(d: u64) -> int {
    if d > i64::MAX as u64 { i64::MAX as int } else { d as int }
}

/// Converts a drawn duration to `i64`, saturating.
pub fn to_duration(d: u64) -> (r: i64)
    ensures
        r == duration_of(d),
        r >= 0,
{
    if d > i64::MAX as u64 { i64::MAX } else { d as i64 }
}

/// Whether the deadlines of a backlog are non-decreasing in enqueue order.
pub open spec fn sorted(s: Seq<i64>) -> bool {
    forall|i: int, j: int| 0 <= i <= j < s.len() ==> s[i] <= s[j]
}

/// Emits arrivals with random gaps and forwards each one downstream.
pub struct ArrivalSource {
    mean: u64,
    sink: SystemRef,
    meter: Meter,
    sr: Option<SystemRef>,
}

impl ArrivalSource {
    /// The mean gap between two arrivals.
    pub closed spec fn mean_gap(&self) -> u64 {
        self.mean
    }

    /// Where each arrival is forwarded.
    pub closed spec fn sink_ref(&self) -> SystemRef {
        self.sink
    }

    /// The meter of the drawn gaps.
    pub closed spec fn gaps(&self) -> Meter {
        self.meter
    }

    pub closed spec fn wf(&self) -> bool {
        self.mean > 0 && self.meter.wf()
    }

    /// The gap count of a well-formed arrival source lies in
    /// `0..=i64::MAX`.
    pub proof fn lemma_range(&self)
        requires
            self.wf(),
        ensures
            0 <= self.gaps().samples() <= i64::MAX,
    {
        self.meter.lemma_range();
    }

    /// An arrival source whose gaps have mean `mean`; a mean of zero is no
    /// valid distribution.
    pub fn new(mean: u64, sink: SystemRef) -> (r: Self)
        requires
            mean > 0,
        ensures
            r.wf(),
            r.mean_gap() == mean,
            r.sink_ref() == sink,
            r.gaps().samples() == 0,
            r.gaps().total() == 0,
            r.handle() is None,
    {
        ArrivalSource { mean, sink, meter: Meter::new(), sr: None }
    }

    /// Records the drawn `gap` and returns the time of the next arrival,
    /// `now + gap`, saturating.
    pub fn advance(&mut self, now: i64, gap: u64) -> (r: i64)
        requires
            old(self).wf(),
        ensures
            final(self).wf(),
            r == clamp_i64(now + duration_of(gap)),
            r >= now,
            final(self).gaps().samples() == clamp_i64(old(self).gaps().samples() + 1),
            final(self).gaps().total() == clamp_i64(old(self).gaps().total() + duration_of(gap)),
            final(self).mean_gap() == old(self).mean_gap(),
            final(self).sink_ref() == old(self).sink_ref(),
            final(self).handle() == old(self).handle(),
    {
        let diff = to_duration(gap);
        self.meter.inc(diff);
        saturating_add_i64(now, diff)
    }

    /// The mean gap, as a `u64`.
    pub fn mean(&self) -> (r: u64)
        ensures
            r == self.mean_gap(),
    {
        self.mean
    }

    /// The handle arrivals are forwarded to.
    pub fn sink(&self) -> (r: SystemRef)
        ensures
            r == self.sink_ref(),
    {
        self.sink
    }

    /// The meter of the drawn gaps.
    pub fn meter(&self) -> (r: &Meter)
        ensures
            *r == self.gaps(),
    {
        &self.meter
    }
}

impl ArrivalSource {
    /// Takes its handle and names its meter `name` + `_meter`.
    pub fn register(&mut self, system_ref: SystemRef, name: String)
        requires
            old(self).wf(),
        ensures
            final(self).wf(),
            final(self).handle() == Some(system_ref),
            final(self).mean_gap() == old(self).mean_gap(),
            final(self).sink_ref() == old(self).sink_ref(),
            final(self).gaps().samples() == old(self).gaps().samples(),
            final(self).gaps().total() == old(self).gaps().total(),
            final(self).gaps().registry_name() == Some(name@ + meter_suffix()),
    {
        self.meter.set_name(name);
        self.sr = Some(system_ref);
    }
}

impl WorldMember for ArrivalSource {
    open spec fn member_wf(&self) -> bool {
        self.wf()
    }

    closed spec fn handle(&self) -> Option<SystemRef> {
        self.sr
    }

    open spec fn links(&self) -> Seq<SystemRef> {
        seq![self.sink_ref()]
    }

    fn add(&mut self, system_ref: SystemRef, name: String) {
        self.register(system_ref, name);
    }

    fn getref(&self) -> Option<SystemRef> {
        self.sr
    }
}

impl StatEmitter for ArrivalSource {
    open spec fn stats_wf(&self) -> bool {
        self.wf()
    }

    open spec fn stats_text(&self) -> Seq<char> {
        seq!['a', 's', ' '] + mean_text(self.gaps().total(), self.gaps().samples())
    }

    fn stats(&self) -> String {
        proof { reveal_strlit("as "); }
        String::from_str("as ").concat(self.meter.stats().as_str())
    }
}

/// The terminal entity: counts the completions it receives.
pub struct EndSink {
    ticks: Counter,
    sr: Option<SystemRef>,
}

impl EndSink {
    /// The number of completions received.
    pub closed spec fn completions(&self) -> int {
        self.ticks.count()
    }

    pub closed spec fn wf(&self) -> bool {
        self.ticks.wf()
    }

    /// The completion count of a well-formed sink lies in `0..=i64::MAX`.
    pub proof fn lemma_range(&self)
        requires
            self.wf(),
        ensures
            0 <= self.completions() <= i64::MAX,
    {
        self.ticks.lemma_range();
    }

    pub fn new() -> (r: Self)
        ensures
            r.wf(),
            r.completions() == 0,
            r.handle() is None,
    {
        EndSink { ticks: Counter::new(), sr: None }
    }

    /// Receives one completion.
    pub fn next(&mut self)
        requires
            old(self).wf(),
        ensures
            final(self).wf(),
            final(self).completions() == clamp_i64(old(self).completions() + 1),
            final(self).handle() == old(self).handle(),
    {
        self.ticks.inc();
    }

    /// The number of completions received.
    pub fn counter(&self) -> (r: i64)
        ensures
            r == self.completions(),
    {
        self.ticks.value()
    }
}

impl EndSink {
    /// The name under which completions are mirrored into the registry.
    pub closed spec fn ticks_name(&self) -> Option<Seq<char>> {
        self.ticks.registry_name()
    }

    /// Takes its handle and names its counter `name` + `_ticks`.
    pub fn register(&mut self, system_ref: SystemRef, name: String)
        requires
            old(self).wf(),
        ensures
            final(self).wf(),
            final(self).handle() == Some(system_ref),
            final(self).completions() == old(self).completions(),
            final(self).ticks_name() == Some(name@ + ticks_suffix()),
    {
        self.ticks.set_name(name, true);
        self.sr = Some(system_ref);
    }
}

impl WorldMember for EndSink {
    open spec fn member_wf(&self) -> bool {
        self.wf()
    }

    closed spec fn handle(&self) -> Option<SystemRef> {
        self.sr
    }

    open spec fn links(&self) -> Seq<SystemRef> {
        Seq::empty()
    }

    fn add(&mut self, system_ref: SystemRef, name: String) {
        self.register(system_ref, name);
    }

    fn getref(&self) -> Option<SystemRef> {
        self.sr
    }
}

impl StatEmitter for EndSink {
    open spec fn stats_wf(&self) -> bool {
        true
    }

    open spec fn stats_text(&self) -> Seq<char> {
        seq!['p', 'r', 'o', 'c', 'e', 's', 's', 'e', 'd', ' '] + grouped_int(self.completions())
    }

    fn stats(&self) -> String {
        proof { reveal_strlit("processed "); }
        String::from_str("processed ").concat(self.ticks.stats().as_str())
    }
}

/// Spreads incoming arrivals over its downstream handles in round-robin
/// order. It has no backlog of its own.
pub struct LoadBalancer {
    sinks: Vec<SystemRef>,
    sr: Option<SystemRef>,
    counter: Counter,
    cur: usize,
    routed: Ghost<nat>,
}

impl LoadBalancer {
    /// The downstream handles, in round-robin order.
    pub closed spec fn targets(&self) -> Seq<SystemRef> {
        self.sinks@
    }

    /// The number of arrivals routed so far.
    pub closed spec fn routed(&self) -> nat {
        self.routed@
    }

    /// The position of the next target.
    pub closed spec fn cursor(&self) -> int {
        self.cur as int
    }

    /// The dispatch counter.
    pub closed spec fn dispatches(&self) -> int {
        self.counter.count()
    }

    pub closed spec fn wf(&self) -> bool {
        &&& self.sinks@.len() > 0
        &&& self.cur == self.routed@ % self.sinks@.len()
        &&& self.counter.wf()
    }

    /// A well-formed load balancer has at least one target.
    pub proof fn lemma_has_targets(&self)
        requires
            self.wf(),
        ensures
            self.targets().len() > 0,
    {
    }

    /// The dispatch count of a well-formed load balancer lies in
    /// `0..=i64::MAX`.
    pub proof fn lemma_range(&self)
        requires
            self.wf(),
        ensures
            0 <= self.dispatches() <= i64::MAX,
    {
        self.counter.lemma_range();
    }

    /// A load balancer over `sinks`, which must not be empty.
    pub fn new(sinks: Vec<SystemRef>) -> (r: Self)
        requires
            sinks@.len() > 0,
        ensures
            r.wf(),
            r.targets() == sinks@,
            r.routed() == 0,
            r.cursor() == 0,
            r.dispatches() == 0,
            r.handle() is None,
    {
        LoadBalancer { sinks, sr: None, counter: Counter::new(), cur: 0, routed: Ghost(0) }
    }

    /// Picks the target of the next arrival: call number `i` goes to
    /// `targets()[i % targets().len()]`.
    pub fn route(&mut self) -> (r: SystemRef)
        requires
            old(self).wf(),
        ensures
            final(self).wf(),
            r == old(self).targets()[(old(self).routed() % old(self).targets().len()) as int],
            final(self).routed() == old(self).routed() + 1,
            final(self).cursor() == (old(self).cursor() + 1) % old(self).targets().len() as int,
            final(self).dispatches() == clamp_i64(old(self).dispatches() + 1),
            final(self).targets() == old(self).targets(),
            final(self).handle() == old(self).handle(),
    {
        let target = self.sinks[self.cur];
        let len = self.sinks.len();
        proof {
            let n = self.routed@ as int;
            let k = len as int;
            let c = n % k;
            if c + 1 < k {
                vstd::arithmetic::div_mod::lemma_small_mod((c + 1) as nat, k as nat);
            } else {
                vstd::arithmetic::div_mod::lemma_mod_self_0(k);
            }
            assert((n + 1) % k == if c + 1 == k { 0 } else { c + 1 }) by {
                vstd::arithmetic::div_mod::lemma_add_mod_noop(n, 1, k);
                if k == 1 {
                    assert(c == 0);
                } else {
                    vstd::arithmetic::div_mod::lemma_small_mod(1, k as nat);
                }
            }
        }
        self.cur = if self.cur + 1 == len { 0 } else { self.cur + 1 };
        self.routed = Ghost(self.routed@ + 1);
        self.counter.inc();
        target
    }

    /// The downstream handles, in round-robin order.
    pub fn sinks(&self) -> (r: &Vec<SystemRef>)
        ensures
            r@ == self.targets(),
    {
        &self.sinks
    }

    /// The number of arrivals dispatched.
    pub fn count(&self) -> (r: i64)
        ensures
            r == self.dispatches(),
    {
        self.counter.value()
    }
}

impl LoadBalancer {
    /// The name under which dispatches are mirrored into the registry.
    pub closed spec fn counter_name(&self) -> Option<Seq<char>> {
        self.counter.registry_name()
    }

    /// Takes its handle and names its counter `name` + `_counter`.
    pub fn register(&mut self, system_ref: SystemRef, name: String)
        requires
            old(self).wf(),
        ensures
            final(self).wf(),
            final(self).handle() == Some(system_ref),
            final(self).targets() == old(self).targets(),
            final(self).routed() == old(self).routed(),
            final(self).cursor() == old(self).cursor(),
            final(self).dispatches() == old(self).dispatches(),
            final(self).counter_name() == Some(name@ + counter_suffix()),
    {
        self.counter.set_name(name, false);
        self.sr = Some(system_ref);
    }
}

impl WorldMember for LoadBalancer {
    open spec fn member_wf(&self) -> bool {
        self.wf()
    }

    closed spec fn handle(&self) -> Option<SystemRef> {
        self.sr
    }

    open spec fn links(&self) -> Seq<SystemRef> {
        self.targets()
    }

    fn add(&mut self, system_ref: SystemRef, name: String) {
        self.register(system_ref, name);
    }

    fn getref(&self) -> Option<SystemRef> {
        self.sr
    }
}

impl StatEmitter for LoadBalancer {
    open spec fn stats_wf(&self) -> bool {
        true
    }

    open spec fn stats_text(&self) -> Seq<char> {
        seq!['l', 'b', ' ', 'i', 'n', 'c', 'o', 'm', 'i', 'n', 'g', ' '] + grouped_int(self.dispatches())
    }

    fn stats(&self) -> String {
        proof { reveal_strlit("lb incoming "); }
        String::from_str("lb incoming ").concat(self.counter.stats().as_str())
    }
}

/// A FIFO single-server queue with an unbounded backlog of completion
/// deadlines.
pub struct Server {
    mean: u64,
    sink: SystemRef,
    queue: VecDeque<i64>,
    meter: Meter,
    counter: Counter,
    sr: Option<SystemRef>,
}

impl Server {
    /// The mean service duration.
    pub closed spec fn mean_service(&self) -> u64 {
        self.mean
    }

    /// Where each completion is forwarded.
    pub closed spec fn sink_ref(&self) -> SystemRef {
        self.sink
    }

    /// The completion deadlines of the accepted jobs, oldest first.
    pub closed spec fn backlog(&self) -> Seq<i64> {
        self.queue@
    }

    /// The meter of the drawn service durations.
    pub closed spec fn durations(&self) -> Meter {
        self.meter
    }

    /// The number of accepted jobs.
    pub closed spec fn accepted(&self) -> int {
        self.counter.count()
    }

    pub closed spec fn wf(&self) -> bool {
        &&& self.mean > 0
        &&& self.meter.wf()
        &&& self.counter.wf()
        &&& sorted(self.queue@)
    }

    /// The counts of a well-formed server lie in `0..=i64::MAX`.
    pub proof fn lemma_range(&self)
        requires
            self.wf(),
        ensures
            0 <= self.accepted() <= i64::MAX,
            0 <= self.durations().samples() <= i64::MAX,
    {
        self.counter.lemma_range();
        self.meter.lemma_range();
    }

    /// The deadlines of a well-formed server's backlog are non-decreasing.
    pub proof fn lemma_backlog_sorted(&self)
        requires
            self.wf(),
        ensures
            sorted(self.backlog()),
    {
    }

    /// A server whose service durations have mean `mean`; a mean of zero is
    /// no valid distribution.
    pub fn new(mean: u64, sink: SystemRef) -> (r: Self)
        requires
            mean > 0,
        ensures
            r.wf(),
            r.mean_service() == mean,
            r.sink_ref() == sink,
            r.backlog().len() == 0,
            r.durations().samples() == 0,
            r.durations().total() == 0,
            r.accepted() == 0,
            r.handle() is None,
    {
        Server {
            mean,
            sink,
            queue: VecDeque::new(),
            meter: Meter::new(),
            counter: Counter::new(),
            sr: None,
        }
    }

    /// Accepts one job at time `now` whose service takes `duration`. An idle
    /// server completes it at `now + duration` and returns that deadline, at
    /// which its own tick must be scheduled; a busy one completes it
    /// `duration` after the last job in its backlog and returns `None`.
    pub fn accept(&mut self, now: i64, duration: u64) -> (r: Option<i64>)
        requires
            old(self).wf(),
        ensures
            final(self).wf(),
            old(self).backlog().len() == 0 ==> {
                &&& final(self).backlog() == seq![clamp_i64(now + duration_of(duration)) as i64]
                &&& r == Some(clamp_i64(now + duration_of(duration)) as i64)
            },
            old(self).backlog().len() > 0 ==> {
                &&& final(self).backlog() == old(self).backlog().push(
                    clamp_i64(old(self).backlog().last() + duration_of(duration)) as i64,
                )
                &&& r is None
            },
            r matches Some(t) ==> t >= now,
            final(self).durations().samples() == clamp_i64(old(self).durations().samples() + 1),
            final(self).durations().total() == clamp_i64(
                old(self).durations().total() + duration_of(duration),
            ),
            final(self).accepted() == clamp_i64(old(self).accepted() + 1),
            final(self).mean_service() == old(self).mean_service(),
            final(self).sink_ref() == old(self).sink_ref(),
            final(self).handle() == old(self).handle(),
    {
        let d = to_duration(duration);
        let len = self.queue.len();
        let r = if len == 0 {
            let nt = saturating_add_i64(now, d);
            self.queue.push_back(nt);
            Some(nt)
        } else {
            let top = self.queue[len - 1];
            let nt = saturating_add_i64(top, d);
            self.queue.push_back(nt);
            None
        };
        self.meter.inc(d);
        self.counter.inc();
        r
    }

    /// Completes the job at the head of the backlog, if any, and returns the
    /// deadline of the next one, at which the server ticks again.
    pub fn complete(&mut self) -> (r: Option<i64>)
        requires
            old(self).wf(),
        ensures
            final(self).wf(),
            final(self).backlog() == if old(self).backlog().len() == 0 {
                old(self).backlog()
            } else {
                old(self).backlog().drop_first()
            },
            final(self).backlog().len() == 0 ==> r is None,
            final(self).backlog().len() > 0 ==> r == Some(final(self).backlog()[0]),
            r matches Some(t) ==> old(self).backlog().len() > 0 && t >= old(self).backlog()[0],
            final(self).durations() == old(self).durations(),
            final(self).accepted() == old(self).accepted(),
            final(self).mean_service() == old(self).mean_service(),
            final(self).sink_ref() == old(self).sink_ref(),
            final(self).handle() == old(self).handle(),
    {
        let _ = self.queue.pop_front();
        if self.queue.len() == 0 {
            None
        } else {
            Some(self.queue[0])
        }
    }

    /// The mean service duration, as a `u64`.
    pub fn mean(&self) -> (r: u64)
        ensures
            r == self.mean_service(),
    {
        self.mean
    }

    /// The handle completions are forwarded to.
    pub fn sink(&self) -> (r: SystemRef)
        ensures
            r == self.sink_ref(),
    {
        self.sink
    }

    /// The number of jobs in the backlog.
    pub fn backlog_length(&self) -> (r: usize)
        ensures
            r == self.backlog().len(),
    {
        self.queue.len()
    }

    /// The number of accepted jobs.
    pub fn count(&self) -> (r: i64)
        ensures
            r == self.accepted(),
    {
        self.counter.value()
    }

    /// The meter of the drawn service durations.
    pub fn meter(&self) -> (r: &Meter)
        ensures
            *r == self.durations(),
    {
        &self.meter
    }
}

impl HasQueue for Server {
    open spec fn backlog_len(&self) -> int {
        clamp_i64(self.backlog().len() as int)
    }

    fn queue_size(&self) -> i64 {
        let len = self.queue.len() as u64;
        if len > i64::MAX as u64 { i64::MAX } else { len as i64 }
    }
}

impl Server {
    /// Takes its handle and names its meter `name` + `_meter`.
    pub fn register(&mut self, system_ref: SystemRef, name: String)
        requires
            old(self).wf(),
        ensures
            final(self).wf(),
            final(self).handle() == Some(system_ref),
            final(self).mean_service() == old(self).mean_service(),
            final(self).sink_ref() == old(self).sink_ref(),
            final(self).backlog() == old(self).backlog(),
            final(self).accepted() == old(self).accepted(),
            final(self).durations().samples() == old(self).durations().samples(),
            final(self).durations().total() == old(self).durations().total(),
            final(self).durations().registry_name() == Some(name@ + meter_suffix()),
    {
        self.meter.set_name(name);
        self.sr = Some(system_ref);
    }
}

impl WorldMember for Server {
    open spec fn member_wf(&self) -> bool {
        self.wf()
    }

    closed spec fn handle(&self) -> Option<SystemRef> {
        self.sr
    }

    open spec fn links(&self) -> Seq<SystemRef> {
        seq![self.sink_ref()]
    }

    fn add(&mut self, system_ref: SystemRef, name: String) {
        self.register(system_ref, name);
    }

    fn getref(&self) -> Option<SystemRef> {
        self.sr
    }
}

impl StatEmitter for Server {
    open spec fn stats_wf(&self) -> bool {
        self.wf()
    }

    open spec fn stats_text(&self) -> Seq<char> {
        seq!['m', 'e', 't', 'e', 'r', ' ']
            + mean_text(self.durations().total(), self.durations().samples())
            + seq![' ', 'q', 'u', 'e', 'u', 'e', ' ']
            + grouped_int(self.backlog().len() as int)
            + seq![' ', 'c', 'o', 'u', 'n', 't', 'e', 'r', ' ']
            + grouped_int(self.accepted())
    }

    fn stats(&self) -> String {
        proof {
            reveal_strlit("meter ");
            reveal_strlit(" queue ");
            reveal_strlit(" counter ");
        }
        let text = String::from_str("meter ")
            .concat(self.meter.stats().as_str())
            .concat(" queue ")
            .concat(tostring(self.queue.len() as i128).as_str())
            .concat(" counter ")
            .concat(self.counter.stats().as_str());
        text
    }
}

/// One entity of the arena. `Unset` holds a slot while its entity is
/// checked out; it takes part in no behaviour.
pub enum System {
    Unset,
    EndSink(EndSink),
    Server(Server),
    ArrivalSource(ArrivalSource),
    LoadBalancer(LoadBalancer),
}

/// Whether two entities are of the same variant.
pub open spec fn same_kind(a: System, b: System) -> bool {
    match (a, b) {
        (System::Unset, System::Unset) => true,
        (System::EndSink(_), System::EndSink(_)) => true,
        (System::Server(_), System::Server(_)) => true,
        (System::ArrivalSource(_), System::ArrivalSource(_)) => true,
        (System::LoadBalancer(_), System::LoadBalancer(_)) => true,
        _ => false,
    }
}

impl System {
    /// Whether the entity receives forwarded notifications.
    pub open spec fn accepts_forward(&self) -> bool {
        self is EndSink || self is Server || self is LoadBalancer
    }

    /// Whether the entity ticks on its own schedule.
    pub open spec fn emits(&self) -> bool {
        self is Server || self is ArrivalSource
    }

    /// Whether this slot holds the placeholder.
    pub fn is_unset(&self) -> (r: bool)
        ensures
            r == (*self is Unset),
    {
        match self {
            System::Unset => true,
            _ => false,
        }
    }
}

impl WorldMember for System {
    open spec fn member_wf(&self) -> bool {
        match self {
            System::Unset => false,
            System::EndSink(e) => e.member_wf(),
            System::Server(e) => e.member_wf(),
            System::ArrivalSource(e) => e.member_wf(),
            System::LoadBalancer(e) => e.member_wf(),
        }
    }

    open spec fn handle(&self) -> Option<SystemRef> {
        match self {
            System::Unset => None,
            System::EndSink(e) => e.handle(),
            System::Server(e) => e.handle(),
            System::ArrivalSource(e) => e.handle(),
            System::LoadBalancer(e) => e.handle(),
        }
    }

    open spec fn links(&self) -> Seq<SystemRef> {
        match self {
            System::Unset => Seq::empty(),
            System::EndSink(e) => e.links(),
            System::Server(e) => e.links(),
            System::ArrivalSource(e) => e.links(),
            System::LoadBalancer(e) => e.links(),
        }
    }

    fn add(&mut self, system_ref: SystemRef, name: String) {
        match self {
            System::EndSink(e) => e.add(system_ref, name),
            System::Server(e) => e.add(system_ref, name),
            System::ArrivalSource(e) => e.add(system_ref, name),
            System::LoadBalancer(e) => e.add(system_ref, name),
            System::Unset => {},
        }
    }

    fn getref(&self) -> Option<SystemRef> {
        match self {
            System::EndSink(e) => e.getref(),
            System::Server(e) => e.getref(),
            System::ArrivalSource(e) => e.getref(),
            System::LoadBalancer(e) => e.getref(),
            System::Unset => None,
        }
    }
}

impl HasQueue for System {
    open spec fn backlog_len(&self) -> int {
        match self {
            System::Server(e) => e.backlog_len(),
            _ => 0,
        }
    }

    fn queue_size(&self) -> i64 {
        match self {
            System::Server(e) => e.queue_size(),
            _ => 0,
        }
    }
}

impl StatEmitter for System {
    open spec fn stats_wf(&self) -> bool {
        self.member_wf()
    }

    open spec fn stats_text(&self) -> Seq<char> {
        match self {
            System::Unset => Seq::empty(),
            System::EndSink(e) => e.stats_text(),
            System::Server(e) => e.stats_text(),
            System::ArrivalSource(e) => e.stats_text(),
            System::LoadBalancer(e) => e.stats_text(),
        }
    }

    fn stats(&self) -> String {
        match self {
            System::EndSink(e) => e.stats(),
            System::Server(e) => e.stats(),
            System::ArrivalSource(e) => e.stats(),
            System::LoadBalancer(e) => e.stats(),
            System::Unset => String::new(),
        }
    }
}

} // verus!
