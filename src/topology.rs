//! What holds of the arena and the event queue over a run: the shape of
//! the forwarding graph, the coupling between servers and their self-ticks,
//! and the laws that a run obeys.

use vstd::prelude::*;
use crate::objects::{Event, Fault, Scheduler};
use crate::systems::{same_kind, sorted, System};
use crate::traits::{SystemRef, WorldMember};
use crate::utils::clamp_i64;

verus! {

/// The number of slots that hold a real entity.
pub open spec fn live(s: Seq<System>) -> nat
    decreases s.len(),
{
    if s.len() == 0 {
        0
    } else {
        live(s.drop_last()) + if s.last() is Unset { 0nat } else { 1nat }
    }
}

/// Checking out a real entity leaves one real entity fewer.
pub(crate) proof fn lemma_live_checkout(s: Seq<System>, i: int)
    requires
        0 <= i < s.len(),
        !(s[i] is Unset),
    ensures
        live(s.update(i, System::Unset)) + 1 == live(s),
    decreases s.len(),
{
    let t = s.update(i, System::Unset);
    if i == s.len() - 1 {
        assert(t.drop_last() =~= s.drop_last());
    } else {
        assert(t.drop_last() =~= s.drop_last().update(i, System::Unset));
        lemma_live_checkout(s.drop_last(), i);
    }
}

/// Two arenas with the same entity kinds, handles and links in each slot.
pub open spec fn same_shape(a: Seq<System>, b: Seq<System>) -> bool {
    &&& a.len() == b.len()
    &&& forall|i: int|
        0 <= i < a.len() ==> {
            &&& #[trigger] same_kind(a[i], b[i])
            &&& a[i].links() == b[i].links()
            &&& a[i].handle() == b[i].handle()
        }
}

/// Every slot holds either the placeholder or a well-formed entity that
/// knows its own handle.
pub open spec fn slots_wf(s: Seq<System>) -> bool {
    forall|i: int|
        0 <= i < s.len() ==> (#[trigger] s[i] is Unset || (s[i].member_wf() && s[i].handle()
            == Some(i as SystemRef)))
}


/// `rank` orders the arena so that each link leads to an in-range entity of
/// lower rank that accepts forwarded notifications. An arena whose
/// forwarding graph has no cycle and whose links all aim at such entities
/// has one.
pub open spec fn well_linked(s: Seq<System>, rank: Seq<nat>) -> bool {
    &&& rank.len() == s.len()
    &&& forall|i: int, k: int|
        0 <= i < s.len() && 0 <= k < s[i].links().len() ==> {
            &&& (#[trigger] s[i].links()[k] as int) < s.len()
            &&& rank[s[i].links()[k] as int] < rank[i]
            &&& !(s[s[i].links()[k] as int] is ArrivalSource)
        }
}

/// The forwarding graph of the arena has no cycle and no bad aim.
pub open spec fn acyclic(s: Seq<System>) -> bool {
    exists|rank: Seq<nat>| well_linked(s, rank)
}

/// Under `rank`, every checked-out entity ranks above `h`.
pub open spec fn checked_out_above(s: Seq<System>, rank: Seq<nat>, h: int) -> bool {
    forall|j: int| 0 <= j < s.len() && #[trigger] s[j] is Unset ==> rank[j] > rank[h]
}

/// Forwarding to `h` can meet no placeholder and no unsupported role.
pub open spec fn forward_safe(s: Seq<System>, rank: Seq<nat>, h: int) -> bool {
    &&& well_linked(s, rank)
    &&& 0 <= h < s.len()
    &&& !(s[h] is ArrivalSource)
    &&& checked_out_above(s, rank, h)
}

/// Ticking `h` can meet no placeholder and no unsupported role.
pub open spec fn tick_safe(s: Seq<System>, rank: Seq<nat>, h: int) -> bool {
    &&& well_linked(s, rank)
    &&& 0 <= h < s.len()
    &&& s[h].emits()
    &&& checked_out_above(s, rank, h)
}

/// The backlog of a server, empty for any other entity.
pub open spec fn server_backlog(s: System) -> Seq<i64> {
    match s {
        System::Server(v) => v.backlog(),
        _ => Seq::empty(),
    }
}

/// Whether event `e` is the self-tick of a server of the arena.
pub open spec fn is_server_tick(s: Seq<System>, e: Event) -> bool {
    (e.target as int) < s.len() && s[e.target as int] is Server
}

/// Each server has at most one pending self-tick, and only while its
/// backlog is non-empty, at the deadline of the backlog's head.
pub open spec fn coupled(s: Seq<System>, ev: Seq<Event>) -> bool {
    &&& forall|a: int|
        0 <= a < ev.len() && is_server_tick(s, #[trigger] ev[a]) ==> {
            &&& server_backlog(s[ev[a].target as int]).len() > 0
            &&& ev[a].t == server_backlog(s[ev[a].target as int])[0]
        }
    &&& forall|a: int, b: int|
        0 <= a < ev.len() && 0 <= b < ev.len() && is_server_tick(s, #[trigger] ev[a])
            && #[trigger] ev[b].target == ev[a].target ==> a == b
}

/// Each server with a non-empty backlog has a pending self-tick.
pub open spec fn ticks_pending(s: Seq<System>, ev: Seq<Event>) -> bool {
    forall|i: int|
        0 <= i < s.len() && s[i] is Server && #[trigger] server_backlog(s[i]).len() > 0 ==> exists|a: int|
            0 <= a < ev.len() && ev[a].target == i
}

/// Checking out an entity keeps the other servers' pending self-ticks.
pub(crate) proof fn lemma_pending_checkout(s: Seq<System>, ev: Seq<Event>, h: int)
    requires
        0 <= h < s.len(),
        ticks_pending(s, ev),
    ensures
        ticks_pending(s.update(h, System::Unset), ev),
{
    let t = s.update(h, System::Unset);
    assert forall|i: int|
        0 <= i < t.len() && t[i] is Server && #[trigger] server_backlog(t[i]).len() > 0 implies exists|a: int|
            0 <= a < ev.len() && ev[a].target == i by {
        assert(t[i] == s[i]);
        assert(server_backlog(s[i]).len() > 0);
    }
}

/// Putting `x` back into the checked-out slot `h`, where the queue `ev2` is
/// `ev` plus the self-tick `next` of `h`, if any, keeps every non-idle
/// server's self-tick pending, provided a non-idle server `x` has one.
pub(crate) proof fn lemma_pending_restore(
    s: Seq<System>,
    ev: Seq<Event>,
    ev2: Seq<Event>,
    h: SystemRef,
    x: System,
    next: Option<i64>,
)
    requires
        (h as int) < s.len(),
        s[h as int] is Unset,
        ticks_pending(s, ev),
        ev2 == match next {
            Some(t) => ev.push(Event { t, target: h }),
            None => ev,
        },
        x is Server && server_backlog(x).len() > 0 ==> next is Some || exists|a: int|
            0 <= a < ev.len() && ev[a].target == h,
    ensures
        ticks_pending(s.update(h as int, x), ev2),
{
    let t = s.update(h as int, x);
    assert forall|i: int|
        0 <= i < t.len() && t[i] is Server && #[trigger] server_backlog(t[i]).len() > 0 implies exists|a: int|
            0 <= a < ev2.len() && ev2[a].target == i by {
        if i == h as int {
            if next is Some {
                assert(ev2[ev.len() as int].target == h);
            } else {
                let a = choose|a: int| 0 <= a < ev.len() && ev[a].target == h;
                assert(ev2[a] == ev[a]);
            }
        } else {
            assert(t[i] == s[i]);
            assert(server_backlog(s[i]).len() > 0);
            let a = choose|a: int| 0 <= a < ev.len() && ev[a].target == i;
            if next is Some {
                assert(ev2[a] == ev[a]);
            }
        }
    }
}

/// Popping event `m` and checking out its target keeps the other servers'
/// pending self-ticks.
pub(crate) proof fn lemma_pending_pop(s: Seq<System>, ev: Seq<Event>, m: int)
    requires
        0 <= m < ev.len(),
        (ev[m].target as int) < s.len(),
        ticks_pending(s, ev),
    ensures
        ticks_pending(s.update(ev[m].target as int, System::Unset), ev.remove(m)),
{
    let h = ev[m].target as int;
    let t = s.update(h, System::Unset);
    let e2 = ev.remove(m);
    assert forall|i: int|
        0 <= i < t.len() && t[i] is Server && #[trigger] server_backlog(t[i]).len() > 0 implies exists|a: int|
            0 <= a < e2.len() && e2[a].target == i by {
        assert(t[i] == s[i]);
        assert(server_backlog(s[i]).len() > 0);
        let a = choose|a: int| 0 <= a < ev.len() && ev[a].target == i;
        if a < m {
            assert(e2[a] == ev[a]);
        } else {
            assert(a != m);
            assert(e2[a - 1] == ev[a]);
        }
    }
}

/// Every pending event aims at an entity that ticks.
pub open spec fn targets_emitters(s: Seq<System>, ev: Seq<Event>) -> bool {
    forall|a: int|
        0 <= a < ev.len() ==> (#[trigger] ev[a].target as int) < s.len() && s[ev[a].target as int].emits()
}

/// `b` differs from `a` only by events appended to the queue, each a
/// self-tick of a server of `s` no earlier than the clock.
pub open spec fn grows_by_server_ticks(s: Seq<System>, a: Scheduler, b: Scheduler) -> bool {
    &&& a.events().len() <= b.events().len()
    &&& b.events().subrange(0, a.events().len() as int) == a.events()
    &&& forall|k: int|
        a.events().len() <= k < b.events().len() ==> {
            &&& #[trigger] b.events()[k].t >= a.clock()
            &&& is_server_tick(s, b.events()[k])
        }
    &&& b.clock() == a.clock()
    &&& b.processed() == a.processed()
    &&& b.last_report() == a.last_report()
    &&& b.report_interval() == a.report_interval()
    &&& b.notifications() == a.notifications()
}

/// Checking out the entity at `h` keeps a ranking valid, and everything
/// that `h` links to then ranks below every checked-out entity.
pub(crate) proof fn lemma_checkout_keeps_links(s: Seq<System>, rank: Seq<nat>, h: int)
    requires
        well_linked(s, rank),
        0 <= h < s.len(),
        checked_out_above(s, rank, h),
    ensures
        well_linked(s.update(h, System::Unset), rank),
        forall|k: int|
            0 <= k < s[h].links().len() ==> forward_safe(
                s.update(h, System::Unset),
                rank,
                #[trigger] s[h].links()[k] as int,
            ),
{
    let t = s.update(h, System::Unset);
    assert forall|i: int, k: int| 0 <= i < t.len() && 0 <= k < t[i].links().len() implies {
        &&& (#[trigger] t[i].links()[k] as int) < t.len()
        &&& rank[t[i].links()[k] as int] < rank[i]
        &&& !(t[t[i].links()[k] as int] is ArrivalSource)
    } by {
        assert(i != h);
        assert(t[i] == s[i]);
        assert(s[i].links()[k] == t[i].links()[k]);
    }
    assert forall|k: int| 0 <= k < s[h].links().len() implies forward_safe(
        t,
        rank,
        #[trigger] s[h].links()[k] as int,
    ) by {
        let l = s[h].links()[k] as int;
        assert(rank[l] < rank[h]);
        assert forall|j: int| 0 <= j < t.len() && #[trigger] t[j] is Unset implies rank[j] > rank[l] by {
            if j != h {
                assert(s[j] is Unset);
            }
        }
    }
}

/// Replacing the entity at `h` by one of the same kind, links and handle
/// keeps the shape.
pub(crate) proof fn lemma_shape_update(s: Seq<System>, h: int, x: System)
    requires
        0 <= h < s.len(),
        same_kind(s[h], x),
        s[h].links() == x.links(),
        s[h].handle() == x.handle(),
    ensures
        same_shape(s, s.update(h, x)),
{
    let t = s.update(h, x);
    assert forall|i: int| 0 <= i < s.len() implies {
        &&& #[trigger] same_kind(s[i], t[i])
        &&& s[i].links() == t[i].links()
        &&& s[i].handle() == t[i].handle()
    } by {
        if i != h {
            assert(t[i] == s[i]);
            match s[i] {
                System::Unset => {},
                System::EndSink(_) => {},
                System::Server(_) => {},
                System::ArrivalSource(_) => {},
                System::LoadBalancer(_) => {},
            }
        }
    }
}

/// Putting back, into slot `h` of `b`, an entity of the shape that `a` had
/// there, where `b` has the shape of `a` with `h` checked out, restores the
/// shape of `a`.
pub(crate) proof fn lemma_shape_restore(a: Seq<System>, b: Seq<System>, h: int, x: System)
    requires
        0 <= h < a.len(),
        same_shape(a.update(h, System::Unset), b),
        same_kind(a[h], x),
        a[h].links() == x.links(),
        a[h].handle() == x.handle(),
    ensures
        same_shape(a, b.update(h, x)),
{
    let m = a.update(h, System::Unset);
    let t = b.update(h, x);
    assert forall|i: int| 0 <= i < a.len() implies {
        &&& #[trigger] same_kind(a[i], t[i])
        &&& a[i].links() == t[i].links()
        &&& a[i].handle() == t[i].handle()
    } by {
        if i != h {
            assert(m[i] == a[i]);
            assert(t[i] == b[i]);
            assert(same_kind(m[i], b[i]));
        }
    }
}

/// Events aimed at servers of an arena with `h` checked out are aimed at
/// servers of the whole arena.
pub(crate) proof fn lemma_grows_checkout(s: Seq<System>, h: int, a: Scheduler, b: Scheduler)
    requires
        0 <= h < s.len(),
        grows_by_server_ticks(s.update(h, System::Unset), a, b),
    ensures
        grows_by_server_ticks(s, a, b),
{
    let t = s.update(h, System::Unset);
    assert forall|k: int| a.events().len() <= k < b.events().len() implies {
        &&& #[trigger] b.events()[k].t >= a.clock()
        &&& is_server_tick(s, b.events()[k])
    } by {
        assert(b.events()[k].t >= a.clock());
        assert(is_server_tick(t, b.events()[k]));
        assert(b.events()[k].target as int != h);
        assert(t[b.events()[k].target as int] == s[b.events()[k].target as int]);
    }
}

/// Checking out an entity keeps the coupling of the other servers.
pub(crate) proof fn lemma_coupled_checkout(s: Seq<System>, ev: Seq<Event>, h: int)
    requires
        0 <= h < s.len(),
        coupled(s, ev),
    ensures
        coupled(s.update(h, System::Unset), ev),
{
    let t = s.update(h, System::Unset);
    assert forall|a: int| 0 <= a < ev.len() && is_server_tick(t, #[trigger] ev[a]) implies {
        &&& server_backlog(t[ev[a].target as int]).len() > 0
        &&& ev[a].t == server_backlog(t[ev[a].target as int])[0]
    } by {
        assert(t[ev[a].target as int] == s[ev[a].target as int]);
        assert(is_server_tick(s, ev[a]));
    }
    assert forall|a: int, b: int|
        0 <= a < ev.len() && 0 <= b < ev.len() && is_server_tick(t, #[trigger] ev[a])
            && #[trigger] ev[b].target == ev[a].target implies a == b by {
        assert(t[ev[a].target as int] == s[ev[a].target as int]);
        assert(is_server_tick(s, ev[a]));
    }
}

/// Putting back into a checked-out slot `h` an entity whose pending
/// self-tick, if it is a server, is `next` (and there is no other event for
/// `h`) restores the coupling.
pub(crate) proof fn lemma_coupled_restore(s: Seq<System>, ev: Seq<Event>, h: SystemRef, x: System, next: Option<i64>)
    requires
        h < s.len(),
        s[h as int] is Unset,
        coupled(s, ev),
        x is Server ==> forall|a: int| 0 <= a < ev.len() ==> #[trigger] ev[a].target != h,
        x is Server && next is Some ==> {
            &&& server_backlog(x).len() > 0
            &&& next->0 == server_backlog(x)[0]
        },
    ensures
        next matches Some(t) ==> coupled(s.update(h as int, x), ev.push(Event { t, target: h })),
        next is None ==> coupled(s.update(h as int, x), ev),
{
    let t = s.update(h as int, x);
    assert forall|a: int| 0 <= a < ev.len() && is_server_tick(t, #[trigger] ev[a]) implies {
        &&& server_backlog(t[ev[a].target as int]).len() > 0
        &&& ev[a].t == server_backlog(t[ev[a].target as int])[0]
    } by {
        if ev[a].target == h {
            assert(x is Server);
        }
        assert(t[ev[a].target as int] == s[ev[a].target as int]);
        assert(is_server_tick(s, ev[a]));
    }
    assert forall|a: int, b: int|
        0 <= a < ev.len() && 0 <= b < ev.len() && is_server_tick(t, #[trigger] ev[a])
            && #[trigger] ev[b].target == ev[a].target implies a == b by {
        if ev[a].target == h {
            assert(x is Server);
        }
        assert(t[ev[a].target as int] == s[ev[a].target as int]);
        assert(is_server_tick(s, ev[a]));
    }
    if let Some(tt) = next {
        let e2 = ev.push(Event { t: tt, target: h });
        assert forall|a: int| 0 <= a < e2.len() && is_server_tick(t, #[trigger] e2[a]) implies {
            &&& server_backlog(t[e2[a].target as int]).len() > 0
            &&& e2[a].t == server_backlog(t[e2[a].target as int])[0]
        } by {
            if a < ev.len() {
                assert(e2[a] == ev[a]);
            }
        }
        assert forall|a: int, b: int|
            0 <= a < e2.len() && 0 <= b < e2.len() && is_server_tick(t, #[trigger] e2[a])
                && #[trigger] e2[b].target == e2[a].target implies a == b by {
            if a < ev.len() {
                assert(e2[a] == ev[a]);
            }
            if b < ev.len() {
                assert(e2[b] == ev[b]);
            }
            if a < ev.len() && b < ev.len() {
                assert(is_server_tick(t, ev[a]));
            } else if a < ev.len() {
                assert(is_server_tick(t, ev[a]));
                assert(ev[a].target == h);
                assert(x is Server);
            } else if b < ev.len() {
                assert(e2[a].target == h);
                assert(x is Server);
                assert(ev[b].target == h);
            }
        }
    }
}

/// After a tick of `h`, whose checkout turned `w0` into `w1` and whose
/// forwarding turned `w1` into `w2` and `s0` into `s2`, putting back `x`
/// with its next self-tick `next` keeps the coupling, provided no event was
/// pending for `h`.
pub(crate) proof fn tick_coupling(
    w0: Seq<System>,
    w1: Seq<System>,
    w2: Seq<System>,
    s0: Scheduler,
    s2: Scheduler,
    h: SystemRef,
    x: System,
    next: Option<i64>,
)
    requires
        h < w0.len(),
        w1 == w0.update(h as int, System::Unset),
        same_shape(w1, w2),
        grows_by_server_ticks(w1, s0, s2),
        coupled(w1, s0.events()) ==> coupled(w2, s2.events()),
        x is Server && next is Some ==> {
            &&& server_backlog(x).len() > 0
            &&& next->0 == server_backlog(x)[0]
        },
    ensures
        ({
            &&& coupled(w0, s0.events())
            &&& x is Server ==> forall|a: int| 0 <= a < s0.events().len() ==> #[trigger] s0.events()[a].target != h
        }) ==> {
            &&& next matches Some(t) ==> coupled(
                w2.update(h as int, x),
                s2.events().push(Event { t, target: h }),
            )
            &&& next is None ==> coupled(w2.update(h as int, x), s2.events())
        },
{
    if coupled(w0, s0.events()) && (x is Server ==> forall|a: int|
        0 <= a < s0.events().len() ==> #[trigger] s0.events()[a].target != h) {
        lemma_coupled_checkout(w0, s0.events(), h as int);
        assert(same_kind(w1[h as int], w2[h as int]));
        assert forall|a: int| x is Server && 0 <= a < s2.events().len() implies #[trigger] s2.events()[a].target != h by {
            if a < s0.events().len() {
                assert(s2.events()[a] == s2.events().subrange(0, s0.events().len() as int)[a]);
            } else {
                assert(s2.events()[a].t >= s0.clock());
                assert(is_server_tick(w1, s2.events()[a]));
            }
        }
        lemma_coupled_restore(w2, s2.events(), h, x, next);
    }
}

/// The invariant of a run: no pending event lies before the clock, every
/// event aims at an entity that ticks, and each server has at most one
/// pending self-tick, at the head of its non-empty backlog.
pub open spec fn run_invariant(s: Seq<System>, sched: Scheduler) -> bool {
    &&& sched.no_past_events()
    &&& targets_emitters(s, sched.events())
    &&& coupled(s, sched.events())
}

/// One step of a run from `(w0, s0)` to `(w1, s1)` keeps the run invariant
/// and does not move the clock back.
pub open spec fn step_keeps(w0: Seq<System>, s0: Scheduler, w1: Seq<System>, s1: Scheduler) -> bool {
    run_invariant(w0, s0) ==> {
        &&& run_invariant(w1, s1)
        &&& s1.clock() >= s0.clock()
    }
}

/// A run starts from a scheduler with no pending event, whatever the arena.
pub proof fn lemma_fresh_run(w: Seq<System>, s: Scheduler)
    requires
        s.events().len() == 0,
    ensures
        run_invariant(w, s),
{
}

/// Over a run, that is a sequence of arenas `ws` and schedulers `ss` whose
/// consecutive pairs are steps of `execute_next`, starting where the run
/// invariant holds, the virtual clock never decreases and the invariant
/// holds throughout.
pub proof fn lemma_run_clock_monotonic(ws: Seq<Seq<System>>, ss: Seq<Scheduler>, i: int, j: int)
    requires
        ws.len() == ss.len(),
        ss.len() > 0,
        run_invariant(ws[0], ss[0]),
        forall|k: int| 0 <= k < ss.len() - 1 ==> #[trigger] step_keeps(ws[k], ss[k], ws[k + 1], ss[k + 1]),
        0 <= i <= j < ss.len(),
    ensures
        ss[i].clock() <= ss[j].clock(),
        run_invariant(ws[j], ss[j]),
    decreases j,
{
    if j > 0 {
        lemma_run_clock_monotonic(ws, ss, if i < j { i } else { j - 1 }, j - 1);
        let k = j - 1;
        assert(step_keeps(ws[k], ss[k], ws[k + 1], ss[k + 1]));
        assert(k + 1 == j);
    }
}

/// Over a run whose steps keep the shape of the arena and which starts
/// from an acyclic arena where the run invariant holds, every state is
/// acyclic and every pending event aims at an entity that ticks: by the
/// contract of `execute_next`, no step of the run meets a placeholder.
pub proof fn lemma_acyclic_run(ws: Seq<Seq<System>>, ss: Seq<Scheduler>, j: int)
    requires
        ws.len() == ss.len(),
        ss.len() > 0,
        run_invariant(ws[0], ss[0]),
        acyclic(ws[0]),
        forall|k: int| 0 <= k < ss.len() - 1 ==> #[trigger] step_keeps(ws[k], ss[k], ws[k + 1], ss[k + 1]),
        forall|k: int| 0 <= k < ws.len() - 1 ==> #[trigger] same_shape(ws[k], ws[k + 1]),
        0 <= j < ss.len(),
    ensures
        acyclic(ws[j]),
        targets_emitters(ws[j], ss[j].events()),
    decreases j,
{
    lemma_run_clock_monotonic(ws, ss, j, j);
    if j > 0 {
        lemma_acyclic_run(ws, ss, j - 1);
        let k = j - 1;
        assert(same_shape(ws[k], ws[k + 1]));
        assert(k + 1 == j);
        let rank = choose|rank: Seq<nat>| well_linked(ws[k], rank);
        lemma_shape_keeps_links(ws[k], ws[j], rank);
    }
}

/// Wherever the run invariant holds, each server of the arena has at most
/// one pending self-tick, none while its backlog is empty, and the
/// deadlines in its backlog are non-decreasing in enqueue order. Where,
/// besides, every non-idle server has a pending self-tick (which each step
/// of `execute_next` that does not end the run keeps), a server has a
/// pending self-tick exactly when its backlog is non-empty.
pub proof fn lemma_server_backlog_invariant(s: Seq<System>, sched: Scheduler, i: int)
    requires
        run_invariant(s, sched),
        slots_wf(s),
        0 <= i < s.len(),
        s[i] is Server,
    ensures
        forall|a: int, b: int|
            0 <= a < sched.events().len() && 0 <= b < sched.events().len()
                && #[trigger] sched.events()[a].target == i && #[trigger] sched.events()[b].target == i
                ==> a == b,
        server_backlog(s[i]).len() == 0 ==> forall|a: int|
            0 <= a < sched.events().len() ==> #[trigger] sched.events()[a].target != i,
        sorted(server_backlog(s[i])),
        ticks_pending(s, sched.events()) ==> (server_backlog(s[i]).len() > 0 <==> exists|a: int|
            0 <= a < sched.events().len() && sched.events()[a].target == i),
{
    let ev = sched.events();
    assert forall|a: int, b: int|
        0 <= a < ev.len() && 0 <= b < ev.len() && #[trigger] ev[a].target == i && #[trigger] ev[b].target
            == i implies a == b by {
        assert(is_server_tick(s, ev[a]));
    }
    assert forall|a: int| 0 <= a < ev.len() && server_backlog(s[i]).len() == 0 implies #[trigger] ev[a].target
        != i by {
        if ev[a].target == i {
            assert(is_server_tick(s, ev[a]));
        }
    }
    assert(!(s[i] is Unset));
    if let System::Server(v) = s[i] {
        v.lemma_backlog_sorted();
    }
}

/// Arenas of one shape have the same rankings.
pub(crate) proof fn lemma_shape_keeps_links(a: Seq<System>, b: Seq<System>, rank: Seq<nat>)
    requires
        same_shape(a, b),
        well_linked(a, rank),
    ensures
        well_linked(b, rank),
{
    assert forall|i: int, k: int| 0 <= i < b.len() && 0 <= k < b[i].links().len() implies {
        &&& (#[trigger] b[i].links()[k] as int) < b.len()
        &&& rank[b[i].links()[k] as int] < rank[i]
        &&& !(b[b[i].links()[k] as int] is ArrivalSource)
    } by {
        assert(same_kind(a[i], b[i]));
        assert(a[i].links()[k] == b[i].links()[k]);
        let l = a[i].links()[k] as int;
        assert(same_kind(a[l], b[l]));
    }
}

/// Removing a pending event keeps every remaining one aimed at an entity
/// that ticks.
pub(crate) proof fn lemma_emitters_remove(s: Seq<System>, ev: Seq<Event>, m: int)
    requires
        0 <= m < ev.len(),
        targets_emitters(s, ev),
    ensures
        targets_emitters(s, ev.remove(m)),
{
    let e2 = ev.remove(m);
    assert forall|i: int| 0 <= i < e2.len() implies (#[trigger] e2[i].target as int) < s.len()
        && s[e2[i].target as int].emits() by {
        if i < m {
            assert(e2[i] == ev[i]);
        } else {
            assert(e2[i] == ev[i + 1]);
        }
    }
}

/// A tick of the emitter `h` followed by the scheduling of the time it
/// returned keeps every pending event aimed at an entity that ticks.
pub(crate) proof fn lemma_emitters_step(
    w0: Seq<System>,
    w1: Seq<System>,
    s1: Scheduler,
    s2: Scheduler,
    ev: Seq<Event>,
    h: SystemRef,
    v: Option<i64>,
)
    requires
        same_shape(w0, w1),
        targets_emitters(w0, s1.events()),
        grows_by_server_ticks(w0, s1, s2),
        (h as int) < w0.len(),
        w0[h as int].emits(),
        ev == match v {
            Some(t) => s2.events().push(Event { t, target: h }),
            None => s2.events(),
        },
    ensures
        targets_emitters(w1, ev),
{
    let e1 = s1.events();
    let e2 = s2.events();
    assert forall|j: int| 0 <= j < ev.len() implies (#[trigger] ev[j].target as int) < w1.len()
        && w1[ev[j].target as int].emits() by {
        if j < e1.len() {
            assert(e2.subrange(0, e1.len() as int)[j] == e1[j]);
            assert(ev[j] == e1[j]);
            assert(same_kind(w0[ev[j].target as int], w1[ev[j].target as int]));
        } else if j < e2.len() {
            assert(ev[j] == e2[j]);
            assert(e2[j].t >= s1.clock());
            assert(is_server_tick(w0, e2[j]));
            assert(same_kind(w0[e2[j].target as int], w1[e2[j].target as int]));
        } else {
            assert(same_kind(w0[h as int], w1[h as int]));
        }
    }
}

/// Arenas of one shape accept the same event targets.
pub(crate) proof fn lemma_shape_keeps_emitters(a: Seq<System>, b: Seq<System>, ev: Seq<Event>)
    requires
        same_shape(a, b),
        targets_emitters(a, ev),
    ensures
        targets_emitters(b, ev),
{
    assert forall|i: int| 0 <= i < ev.len() implies (#[trigger] ev[i].target as int) < b.len()
        && b[ev[i].target as int].emits() by {
        assert(same_kind(a[ev[i].target as int], b[ev[i].target as int]));
    }
}

/// Arenas of one shape are well formed together.
pub(crate) proof fn lemma_world_wf_shape(a: Seq<System>, b: Seq<System>)
    requires
        same_shape(a, b),
        slots_wf(b),
        forall|i: int| 0 <= i < a.len() ==> !(#[trigger] a[i] is Unset),
    ensures
        forall|i: int| 0 <= i < b.len() ==> !(#[trigger] b[i] is Unset),
{
    assert forall|i: int| 0 <= i < b.len() implies !(#[trigger] b[i] is Unset) by {
        assert(same_kind(a[i], b[i]));
        assert(!(a[i] is Unset));
    }
}

/// Popping an event of least time, moving the clock to it and counting or
/// reporting it keeps the invariant, and the popped event was the only one
/// for its target if that is a server.
pub(crate) proof fn lemma_pop_keeps_invariant(s: Seq<System>, a: Scheduler, b: Scheduler, m: int)
    requires
        0 <= m < a.events().len(),
        b.events() == a.events().remove(m),
        b.clock() == a.events()[m].t,
        forall|j: int| 0 <= j < a.events().len() ==> a.events()[m].t <= #[trigger] a.events()[j].t,
    ensures
        run_invariant(s, a) ==> {
            &&& run_invariant(s, b)
            &&& b.clock() >= a.clock()
            &&& s[a.events()[m].target as int] is Server ==> {
                &&& forall|j: int| 0 <= j < b.events().len() ==> #[trigger] b.events()[j].target
                    != a.events()[m].target
                &&& server_backlog(s[a.events()[m].target as int]).len() > 0
                &&& b.clock() == server_backlog(s[a.events()[m].target as int])[0]
            }
        },
{
    let ev = a.events();
    let ev2 = b.events();
    if run_invariant(s, a) {
        assert forall|j: int| 0 <= j < ev2.len() implies #[trigger] ev2[j].t >= b.clock() by {
            if j < m {
                assert(ev2[j] == ev[j]);
            } else {
                assert(ev2[j] == ev[j + 1]);
            }
        }
        assert forall|j: int| 0 <= j < ev2.len() implies (#[trigger] ev2[j].target as int) < s.len()
            && s[ev2[j].target as int].emits() by {
            if j < m {
                assert(ev2[j] == ev[j]);
            } else {
                assert(ev2[j] == ev[j + 1]);
            }
        }
        assert forall|x: int| 0 <= x < ev2.len() && is_server_tick(s, #[trigger] ev2[x]) implies {
            &&& server_backlog(s[ev2[x].target as int]).len() > 0
            &&& ev2[x].t == server_backlog(s[ev2[x].target as int])[0]
        } by {
            if x < m {
                assert(ev2[x] == ev[x]);
            } else {
                assert(ev2[x] == ev[x + 1]);
            }
        }
        assert forall|x: int, y: int|
            0 <= x < ev2.len() && 0 <= y < ev2.len() && is_server_tick(s, #[trigger] ev2[x])
                && #[trigger] ev2[y].target == ev2[x].target implies x == y by {
            let x0 = if x < m { x } else { x + 1 };
            let y0 = if y < m { y } else { y + 1 };
            assert(ev2[x] == ev[x0]);
            assert(ev2[y] == ev[y0]);
            assert(is_server_tick(s, ev[x0]));
            assert(ev[y0].target == ev[x0].target);
        }
        if s[ev[m].target as int] is Server {
            assert(is_server_tick(s, ev[m]));
            assert forall|j: int| 0 <= j < ev2.len() implies #[trigger] ev2[j].target != ev[m].target by {
                let j0 = if j < m { j } else { j + 1 };
                assert(ev2[j] == ev[j0]);
                if ev[j0].target == ev[m].target {
                    assert(is_server_tick(s, ev[j0]));
                }
            }
        }
        assert(ev[m].t >= a.clock());
    }
}

/// One tick of `h` followed by the scheduling of the time it returned keeps
/// the invariant.
pub(crate) proof fn lemma_run_invariant_step(
    w0: Seq<System>,
    w1: Seq<System>,
    s1: Scheduler,
    s2: Scheduler,
    s3: Scheduler,
    h: SystemRef,
    r: Result<Option<i64>, Fault>,
)
    requires
        same_shape(w0, w1),
        run_invariant(w0, s1),
        targets_emitters(w1, s1.events()),
        (h as int) < w0.len(),
        w0[h as int].emits(),
        w0[h as int] is Server ==> {
            &&& forall|a: int| 0 <= a < s1.events().len() ==> #[trigger] s1.events()[a].target != h
            &&& server_backlog(w0[h as int]).len() > 0
            &&& s1.clock() == server_backlog(w0[h as int])[0]
        },
        grows_by_server_ticks(w0, s1, s2),
        r matches Ok(Some(t)) ==> t >= s1.clock() || {
            &&& w0[h as int] is Server
            &&& server_backlog(w0[h as int]).len() > 0
            &&& t >= server_backlog(w0[h as int])[0]
        },
        ({
            &&& coupled(w0, s1.events())
            &&& w0[h as int] is Server ==> forall|a: int|
                0 <= a < s1.events().len() ==> #[trigger] s1.events()[a].target != h
        }) ==> match r {
            Ok(Some(t)) => coupled(w1, s2.events().push(Event { t, target: h })),
            _ => coupled(w1, s2.events()),
        },
        s3.clock() == s1.clock(),
        r matches Ok(Some(t)) ==> s3.events() == s2.events().push(Event { t, target: h }),
        !(r matches Ok(Some(_))) ==> s3.events() == s2.events(),
    ensures
        run_invariant(w1, s3),
{
    let e1 = s1.events();
    let e2 = s2.events();
    let e3 = s3.events();
    match r {
        Ok(Some(t)) => {
            assert(coupled(w1, e3));
        },
        _ => {
            assert(coupled(w1, e3));
        },
    }
    assert forall|j: int| 0 <= j < e3.len() implies #[trigger] e3[j].t >= s3.clock()
        && (e3[j].target as int) < w1.len() && w1[e3[j].target as int].emits() by {
        lemma_step_event(w0, w1, s1, s2, s3, h, r, j);
    }
    assert(s3.no_past_events());
    assert forall|j: int| 0 <= j < e3.len() implies (#[trigger] e3[j].target as int) < w1.len()
        && w1[e3[j].target as int].emits() by {
        lemma_step_event(w0, w1, s1, s2, s3, h, r, j);
    }
}

/// Event `j` after one step of a run lies no earlier than the clock and
/// aims at an entity that ticks.
pub(crate) proof fn lemma_step_event(
    w0: Seq<System>,
    w1: Seq<System>,
    s1: Scheduler,
    s2: Scheduler,
    s3: Scheduler,
    h: SystemRef,
    r: Result<Option<i64>, Fault>,
    j: int,
)
    requires
        same_shape(w0, w1),
        run_invariant(w0, s1),
        targets_emitters(w1, s1.events()),
        (h as int) < w0.len(),
        w0[h as int].emits(),
        w0[h as int] is Server ==> {
            &&& server_backlog(w0[h as int]).len() > 0
            &&& s1.clock() == server_backlog(w0[h as int])[0]
        },
        grows_by_server_ticks(w0, s1, s2),
        r matches Ok(Some(t)) ==> t >= s1.clock() || {
            &&& w0[h as int] is Server
            &&& server_backlog(w0[h as int]).len() > 0
            &&& t >= server_backlog(w0[h as int])[0]
        },
        s3.clock() == s1.clock(),
        r matches Ok(Some(t)) ==> s3.events() == s2.events().push(Event { t, target: h }),
        !(r matches Ok(Some(_))) ==> s3.events() == s2.events(),
        0 <= j < s3.events().len(),
    ensures
        s3.events()[j].t >= s3.clock(),
        (s3.events()[j].target as int) < w1.len(),
        w1[s3.events()[j].target as int].emits(),
{
    let e1 = s1.events();
    let e2 = s2.events();
    let e3 = s3.events();
    if j < e1.len() {
        assert(e2.subrange(0, e1.len() as int)[j] == e1[j]);
        assert(e3[j] == e1[j]);
    } else if j < e2.len() {
        assert(e3[j] == e2[j]);
        assert(e2[j].t >= s1.clock());
        assert(is_server_tick(w0, e2[j]));
        assert(same_kind(w0[e2[j].target as int], w1[e2[j].target as int]));
    } else {
        assert(same_kind(w0[h as int], w1[h as int]));
    }
}

/// The number of jobs in the backlogs of all servers.
pub open spec fn total_backlog(s: Seq<System>) -> int
    decreases s.len(),
{
    if s.len() == 0 {
        0
    } else {
        total_backlog(s.drop_last()) + server_backlog(s.last()).len()
    }
}

/// The arena `w` with the checked-out entity `s` back in its own slot.
pub open spec fn checked_in(w: Seq<System>, s: System) -> Seq<System> {
    w.update(s.handle()->0 as int, s)
}

/// What delivering one forwarded notification to `h` does, taking arena
/// `w0` and scheduler `s0` to `w1` and `s1` with outcome `r`. A sink counts
/// it; a server queues one job, whose deadline it schedules as its own tick
/// when it was idle; a load balancer routes it to its next target; the rest
/// of the arena changes only by what forwarding on does, and the queue only
/// gains server self-ticks. An acyclic, well-aimed arena never fails.
pub open spec fn forward_post(
    w0: Seq<System>,
    s0: Scheduler,
    w1: Seq<System>,
    s1: Scheduler,
    h: SystemRef,
    r: Result<(), Fault>,
) -> bool
    decreases live(w0),
    via forward_post_decreases
{
    &&& same_shape(w0, w1)
    &&& s1.wf()
    &&& grows_by_server_ticks(w0, s0, s1)
    &&& coupled(w0, s0.events()) ==> coupled(w1, s1.events())
    &&& ticks_pending(w0, s0.events()) ==> ticks_pending(w1, s1.events())
    &&& (exists|rank: Seq<nat>| forward_safe(w0, rank, h as int)) ==> r is Ok
    &&& (h as int) >= w0.len() ==> {
        &&& r == Err::<(), Fault>(Fault::OutOfRange)
        &&& w1 == w0
        &&& s1.events() == s0.events()
    }
    &&& (h as int) < w0.len() && (w0[h as int] is Unset || w0[h as int] is ArrivalSource) ==> {
        &&& r == Err::<(), Fault>(
            if w0[h as int] is Unset {
                Fault::Placeholder
            } else {
                Fault::Unsupported
            },
        )
        &&& w1 == w0
        &&& s1.events() == s0.events()
    }
    &&& (h as int) < w0.len() && w0[h as int] is EndSink ==> {
        &&& r is Ok
        &&& w1 == w0.update(h as int, w1[h as int])
        &&& w1[h as int] is EndSink
        &&& w1[h as int]->EndSink_0.completions() == clamp_i64(
            w0[h as int]->EndSink_0.completions() + 1,
        )
        &&& s1.events() == s0.events()
    }
    &&& (h as int) < w0.len() && w0[h as int] is Server ==> {
        let v0 = w0[h as int]->Server_0;
        let v1 = w1[h as int]->Server_0;
        &&& r is Ok
        &&& w1 == w0.update(h as int, w1[h as int])
        &&& w1[h as int] is Server
        &&& v1.accepted() == clamp_i64(v0.accepted() + 1)
        &&& v1.backlog().len() == v0.backlog().len() + 1
        &&& v1.backlog().subrange(0, v0.backlog().len() as int) == v0.backlog()
        &&& v0.backlog().len() == 0 ==> {
            &&& v1.backlog()[0] >= s0.clock()
            &&& s1.events() == s0.events().push(Event { t: v1.backlog()[0], target: h })
        }
        &&& v0.backlog().len() > 0 ==> {
            &&& v1.backlog().last() >= v0.backlog().last()
            &&& s1.events() == s0.events()
        }
    }
    &&& (h as int) < w0.len() && w0[h as int] is LoadBalancer ==> {
        let b0 = w0[h as int]->LoadBalancer_0;
        let b1 = w1[h as int]->LoadBalancer_0;
        &&& w1[h as int] is LoadBalancer
        &&& b1.targets() == b0.targets()
        &&& b1.routed() == b0.routed() + 1
        &&& b1.dispatches() == clamp_i64(b0.dispatches() + 1)
        &&& b0.targets().len() > 0 ==> forward_post(
            w0.update(h as int, System::Unset),
            s0,
            w1.update(h as int, System::Unset),
            s1,
            b0.targets()[(b0.routed() % b0.targets().len()) as int],
            r,
        )
    }
}

#[via_fn]
proof fn forward_post_decreases(
    w0: Seq<System>,
    s0: Scheduler,
    w1: Seq<System>,
    s1: Scheduler,
    h: SystemRef,
    r: Result<(), Fault>,
) {
    if (h as int) < w0.len() && w0[h as int] is LoadBalancer {
        lemma_live_checkout(w0, h as int);
    }
}

/// The outcome of a tick as the outcome of the forward it made.
pub open spec fn forward_outcome(r: Result<Option<i64>, Fault>) -> Result<(), Fault> {
    match r {
        Ok(_) => Ok(()),
        Err(f) => Err(f),
    }
}

/// What the tick of `h` does, taking arena `w0` and scheduler `s0` to `w1`
/// and `s1` with outcome `r`, the time of the next tick of `h` if any. An
/// arrival source records one gap and returns a time no earlier than the
/// clock; a server completes the head of its backlog and returns the
/// deadline of the next job; sinks and load balancers do not tick. The
/// rest of the arena changes only by what forwarding on does, and the queue
/// only gains server self-ticks. An acyclic, well-aimed arena never fails.
pub open spec fn tick_post(
    w0: Seq<System>,
    s0: Scheduler,
    w1: Seq<System>,
    s1: Scheduler,
    h: SystemRef,
    r: Result<Option<i64>, Fault>,
) -> bool {
    &&& same_shape(w0, w1)
    &&& s1.wf()
    &&& grows_by_server_ticks(w0, s0, s1)
    &&& r matches Ok(Some(t)) ==> t >= s0.clock() || {
        &&& w0[h as int] is Server
        &&& server_backlog(w0[h as int]).len() > 0
        &&& t >= server_backlog(w0[h as int])[0]
    }
    &&& (h as int) < w0.len() && w0[h as int] is ArrivalSource && r is Ok ==> r->Ok_0 is Some
    &&& ({
        &&& coupled(w0, s0.events())
        &&& (h as int) < w0.len() && w0[h as int] is Server ==> forall|a: int|
            0 <= a < s0.events().len() ==> #[trigger] s0.events()[a].target != h
    }) ==> match r {
        Ok(Some(t)) => coupled(w1, s1.events().push(Event { t, target: h })),
        _ => coupled(w1, s1.events()),
    }
    &&& (h as int) < w0.len() && ticks_pending(w0.update(h as int, System::Unset), s0.events()) ==> match r {
        Ok(Some(t)) => ticks_pending(w1, s1.events().push(Event { t, target: h })),
        Ok(None) => ticks_pending(w1, s1.events()),
        Err(_) => true,
    }
    &&& (exists|rank: Seq<nat>| tick_safe(w0, rank, h as int)) ==> r is Ok
    &&& (h as int) >= w0.len() ==> {
        &&& r == Err::<Option<i64>, Fault>(Fault::OutOfRange)
        &&& w1 == w0
        &&& s1.events() == s0.events()
    }
    &&& (h as int) < w0.len() && !w0[h as int].emits() ==> {
        &&& r == Err::<Option<i64>, Fault>(
            if w0[h as int] is Unset {
                Fault::Placeholder
            } else {
                Fault::Unsupported
            },
        )
        &&& w1 == w0
        &&& s1.events() == s0.events()
    }
    &&& (h as int) < w0.len() && w0[h as int] is ArrivalSource ==> {
        let a0 = w0[h as int]->ArrivalSource_0;
        let a1 = w1[h as int]->ArrivalSource_0;
        &&& w1[h as int] is ArrivalSource
        &&& a1.gaps().samples() == clamp_i64(a0.gaps().samples() + 1)
        &&& a1.sink_ref() == a0.sink_ref()
        &&& r matches Ok(Some(t)) ==> t >= s0.clock()
        &&& forward_post(
            w0.update(h as int, System::Unset),
            s0,
            w1.update(h as int, System::Unset),
            s1,
            a0.sink_ref(),
            forward_outcome(r),
        )
    }
    &&& (h as int) < w0.len() && w0[h as int] is Server ==> {
        let v0 = w0[h as int]->Server_0;
        let v1 = w1[h as int]->Server_0;
        &&& w1[h as int] is Server
        &&& v1.backlog() == if v0.backlog().len() == 0 {
            v0.backlog()
        } else {
            v0.backlog().drop_first()
        }
        &&& v1.accepted() == v0.accepted()
        &&& r is Ok ==> r->Ok_0 == if v1.backlog().len() == 0 {
            None::<i64>
        } else {
            Some(v1.backlog()[0])
        }
        &&& forward_post(
            w0.update(h as int, System::Unset),
            s0,
            w1.update(h as int, System::Unset),
            s1,
            v0.sink_ref(),
            forward_outcome(r),
        )
    }
}

} // verus!
