use eventsim::objects::{Fault, Scheduler, World};
use eventsim::reporter::SimulationReachedTimeEvent;
use eventsim::systems::{ArrivalSource, EndSink, LoadBalancer, Server, System};
use eventsim::traits::{HasQueue, Sampler, StatEmitter};

/// Draws every duration as exactly its mean.
struct AtMean;

impl Sampler for AtMean {
    fn sample(&mut self, mean: u64) -> u64 {
        mean
    }
}

/// Draws durations from a fixed list, in turn.
struct Script {
    values: Vec<u64>,
    next: usize,
}

impl Sampler for Script {
    fn sample(&mut self, _mean: u64) -> u64 {
        let v = self.values[self.next % self.values.len()];
        self.next += 1;
        v
    }
}

fn end_sink_count(world: &World, h: usize) -> i64 {
    match world.system(h) {
        System::EndSink(e) => e.counter(),
        _ => panic!("not a sink"),
    }
}

fn server(world: &World, h: usize) -> &Server {
    match world.system(h) {
        System::Server(s) => s,
        _ => panic!("not a server"),
    }
}

fn arrivals(world: &World, h: usize) -> i64 {
    match world.system(h) {
        System::ArrivalSource(a) => a.meter().sample_count(),
        _ => panic!("not an arrival source"),
    }
}

fn run(scheduler: &mut Scheduler, world: &mut World, horizon: i64, rng: &mut impl Sampler) {
    let mut last = scheduler.get_cur_t();
    while scheduler.execute_next(world, horizon, rng) {
        assert!(scheduler.get_cur_t() >= last);
        last = scheduler.get_cur_t();
    }
    assert!(scheduler.get_cur_t() >= last);
}

#[test]
fn registration_assigns_handles_in_order() {
    let mut world = World::new();
    let a = world.add(System::EndSink(EndSink::new()), "a".to_string());
    let b = world.add(System::Server(Server::new(3, a)), "b".to_string());
    let c = world.add(System::LoadBalancer(LoadBalancer::new(vec![b])), "c".to_string());
    assert_eq!((a, b, c), (0, 1, 2));
    assert!(world.links_aim_lower());
    assert_eq!(world.len(), 3);
}

#[test]
fn conservation_without_server() {
    let mut world = World::new();
    let sink = world.add(System::EndSink(EndSink::new()), "endsink".to_string());
    let source = world.add(System::ArrivalSource(ArrivalSource::new(10, sink)), "incoming".to_string());
    let mut scheduler = Scheduler::new();
    let mut rng = AtMean;
    scheduler.schedule(&mut world, source, &mut rng);
    run(&mut scheduler, &mut world, 95, &mut rng);
    // ticks at 0 (bootstrap), 10, ..., 90; the event at 100 passes the horizon
    assert_eq!(arrivals(&world, source), 10);
    assert_eq!(end_sink_count(&world, sink), 10);
    assert_eq!(scheduler.get_cur_t(), 100);
}

#[test]
fn conservation_with_random_gaps() {
    let mut world = World::new();
    let sink = world.add(System::EndSink(EndSink::new()), "endsink".to_string());
    let source = world.add(System::ArrivalSource(ArrivalSource::new(10, sink)), "incoming".to_string());
    let mut scheduler = Scheduler::new();
    let mut rng = Script { values: vec![3, 0, 17, 1, 9], next: 0 };
    scheduler.schedule(&mut world, source, &mut rng);
    run(&mut scheduler, &mut world, 1000, &mut rng);
    assert_eq!(end_sink_count(&world, sink), arrivals(&world, source));
}

#[test]
fn queue_drains_through_server() {
    let mut world = World::new();
    let sink = world.add(System::EndSink(EndSink::new()), "endsink".to_string());
    let srv = world.add(System::Server(Server::new(3, sink)), "server".to_string());
    let source = world.add(System::ArrivalSource(ArrivalSource::new(10, srv)), "incoming".to_string());
    let mut scheduler = Scheduler::new();
    let mut rng = AtMean;
    scheduler.schedule(&mut world, source, &mut rng);
    run(&mut scheduler, &mut world, 100, &mut rng);
    // arrivals at 0, 10, ..., 90 each complete 3 later, before the horizon
    assert_eq!(server(&world, srv).backlog_length(), 0);
    assert_eq!(server(&world, srv).count(), 10);
    assert_eq!(end_sink_count(&world, sink), server(&world, srv).count());
    assert_eq!(world.queue_size(), 0);
}

#[test]
fn backlog_builds_and_drains() {
    let mut world = World::new();
    let sink = world.add(System::EndSink(EndSink::new()), "endsink".to_string());
    let srv = world.add(System::Server(Server::new(1, sink)), "server".to_string());
    let source = world.add(System::ArrivalSource(ArrivalSource::new(1, srv)), "incoming".to_string());
    let mut scheduler = Scheduler::new();
    // gaps and services alternate: gaps 1, 1, 1, 50 and services 20 each
    let mut rng = Script { values: vec![1, 20, 1, 20, 1, 20, 50, 20], next: 0 };
    scheduler.schedule(&mut world, source, &mut rng);
    scheduler.execute_next(&mut world, 1_000, &mut rng);
    scheduler.execute_next(&mut world, 1_000, &mut rng);
    assert_eq!(server(&world, srv).backlog_length(), 3);
    assert_eq!(world.queue_size(), 3);
    // at most one pending tick for the server while its backlog is full
    assert_eq!(scheduler.pending(), 2);
    run(&mut scheduler, &mut world, 53, &mut rng);
    // four jobs, due at 20, 40, 60 and 80; the arrival at 53 ends the run
    assert_eq!(server(&world, srv).count(), 4);
    assert_eq!(end_sink_count(&world, sink), 2);
    assert_eq!(server(&world, srv).backlog_length(), 2);
    assert_eq!(scheduler.get_cur_t(), 53);
}

#[test]
fn horizon_event_is_popped_but_not_dispatched() {
    let mut world = World::new();
    let sink = world.add(System::EndSink(EndSink::new()), "endsink".to_string());
    let source = world.add(System::ArrivalSource(ArrivalSource::new(10, sink)), "incoming".to_string());
    let mut scheduler = Scheduler::new();
    let mut rng = AtMean;
    scheduler.schedule(&mut world, source, &mut rng);
    assert!(scheduler.execute_next(&mut world, 30, &mut rng));
    assert!(scheduler.execute_next(&mut world, 30, &mut rng));
    assert_eq!(end_sink_count(&world, sink), 3);
    // the event at exactly 30 ends the run
    assert!(!scheduler.execute_next(&mut world, 30, &mut rng));
    assert_eq!(scheduler.get_cur_t(), 30);
    assert_eq!(scheduler.executed_count(), 3);
    assert_eq!(end_sink_count(&world, sink), 3);
    assert_eq!(arrivals(&world, source), 3);
    assert_eq!(scheduler.pending(), 0);
    assert_eq!(scheduler.stats(), "executed 3");
}

#[test]
fn empty_queue_ends_the_run() {
    let mut world = World::new();
    let mut scheduler = Scheduler::new();
    assert!(!scheduler.execute_next(&mut world, 10, &mut AtMean));
    assert_eq!(scheduler.executed_count(), 0);
    assert_eq!(scheduler.get_cur_t(), 0);
}

#[test]
fn clock_never_goes_back() {
    let mut world = World::new();
    let sink = world.add(System::EndSink(EndSink::new()), "endsink".to_string());
    let s1 = world.add(System::Server(Server::new(7, sink)), "server1".to_string());
    let s2 = world.add(System::Server(Server::new(13, sink)), "server2".to_string());
    let lb = world.add(System::LoadBalancer(LoadBalancer::new(vec![s1, s2])), "lb".to_string());
    let source = world.add(System::ArrivalSource(ArrivalSource::new(4, lb)), "incoming".to_string());
    let mut scheduler = Scheduler::new();
    let mut rng = Script { values: vec![4, 7, 0, 13, 2, 30, 9], next: 0 };
    scheduler.schedule(&mut world, source, &mut rng);
    run(&mut scheduler, &mut world, 10_000, &mut rng);
    let completed = end_sink_count(&world, sink);
    let accepted = server(&world, s1).count() + server(&world, s2).count();
    let queued = world.queue_size();
    assert_eq!(completed + queued, accepted);
    assert_eq!(accepted, arrivals(&world, source));
}

#[test]
fn load_balancer_routes_round_robin_in_a_world() {
    let mut world = World::new();
    let a = world.add(System::EndSink(EndSink::new()), "a".to_string());
    let b = world.add(System::EndSink(EndSink::new()), "b".to_string());
    let lb = world.add(System::LoadBalancer(LoadBalancer::new(vec![a, b])), "lb".to_string());
    let mut scheduler = Scheduler::new();
    let mut rng = AtMean;
    let mut seen = Vec::new();
    for _ in 0..6 {
        let before = (end_sink_count(&world, a), end_sink_count(&world, b));
        world.forward_to(lb, &mut scheduler, &mut rng).unwrap();
        let after = (end_sink_count(&world, a), end_sink_count(&world, b));
        seen.push(if after.0 > before.0 { a } else { b });
    }
    assert_eq!(seen, vec![a, b, a, b, a, b]);
    assert_eq!(world.system(lb).stats(), "lb incoming 6");
}

#[test]
fn forwarding_cycle_fails() {
    let mut world = World::new();
    // a load balancer whose only target is itself
    let lb = world.add(System::LoadBalancer(LoadBalancer::new(vec![0])), "loop".to_string());
    let source = world.add(System::ArrivalSource(ArrivalSource::new(5, lb)), "incoming".to_string());
    let mut scheduler = Scheduler::new();
    assert!(!world.links_aim_lower());
    let r = world.tick_system(source, &mut scheduler, &mut AtMean);
    assert_eq!(r, Err(Fault::Placeholder));
    assert!(!world.system(lb).is_unset());
    assert!(!world.system(source).is_unset());
}

#[test]
fn unsupported_roles_fail() {
    let mut world = World::new();
    let sink = world.add(System::EndSink(EndSink::new()), "endsink".to_string());
    let source = world.add(System::ArrivalSource(ArrivalSource::new(5, sink)), "incoming".to_string());
    let mut scheduler = Scheduler::new();
    assert!(world.links_aim_lower());
    assert_eq!(world.tick_system(sink, &mut scheduler, &mut AtMean), Err(Fault::Unsupported));
    assert_eq!(world.forward_to(source, &mut scheduler, &mut AtMean), Err(Fault::Unsupported));
    assert_eq!(world.forward_to(9, &mut scheduler, &mut AtMean), Err(Fault::OutOfRange));
    assert_eq!(world.tick_system(9, &mut scheduler, &mut AtMean), Err(Fault::OutOfRange));
    assert_eq!(scheduler.pending(), 0);
}

#[test]
fn notifications_are_throttled_and_end_with_stop() {
    let mut world = World::new();
    let sink = world.add(System::EndSink(EndSink::new()), "endsink".to_string());
    let source = world.add(System::ArrivalSource(ArrivalSource::new(200, sink)), "incoming".to_string());
    let mut scheduler = Scheduler::with_report_interval(500);
    let mut rng = AtMean;
    scheduler.schedule(&mut world, source, &mut rng);
    run(&mut scheduler, &mut world, 1_300, &mut rng);
    let sent = scheduler.take_notifications();
    let expected = vec![
        SimulationReachedTimeEvent { time_ns: 200, stop: false },
        SimulationReachedTimeEvent { time_ns: 800, stop: false },
        SimulationReachedTimeEvent { time_ns: 1_400, stop: true },
    ];
    assert_eq!(sent, expected);
    assert!(scheduler.take_notifications().is_empty());
}

#[test]
fn registration_names_the_metrics() {
    let mut world = World::new();
    let sink = world.add(System::EndSink(EndSink::new()), "regsink".to_string());
    let lb = world.add(System::LoadBalancer(LoadBalancer::new(vec![sink])), "reglb".to_string());
    let mut scheduler = Scheduler::new();
    world.forward_to(lb, &mut scheduler, &mut AtMean).unwrap();
    world.forward_to(lb, &mut scheduler, &mut AtMean).unwrap();
    let snapshot = metriki_core::global::global_registry().snapshots();
    let value = |name: &str| {
        snapshot.iter().find(|(k, _)| k.key() == name).map(|(_, v)| match v {
            metriki_core::metrics::Metric::Counter(c) => c.value(),
            _ => -1,
        })
    };
    assert_eq!(value("regsink_ticks"), Some(2));
    assert_eq!(value("reglb_counter"), Some(2));
    assert_eq!(end_sink_count(&world, sink), 2);
}
