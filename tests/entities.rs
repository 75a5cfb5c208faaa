use eventsim::systems::{ArrivalSource, EndSink, LoadBalancer, Server, System};
use eventsim::traits::{HasQueue, StatEmitter, WorldMember};

#[test]
fn load_balancer_round_robin_over_two() {
    let mut lb = LoadBalancer::new(vec![7, 9]);
    let routed: Vec<usize> = (0..6).map(|_| lb.route()).collect();
    assert_eq!(routed, vec![7, 9, 7, 9, 7, 9]);
    assert_eq!(lb.count(), 6);
}

#[test]
fn load_balancer_round_robin_over_three() {
    let mut lb = LoadBalancer::new(vec![1, 2, 3]);
    let routed: Vec<usize> = (0..7).map(|_| lb.route()).collect();
    assert_eq!(routed, vec![1, 2, 3, 1, 2, 3, 1]);
}

#[test]
fn load_balancer_with_one_target() {
    let mut lb = LoadBalancer::new(vec![4]);
    assert_eq!(lb.route(), 4);
    assert_eq!(lb.route(), 4);
    assert_eq!(lb.stats(), "lb incoming 2");
}

#[test]
fn idle_server_schedules_its_tick() {
    let mut s = Server::new(5, 0);
    assert_eq!(s.accept(100, 7), Some(107));
    assert_eq!(s.backlog_length(), 1);
    assert_eq!(s.count(), 1);
}

#[test]
fn busy_server_extends_its_tail() {
    let mut s = Server::new(5, 0);
    assert_eq!(s.accept(100, 7), Some(107));
    assert_eq!(s.accept(101, 3), None);
    assert_eq!(s.accept(102, 0), None);
    assert_eq!(s.backlog_length(), 3);
    assert_eq!(s.queue_size(), 3);
    // deadlines 107, 110, 110: the head completes, the next head is returned
    assert_eq!(s.complete(), Some(110));
    assert_eq!(s.complete(), Some(110));
    assert_eq!(s.complete(), None);
    assert_eq!(s.backlog_length(), 0);
    assert_eq!(s.complete(), None);
    assert_eq!(s.meter().stats(), "3.333");
    assert_eq!(s.stats(), "meter 3.333 queue 0 counter 3");
}

#[test]
fn server_deadline_saturates() {
    let mut s = Server::new(5, 0);
    assert_eq!(s.accept(i64::MAX - 1, 10), Some(i64::MAX));
    assert_eq!(s.accept(0, u64::MAX), None);
    assert_eq!(s.complete(), Some(i64::MAX));
}

#[test]
fn arrival_source_advances_by_gap() {
    let mut a = ArrivalSource::new(10, 3);
    assert_eq!(a.advance(50, 12), 62);
    assert_eq!(a.advance(62, 8), 70);
    assert_eq!(a.meter().sample_count(), 2);
    assert_eq!(a.stats(), "as 10.000");
    assert_eq!(a.sink(), 3);
    assert_eq!(a.mean(), 10);
}

#[test]
fn end_sink_counts() {
    let mut e = EndSink::new();
    e.next();
    e.next();
    assert_eq!(e.counter(), 2);
    assert_eq!(e.stats(), "processed 2");
}

#[test]
fn registration_sets_handle() {
    let mut e = EndSink::new();
    assert_eq!(e.getref(), None);
    e.add(4, "sink".to_string());
    assert_eq!(e.getref(), Some(4));
    let mut s = System::Server(Server::new(2, 0));
    s.add(1, "server".to_string());
    assert_eq!(s.getref(), Some(1));
    assert_eq!(s.queue_size(), 0);
    assert!(!s.is_unset());
    assert!(System::Unset.is_unset());
}
