use eventsim::reporter::{
    batch_bounds, measurement, system_time_millis, ReportStep, ReporterState,
    SimulationReachedTimeEvent, DEFAULT_BATCH_SIZE, DEFAULT_REPORT_INTERVAL_NS,
};

#[test]
fn defaults() {
    assert_eq!(DEFAULT_BATCH_SIZE, 60);
    assert_eq!(DEFAULT_REPORT_INTERVAL_NS, 500_000_000);
}

#[test]
fn batches_of_sixty() {
    assert_eq!(batch_bounds(130, 60), vec![(0, 60), (60, 120), (120, 130)]);
    assert_eq!(batch_bounds(120, 60), vec![(0, 60), (60, 120)]);
    assert_eq!(batch_bounds(1, 60), vec![(0, 1)]);
    assert_eq!(batch_bounds(0, 60), vec![]);
}

#[test]
fn timestamps_truncate_to_milliseconds() {
    assert_eq!(system_time_millis(1_000_000_000, 1_500_000), 1_001);
    assert_eq!(system_time_millis(1_000_999_999, 0), 1_000);
    assert_eq!(system_time_millis(0, 999_999), 0);
}

#[test]
fn measurement_name_has_prefix() {
    assert_eq!(measurement("sdm_", "server1_meter"), "sdm_server1_meter");
}

#[test]
fn worker_writes_every_notification_until_stop() {
    let mut st = ReporterState::new();
    let ev = |t: i64, stop: bool| SimulationReachedTimeEvent { time_ns: t, stop };
    assert_eq!(st.on_event(ev(0, false)), ReportStep { write: true, finish: false });
    assert_eq!(st.on_event(ev(1, false)), ReportStep { write: true, finish: false });
    assert_eq!(st.on_event(ev(1, false)), ReportStep { write: true, finish: false });
    assert_eq!(st.on_event(ev(1_999, true)), ReportStep { write: true, finish: true });
    assert_eq!(st.on_event(ev(2_000, false)), ReportStep { write: false, finish: true });
}
