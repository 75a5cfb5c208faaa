use eventsim::utils::{tostring, Counter, Meter};

#[test]
fn tostring_groups_thousands() {
    assert_eq!(tostring(0), "0");
    assert_eq!(tostring(999), "999");
    assert_eq!(tostring(1000), "1,000");
    assert_eq!(tostring(1234567), "1,234,567");
    assert_eq!(tostring(-1234), "-1,234");
    assert_eq!(tostring(-5), "-5");
}

#[test]
fn meter_without_samples_shows_zero() {
    let m = Meter::new();
    assert_eq!(m.stats(), "0");
    assert_eq!(m.sample_count(), 0);
    assert_eq!(m.sum(), 0);
}

#[test]
fn meter_shows_mean_to_three_decimals() {
    let mut m = Meter::new();
    m.inc(1);
    m.inc(2);
    assert_eq!(m.stats(), "1.500");
    assert_eq!(m.sample_count(), 2);
    assert_eq!(m.sum(), 3);

    let mut m = Meter::new();
    m.inc(1);
    m.inc(1);
    m.inc(2);
    assert_eq!(m.stats(), "1.333");

    let mut m = Meter::new();
    m.inc(0);
    m.inc(1);
    m.inc(1);
    assert_eq!(m.stats(), "0.667");

    let mut m = Meter::new();
    m.inc(1234567);
    assert_eq!(m.stats(), "1,234,567.000");
}

#[test]
fn meter_rounds_up_into_the_whole_part() {
    let mut m = Meter::new();
    for _ in 0..1999 {
        m.inc(1);
    }
    m.inc(0);
    // 1999 / 2000 = 0.9995, which rounds to 1.000
    assert_eq!(m.stats(), "1.000");
}

#[test]
fn meter_saturates_its_sum() {
    let mut m = Meter::new();
    m.inc(i64::MAX);
    m.inc(5);
    assert_eq!(m.sum(), i64::MAX);
    assert_eq!(m.sample_count(), 2);
}

#[test]
fn counter_counts_and_formats() {
    let mut c = Counter::new();
    assert_eq!(c.value(), 0);
    assert_eq!(c.stats(), "0");
    for _ in 0..1234 {
        c.inc();
    }
    assert_eq!(c.value(), 1234);
    assert_eq!(c.stats(), "1,234");
}

#[test]
fn named_meter_and_counter_still_count() {
    let mut m = Meter::new();
    m.set_name("probe".to_string());
    m.inc(4);
    assert_eq!(m.stats(), "4.000");
    let mut c = Counter::new();
    c.set_name("probe".to_string(), true);
    c.inc();
    let mut d = Counter::new();
    d.set_name("probe".to_string(), false);
    d.inc();
    d.inc();
    assert_eq!(c.value(), 1);
    assert_eq!(d.value(), 2);
}

#[test]
fn named_updates_reach_the_registry() {
    let mut m = Meter::new();
    m.set_name("mirror".to_string());
    m.inc(3);
    let mut c = Counter::new();
    c.set_name("mirror".to_string(), false);
    c.inc();
    c.inc();
    let snapshot = metriki_core::global::global_registry().snapshots();
    let counter = snapshot
        .iter()
        .find(|(k, _)| k.key() == "mirror_counter")
        .map(|(_, v)| match v {
            metriki_core::metrics::Metric::Counter(c) => c.value(),
            _ => -1,
        });
    assert_eq!(counter, Some(2));
    assert!(snapshot.iter().any(|(k, v)| k.key() == "mirror_meter"
        && matches!(v, metriki_core::metrics::Metric::Meter(_))));
}

#[test]
fn meter_value_is_mean_in_thousandths() {
    let mut m = Meter::new();
    assert_eq!(m.value(), None);
    m.inc(1);
    m.inc(2);
    assert_eq!(m.value(), Some(1_500));
    let mut m = Meter::new();
    m.inc(0);
    m.inc(1);
    m.inc(1);
    assert_eq!(m.value(), Some(667));
    let mut m = Meter::new();
    m.inc(-3);
    m.inc(-4);
    assert_eq!(m.value(), Some(-3_500));
}
