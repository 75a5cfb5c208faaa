use eventsim::objects::{Scheduler, World};
use eventsim::reporter::SimulationReachedTimeEvent;
use eventsim::systems::{ArrivalSource, EndSink, System};
use eventsim::traits::Sampler;
use tokio::sync::mpsc;

struct AtMean;

impl Sampler for AtMean {
    fn sample(&mut self, mean: u64) -> u64 {
        mean
    }
}

#[test]
fn mailbox_delivers_every_notification_in_order() {
    let mut world = World::new();
    let sink = world.add(System::EndSink(EndSink::new()), "endsink".to_string());
    let source = world.add(System::ArrivalSource(ArrivalSource::new(7, sink)), "incoming".to_string());
    let mut scheduler = Scheduler::with_report_interval(0);
    let mut rng = AtMean;
    scheduler.schedule(&mut world, source, &mut rng);

    let runtime = tokio::runtime::Builder::new_current_thread().build().unwrap();
    let received = runtime.block_on(async {
        // a mailbox of one slot, drained by a consumer that yields between
        // receipts: the producer must wait rather than drop
        let (tx, mut rx) = mpsc::channel::<SimulationReachedTimeEvent>(1);
        let consumer = tokio::spawn(async move {
            let mut got = Vec::new();
            while let Some(ev) = rx.recv().await {
                got.push(ev);
                tokio::task::yield_now().await;
            }
            got
        });
        let mut sent = Vec::new();
        loop {
            let more = scheduler.execute_next(&mut world, 700, &mut rng);
            for ev in scheduler.take_notifications() {
                sent.push(ev);
                tx.send(ev).await.unwrap();
            }
            if !more {
                break;
            }
        }
        drop(tx);
        (sent, consumer.await.unwrap())
    });
    let (sent, got) = received;
    // one notification per event at 7, 14, ..., 700; the last one stops
    assert_eq!(sent.len(), 100);
    assert_eq!(got, sent);
    assert!(got.windows(2).all(|w| w[0].time_ns <= w[1].time_ns));
    assert_eq!(got.last(), Some(&SimulationReachedTimeEvent { time_ns: 700, stop: true }));
}
