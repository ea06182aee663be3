use ringbuffer::pipeline::{
    consumer_step, drain_batch, producer_step, PollEvent, ThroughputMeter, BATCH_MAX,
    CONSUMER_IDLE_MICROS, PACKET_MAX, PRODUCER_ERROR_MICROS, PRODUCER_IDLE_MICROS, REPORT_PERIOD_MICROS,
    RING_CAP,
};
use ringbuffer::ring::{power_of_two, SpscRing};

fn filled(cap: usize, n: u32) -> SpscRing {
    let mut ring = SpscRing::new(cap);
    for tag in 0..n {
        assert_eq!(ring.try_push(tag.to_le_bytes().to_vec()), Ok(()));
    }
    ring
}

#[test]
fn sizing_constants() {
    assert_eq!(PACKET_MAX, 2048);
    assert_eq!(RING_CAP, 65536);
    assert!(power_of_two(RING_CAP));
    assert_eq!(BATCH_MAX, 1024);
    assert_eq!(PRODUCER_IDLE_MICROS, 50);
    assert_eq!(PRODUCER_ERROR_MICROS, 10_000);
    assert_eq!(CONSUMER_IDLE_MICROS, 100);
    assert_eq!(REPORT_PERIOD_MICROS, 1_000_000);
}

#[test]
fn drain_batch_stops_at_max() {
    let mut ring = filled(16, 10);
    let batch = drain_batch(&mut ring, 4);
    let tags: Vec<u32> = batch.iter().map(|p| u32::from_le_bytes([p[0], p[1], p[2], p[3]])).collect();
    assert_eq!(tags, vec![0, 1, 2, 3]);
    assert_eq!(ring.len(), 6);
    assert_eq!(ring.try_pop(), Some(4u32.to_le_bytes().to_vec()));
}

#[test]
fn drain_batch_stops_when_empty() {
    let mut ring = filled(16, 3);
    let batch = drain_batch(&mut ring, 100);
    assert_eq!(batch.len(), 3);
    assert!(ring.is_empty());
    assert!(drain_batch(&mut ring, 100).is_empty());
    let mut other = filled(4, 2);
    assert!(drain_batch(&mut other, 0).is_empty());
    assert_eq!(other.len(), 2);
}

#[test]
fn producer_enqueues_received_datagram() {
    let mut ring = SpscRing::new(2);
    let step = producer_step(&mut ring, PollEvent::Datagram(vec![1, 2, 3]));
    assert!(step.enqueued);
    assert_eq!(step.backoff_micros, 0);
    assert_eq!(ring.try_pop(), Some(vec![1, 2, 3]));
}

#[test]
fn producer_drops_datagram_when_full() {
    let mut ring = filled(2, 2);
    let step = producer_step(&mut ring, PollEvent::Datagram(vec![42]));
    assert!(!step.enqueued);
    assert_eq!(step.backoff_micros, 0);
    assert_eq!(ring.len(), 2);
    let rest = drain_batch(&mut ring, 10);
    assert!(!rest.contains(&vec![42]));
}

#[test]
fn producer_backs_off_when_idle_or_failing() {
    let mut ring = filled(4, 1);
    let idle = producer_step(&mut ring, PollEvent::NotReady);
    assert!(!idle.enqueued);
    assert_eq!(idle.backoff_micros, 50);
    let failed = producer_step(&mut ring, PollEvent::Failed);
    assert!(!failed.enqueued);
    assert_eq!(failed.backoff_micros, 10_000);
    assert_eq!(ring.len(), 1);
}

#[test]
fn meter_reports_after_period_and_resets() {
    let mut meter = ThroughputMeter::new(1_000);
    meter.record(5);
    meter.record(7);
    assert_eq!(meter.count, 12);
    assert_eq!(meter.poll_report(500_000, 1_000_000), None);
    assert_eq!(meter.count, 12);
    assert_eq!(meter.poll_report(1_001_000, 1_000_000), Some(12));
    assert_eq!(meter.count, 0);
    assert_eq!(meter.window_start_micros, 1_001_000);
    assert_eq!(meter.poll_report(1_500_000, 1_000_000), None);
}

#[test]
fn meter_ignores_clock_running_backwards() {
    let mut meter = ThroughputMeter::new(5_000_000);
    meter.record(3);
    assert_eq!(meter.poll_report(1_000, 1_000_000), None);
    assert_eq!(meter.count, 3);
}

#[test]
fn meter_count_saturates() {
    let mut meter = ThroughputMeter::new(0);
    meter.record(usize::MAX - 1);
    meter.record(10);
    assert_eq!(meter.count, usize::MAX);
}

#[test]
fn consumer_backs_off_on_empty_ring() {
    let mut ring = SpscRing::new(8);
    let mut meter = ThroughputMeter::new(0);
    let step = consumer_step(&mut ring, &mut meter, 10);
    assert!(step.batch.is_empty());
    assert_eq!(step.backoff_micros, 100);
    assert_eq!(step.report, None);
    assert_eq!(meter.count, 0);
}

#[test]
fn consumer_batches_at_most_batch_max() {
    let mut ring = filled(2048, 1500);
    let mut meter = ThroughputMeter::new(0);
    let first = consumer_step(&mut ring, &mut meter, 10);
    assert_eq!(first.batch.len(), 1024);
    assert_eq!(first.backoff_micros, 0);
    assert_eq!(first.batch[0], 0u32.to_le_bytes().to_vec());
    assert_eq!(first.batch[1023], 1023u32.to_le_bytes().to_vec());
    assert_eq!(meter.count, 1024);
    let second = consumer_step(&mut ring, &mut meter, 20);
    assert_eq!(second.batch.len(), 476);
    assert_eq!(second.batch[0], 1024u32.to_le_bytes().to_vec());
    assert_eq!(meter.count, 1500);
    assert!(ring.is_empty());
}

#[test]
fn consumer_reports_once_per_period() {
    let mut ring = filled(8, 3);
    let mut meter = ThroughputMeter::new(0);
    let step = consumer_step(&mut ring, &mut meter, 1_000_000);
    assert_eq!(step.batch.len(), 3);
    assert_eq!(step.report, Some(3));
    assert_eq!(meter.count, 0);
    assert_eq!(meter.window_start_micros, 1_000_000);
    let quiet = consumer_step(&mut ring, &mut meter, 1_500_000);
    assert_eq!(quiet.report, None);
    let empty_window = consumer_step(&mut ring, &mut meter, 2_000_000);
    assert_eq!(empty_window.report, Some(0));
}
