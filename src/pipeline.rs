use crate::ring::{push_model, SpscRing};
use vstd::prelude::*;

verus! {

/// Largest datagram payload, in bytes, that the producer receives.
pub const PACKET_MAX: usize = 2048;

/// Cells in the ring between the producer and the consumer.
pub const RING_CAP: usize = 65536;

/// Most packets the consumer takes from the ring in one round.
pub const BATCH_MAX: usize = 1024;

/// Producer pause after a poll that found no datagram.
pub const PRODUCER_IDLE_MICROS: u64 = 50;

/// Producer pause after a receive error.
pub const PRODUCER_ERROR_MICROS: u64 = 10_000;

/// Consumer pause after a round that found the ring empty.
pub const CONSUMER_IDLE_MICROS: u64 = 100;

/// Length of a throughput reporting window.
pub const REPORT_PERIOD_MICROS: u64 = 1_000_000;

/// The byte contents of a run of packets.
pub open spec fn packets(v: Seq<Vec<u8>>) -> Seq<Seq<u8>> {
    v.map_values(|p: Vec<u8>| p@)
}

/// Takes packets from the front of `ring`, oldest first, until `max` have
/// been taken or the ring is empty.
pub fn drain_batch(ring: &mut SpscRing, max: usize) -> (batch: Vec<Vec<u8>>)
    requires
        old(ring).wf(),
    ensures
        final(ring).wf(),
        final(ring).capacity_spec() == old(ring).capacity_spec(),
        batch@.len() == if old(ring)@.len() < max {
            old(ring)@.len()
        } else {
            max as nat
        },
        packets(batch@) == old(ring)@.take(batch@.len() as int),
        final(ring)@ == old(ring)@.skip(batch@.len() as int),
{
    let ghost start = ring@;
    let mut batch: Vec<Vec<u8>> = Vec::new();
    loop
        invariant
            ring.wf(),
            ring.capacity_spec() == old(ring).capacity_spec(),
            start == old(ring)@,
            batch@.len() <= max,
            packets(batch@) + ring@ == start,
        ensures
            ring.wf(),
            ring.capacity_spec() == old(ring).capacity_spec(),
            batch@.len() <= max,
            packets(batch@) + ring@ == start,
            batch@.len() == max || ring@.len() == 0,
        decreases max - batch@.len(),
    {
        if batch.len() >= max {
            break;
        }
        let ghost before = ring@;
        let ghost taken = batch@;
        match ring.try_pop() {
            Some(p) => {
                batch.push(p);
                proof {
                    assert(packets(batch@) =~= packets(taken).push(before[0]));
                    assert(packets(batch@) + ring@ =~= packets(taken) + before);
                }
            },
            None => {
                break;
            },
        }
    }
    proof {
        assert(packets(batch@).len() == batch@.len());
        assert(start.take(batch@.len() as int) =~= packets(batch@));
        assert(start.skip(batch@.len() as int) =~= ring@);
    }
    batch
}

/// What a non-blocking poll of the datagram source produced.
pub enum PollEvent {
    /// A datagram arrived with these bytes.
    Datagram(Vec<u8>),
    /// Nothing was ready.
    NotReady,
    /// The receive failed for another reason.
    Failed,
}

/// What the producer did with one poll, and how long it should pause
/// before the next.
pub struct ProducerStep {
    pub enqueued: bool,
    pub backoff_micros: u64,
}

/// The pause the producer takes after `event`.
pub open spec fn producer_backoff(event: PollEvent) -> u64 {
    match event {
        PollEvent::Datagram(_) => 0,
        PollEvent::NotReady => PRODUCER_IDLE_MICROS,
        PollEvent::Failed => PRODUCER_ERROR_MICROS,
    }
}

/// Handles one poll of the datagram source: a received payload is offered
/// to the ring once and dropped if the ring is full; an empty poll or an
/// error leaves the ring alone and asks for a short or a long pause.
pub fn producer_step(ring: &mut SpscRing, event: PollEvent) -> (r: ProducerStep)
    requires
        old(ring).wf(),
    ensures
        final(ring).wf(),
        final(ring).capacity_spec() == old(ring).capacity_spec(),
        final(ring)@ == match event {
            PollEvent::Datagram(p) => push_model(old(ring)@, old(ring).capacity_spec(), p@),
            _ => old(ring)@,
        },
        r.enqueued == (event is Datagram && old(ring)@.len() < old(ring).capacity_spec()),
        r.backoff_micros == producer_backoff(event),
{
    match event {
        PollEvent::Datagram(p) => {
            let accepted = ring.try_push(p).is_ok();
            ProducerStep { enqueued: accepted, backoff_micros: 0 }
        },
        PollEvent::NotReady => ProducerStep { enqueued: false, backoff_micros: PRODUCER_IDLE_MICROS },
        PollEvent::Failed => ProducerStep { enqueued: false, backoff_micros: PRODUCER_ERROR_MICROS },
    }
}

/// Microseconds from `start` to `now`, or zero if the clock reads earlier
/// than `start`.
pub open spec fn elapsed(start: u64, now: u64) -> nat {
    if now >= start {
        (now - start) as nat
    } else {
        0
    }
}

/// Counts the packets the consumer processed in the current reporting
/// window.
pub struct ThroughputMeter {
    pub count: usize,
    pub window_start_micros: u64,
}

impl ThroughputMeter {
    /// A meter with an empty window opened at `now_micros`.
    pub fn new(now_micros: u64) -> (r: Self)
        ensures
            r.count == 0,
            r.window_start_micros == now_micros,
    {
        ThroughputMeter { count: 0, window_start_micros: now_micros }
    }

    /// Adds `n` processed packets to the window, saturating at the largest
    /// count.
    pub fn record(&mut self, n: usize)
        ensures
            final(self).count == if old(self).count + n > usize::MAX {
                usize::MAX as int
            } else {
                old(self).count + n
            },
            final(self).window_start_micros == old(self).window_start_micros,
    {
        self.count = self.count.saturating_add(n);
    }

    /// Once `period_micros` have passed since the window opened, returns
    /// the window's count and opens a new, empty window at `now_micros`;
    /// before that, returns `None` and changes nothing.
    pub fn poll_report(&mut self, now_micros: u64, period_micros: u64) -> (r: Option<usize>)
        ensures
            elapsed(old(self).window_start_micros, now_micros) >= period_micros ==> {
                &&& r == Some(old(self).count)
                &&& final(self).count == 0
                &&& final(self).window_start_micros == now_micros
            },
            elapsed(old(self).window_start_micros, now_micros) < period_micros ==> {
                &&& r is None
                &&& *final(self) == *old(self)
            },
    {
        if now_micros.saturating_sub(self.window_start_micros) >= period_micros {
            let total = self.count;
            self.count = 0;
            self.window_start_micros = now_micros;
            Some(total)
        } else {
            None
        }
    }
}

/// What the consumer did in one round: the packets it took, the pause to
/// take before the next round, and the window count if one was reported.
pub struct ConsumerStep {
    pub batch: Vec<Vec<u8>>,
    pub backoff_micros: u64,
    pub report: Option<usize>,
}

/// One consumer round at time `now_micros`: drains up to `BATCH_MAX`
/// packets in arrival order, counts them, asks for a pause if there were
/// none, and reports the count once a reporting period has passed.
pub fn consumer_step(ring: &mut SpscRing, meter: &mut ThroughputMeter, now_micros: u64) -> (r:
    ConsumerStep)
    requires
        old(ring).wf(),
    ensures
        final(ring).wf(),
        final(ring).capacity_spec() == old(ring).capacity_spec(),
        r.batch@.len() == if old(ring)@.len() < BATCH_MAX {
            old(ring)@.len()
        } else {
            BATCH_MAX as nat
        },
        packets(r.batch@) == old(ring)@.take(r.batch@.len() as int),
        final(ring)@ == old(ring)@.skip(r.batch@.len() as int),
        r.backoff_micros == if r.batch@.len() == 0 {
            CONSUMER_IDLE_MICROS
        } else {
            0
        },
        ({
            let counted = if old(meter).count + r.batch@.len() > usize::MAX {
                usize::MAX as int
            } else {
                old(meter).count + r.batch@.len()
            };
            if elapsed(old(meter).window_start_micros, now_micros) >= REPORT_PERIOD_MICROS {
                &&& r.report == Some(counted as usize)
                &&& final(meter).count == 0
                &&& final(meter).window_start_micros == now_micros
            } else {
                &&& r.report is None
                &&& final(meter).count == counted
                &&& final(meter).window_start_micros == old(meter).window_start_micros
            }
        }),
{
    let batch = drain_batch(ring, BATCH_MAX);
    let backoff_micros = if batch.len() == 0 {
        CONSUMER_IDLE_MICROS
    } else {
        meter.record(batch.len());
        0
    };
    let report = meter.poll_report(now_micros, REPORT_PERIOD_MICROS);
    ConsumerStep { batch, backoff_micros, report }
}

} // verus!
