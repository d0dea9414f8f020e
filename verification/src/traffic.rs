//! Deterministic packet traffic against a fixed pool: every packet is
//! allocated, and is released again at once or when the queue in front of it
//! has filled.

use std::collections::VecDeque;

use vstd::prelude::*;

use crate::pool::{FixedPool, PoolStats};

verus! {

#[derive(Debug)]
pub struct TrafficConfig {
    pub iterations: usize,
    pub max_payload: usize,
    pub queue_depth: usize,
    pub immediate_dispatch: bool,
}

pub fn default_iterations() -> (res: usize)
    ensures
        res == 10_000,
{
    10_000
}

pub fn default_payload() -> (res: usize)
    ensures
        res == 256,
{
    256
}

pub fn default_immediate() -> (res: bool)
    ensures
        res,
{
    true
}

impl Default for TrafficConfig {
    fn default() -> (res: Self)
        ensures
            res.iterations == 10_000,
            res.max_payload == 256,
            res.queue_depth == 0,
            res.immediate_dispatch,
    {
        TrafficConfig {
            iterations: default_iterations(),
            max_payload: default_payload(),
            queue_depth: 0,
            immediate_dispatch: default_immediate(),
        }
    }
}

#[derive(Debug)]
pub struct TrafficReport {
    pub scope: &'static str,
    pub firmware_path_exercised: bool,
    pub packets_attempted: usize,
    pub packets_dispatched: usize,
    pub pool: PoolStats,
}

#[derive(Clone, Copy, Debug, PartialEq, Eq, Structural)]
pub enum TrafficError {
    MaxPayload,
    QueueDepth,
}

impl TrafficError {
    pub open spec fn text(self) -> Seq<char> {
        match self {
            TrafficError::MaxPayload => "max_payload must be positive"@,
            TrafficError::QueueDepth => "queued dispatch requires queue_depth"@,
        }
    }

    pub fn message(self) -> (res: String)
        ensures
            res@ == self.text(),
    {
        match self {
            TrafficError::MaxPayload => "max_payload must be positive".to_owned(),
            TrafficError::QueueDepth => "queued dispatch requires queue_depth".to_owned(),
        }
    }
}

pub open spec fn next_state(state: u64) -> u64 {
    state.wrapping_mul(6364136223846793005).wrapping_add(1)
}

/// Bytes that the packet drawn from `state` takes: a header and a payload
/// below `max_payload`.
pub open spec fn packet_size(state: u64, max_payload: int) -> int {
    24 + (state >> 32) as int % max_payload
}

/// Where the simulation stands after some packets.
pub ghost struct Traffic {
    pub state: u64,
    pub pool: PoolStats,
    pub queue: Seq<usize>,
    pub dispatched: int,
}

impl Traffic {
    pub open spec fn start(pool_size: usize, seed: u64) -> Traffic {
        Traffic {
            state: if seed == 0 {
                1
            } else {
                seed
            },
            pool: PoolStats::empty(pool_size),
            queue: Seq::empty(),
            dispatched: 0,
        }
    }

    /// The oldest queued packet leaves.
    pub open spec fn dispatch(self) -> Traffic {
        Traffic {
            pool: self.pool.released(self.queue[0] as int),
            queue: self.queue.skip(1),
            dispatched: self.dispatched + 1,
            ..self
        }
    }

    /// One more packet arrives.
    pub open spec fn step(self, config: TrafficConfig) -> Traffic {
        let state = next_state(self.state);
        let bytes = packet_size(state, config.max_payload as int);
        let tried = Traffic { state, pool: self.pool.allocated(bytes), ..self };
        if self.pool.has_room(bytes) {
            let queued = Traffic { queue: self.queue.push(bytes as usize), ..tried };
            if config.immediate_dispatch {
                Traffic {
                    pool: tried.pool.released(bytes),
                    dispatched: self.dispatched + 1,
                    ..tried
                }
            } else if queued.queue.len() >= config.queue_depth {
                queued.dispatch()
            } else {
                queued
            }
        } else if self.queue.len() > 0 {
            tried.dispatch()
        } else {
            tried
        }
    }

    pub open spec fn after(config: TrafficConfig, pool_size: usize, seed: u64, packets: int) -> Traffic
        decreases packets,
    {
        if packets <= 0 {
            Traffic::start(pool_size, seed)
        } else {
            Traffic::after(config, pool_size, seed, packets - 1).step(config)
        }
    }

    /// What holds after `packets` packets: the pool holds what is queued and
    /// nothing else, and every packet was allocated or refused.
    pub open spec fn consistent(self, packets: int) -> bool {
        &&& self.pool.bounded()
        &&& self.pool.bytes_in_use == queued_bytes(self.queue)
        &&& self.pool.allocations + self.pool.allocation_failures == packets
        &&& self.dispatched + self.queue.len() == self.pool.allocations
        &&& self.dispatched >= 0
    }
}

pub open spec fn queued_bytes(queue: Seq<usize>) -> int
    decreases queue.len(),
{
    if queue.len() == 0 {
        0
    } else {
        queued_bytes(queue.drop_last()) + queue.last()
    }
}

proof fn lemma_queued_bytes(queue: Seq<usize>)
    requires
        queue.len() > 0,
    ensures
        queued_bytes(queue) == queue[0] + queued_bytes(queue.skip(1)),
        queued_bytes(queue.skip(1)) >= 0,
    decreases queue.len(),
{
    if queue.len() == 1 {
        assert(queue.drop_last() =~= Seq::<usize>::empty());
        assert(queue.skip(1) =~= Seq::<usize>::empty());
        assert(queued_bytes(queue.drop_last()) == 0);
        assert(queued_bytes(queue.skip(1)) == 0);
    } else {
        lemma_queued_bytes(queue.drop_last());
        assert(queue.drop_last().skip(1) =~= queue.skip(1).drop_last());
    }
}

/// The packet sizes are numbers of this machine.
pub open spec fn sizes_fit(config: TrafficConfig) -> bool {
    24 + u32::MAX <= usize::MAX || config.max_payload + 23 <= usize::MAX
}

proof fn lemma_packet_size(state: u64, config: TrafficConfig)
    requires
        config.max_payload > 0,
        sizes_fit(config),
    ensures
        24 <= packet_size(state, config.max_payload as int) <= usize::MAX,
        packet_size(state, config.max_payload as int) < 24 + config.max_payload,
{
    let high: u64 = state >> 32;
    assert(high <= 0xffff_ffff) by (bit_vector)
        requires
            high == state >> 32,
    ;
    vstd::arithmetic::div_mod::lemma_mod_bound(high as int, config.max_payload as int);
    vstd::arithmetic::div_mod::lemma_mod_decreases(high as nat, config.max_payload as nat);
}

proof fn lemma_step(traffic: Traffic, config: TrafficConfig, packets: int)
    requires
        config.max_payload > 0,
        sizes_fit(config),
        0 <= packets < usize::MAX,
        traffic.consistent(packets),
    ensures
        traffic.step(config).consistent(packets + 1),
        traffic.step(config).pool.capacity == traffic.pool.capacity,
{
    let state = next_state(traffic.state);
    let bytes = packet_size(state, config.max_payload as int);
    lemma_packet_size(state, config);
    let queued = traffic.queue.push(bytes as usize);
    assert(queued.drop_last() =~= traffic.queue);
    assert(queued_bytes(queued) == queued_bytes(traffic.queue) + bytes);
    lemma_queued_bytes(queued);
    if traffic.queue.len() > 0 {
        lemma_queued_bytes(traffic.queue);
    }
}

proof fn lemma_after(config: TrafficConfig, pool_size: usize, seed: u64, packets: int)
    requires
        config.max_payload > 0,
        sizes_fit(config),
        0 <= packets <= usize::MAX,
    ensures
        Traffic::after(config, pool_size, seed, packets).consistent(packets),
        Traffic::after(config, pool_size, seed, packets).pool.capacity == pool_size,
    decreases packets,
{
    if packets > 0 {
        lemma_after(config, pool_size, seed, packets - 1);
        lemma_step(Traffic::after(config, pool_size, seed, packets - 1), config, packets - 1);
    }
}

pub open spec fn config_error(config: TrafficConfig) -> Option<TrafficError> {
    if config.max_payload == 0 {
        Some(TrafficError::MaxPayload)
    } else if !config.immediate_dispatch && config.queue_depth == 0 {
        Some(TrafficError::QueueDepth)
    } else {
        None
    }
}

impl TrafficReport {
    /// The report on all of `config`'s packets, with the queue drained.
    pub open spec fn of(self, config: TrafficConfig, pool_size: usize, seed: u64) -> bool {
        let end = Traffic::after(config, pool_size, seed, config.iterations as int);
        &&& self.scope@ == "behavioral_pool_model"@
        &&& !self.firmware_path_exercised
        &&& self.packets_attempted == config.iterations
        &&& self.packets_dispatched == end.dispatched + end.queue.len()
        &&& self.pool == (PoolStats { bytes_in_use: 0, ..end.pool })
    }
}

pub fn run(config: &TrafficConfig, pool_size: usize, seed: u64) -> (res: Result<
    TrafficReport,
    TrafficError,
>)
    requires
        sizes_fit(*config),
    ensures
        match config_error(*config) {
            Some(error) => res == Err::<TrafficReport, TrafficError>(error),
            None => res matches Ok(report) && report.of(*config, pool_size, seed),
        },
{
    if config.max_payload == 0 {
        return Err(TrafficError::MaxPayload);
    }
    if !config.immediate_dispatch && config.queue_depth == 0 {
        return Err(TrafficError::QueueDepth);
    }
    let mut state: u64 = if seed == 0 {
        1
    } else {
        seed
    };
    let mut pool = FixedPool::new(pool_size);
    let mut outstanding: VecDeque<usize> = VecDeque::new();
    let mut dispatched: usize = 0;
    let mut done: usize = 0;
    let ghost mut now = Traffic::start(pool_size, seed);
    assert(outstanding@ =~= now.queue);
    while done < config.iterations
        invariant
            done <= config.iterations,
            config.max_payload > 0,
            sizes_fit(*config),
            now == Traffic::after(*config, pool_size, seed, done as int),
            now == (Traffic {
                state,
                pool: pool@,
                queue: outstanding@,
                dispatched: dispatched as int,
            }),
            now.consistent(done as int),
        decreases config.iterations - done,
    {
        let ghost before = now;
        proof {
            lemma_step(now, *config, done as int);
            lemma_packet_size(next_state(state), *config);
            now = now.step(*config);
        }
        state = state.wrapping_mul(6364136223846793005).wrapping_add(1);
        let high: u64 = state >> 32;
        assert(high <= 0xffff_ffff) by (bit_vector)
            requires
                high == state >> 32,
        ;
        let bytes: usize = 24 + (high as usize % config.max_payload);
        if pool.allocate(bytes) {
            if config.immediate_dispatch {
                pool.release(bytes);
                dispatched = dispatched + 1;
            } else {
                outstanding.push_back(bytes);
                if outstanding.len() >= config.queue_depth {
                    let ghost queue = outstanding@;
                    if let Some(front) = outstanding.pop_front() {
                        pool.release(front);
                        dispatched = dispatched + 1;
                    }
                    assert(outstanding@ =~= queue.skip(1));
                }
            }
        } else {
            let ghost queue = outstanding@;
            if let Some(front) = outstanding.pop_front() {
                pool.release(front);
                dispatched = dispatched + 1;
                assert(outstanding@ =~= queue.skip(1));
            }
        }
        done = done + 1;
    }
    let ghost end = now;
    loop
        invariant_except_break
            dispatched + outstanding@.len() == end.dispatched + end.queue.len(),
            end.dispatched + end.queue.len() <= usize::MAX,
            pool@.bounded(),
            pool@ == (PoolStats { bytes_in_use: pool@.bytes_in_use, ..end.pool }),
            pool@.bytes_in_use == queued_bytes(outstanding@),
        ensures
            dispatched == end.dispatched + end.queue.len(),
            pool@ == (PoolStats { bytes_in_use: 0, ..end.pool }),
        decreases outstanding@.len(),
    {
        let ghost queue = outstanding@;
        match outstanding.pop_front() {
            Some(front) => {
                proof {
                    lemma_queued_bytes(queue);
                    assert(outstanding@ =~= queue.skip(1));
                }
                pool.release(front);
                dispatched = dispatched + 1;
            },
            None => {
                break;
            },
        }
    }
    Ok(
        TrafficReport {
            scope: "behavioral_pool_model",
            firmware_path_exercised: false,
            packets_attempted: config.iterations,
            packets_dispatched: dispatched,
            pool: pool.stats(),
        },
    )
}

/// Traffic drains: nothing is left in the pool, every packet was either
/// dispatched or refused, and the pool was never filled beyond its capacity.
pub proof fn law_traffic_drains(
    report: TrafficReport,
    config: TrafficConfig,
    pool_size: usize,
    seed: u64,
)
    requires
        sizes_fit(config),
        config_error(config) is None,
        report.of(config, pool_size, seed),
    ensures
        report.pool.bytes_in_use == 0,
        report.pool.capacity == pool_size,
        report.pool.high_water <= pool_size,
        report.packets_dispatched == report.pool.allocations,
        report.packets_dispatched + report.pool.allocation_failures == report.packets_attempted,
{
    lemma_after(config, pool_size, seed, config.iterations as int);
}

proof fn lemma_immediate(config: TrafficConfig, pool_size: usize, seed: u64, packets: int)
    requires
        sizes_fit(config),
        config.max_payload > 0,
        config.immediate_dispatch,
        config.max_payload + 23 <= pool_size,
        0 <= packets <= usize::MAX,
    ensures
        ({
            let now = Traffic::after(config, pool_size, seed, packets);
            now.queue.len() == 0 && now.pool.bytes_in_use == 0 && now.pool.allocation_failures == 0
        }),
    decreases packets,
{
    if packets > 0 {
        let before = Traffic::after(config, pool_size, seed, packets - 1);
        lemma_immediate(config, pool_size, seed, packets - 1);
        lemma_after(config, pool_size, seed, packets - 1);
        lemma_packet_size(next_state(before.state), config);
    }
}

/// Immediate dispatch needs no queue: with room for one packet of the largest
/// size, every packet is dispatched and none is refused.
pub proof fn law_immediate_dispatch_needs_no_queue(
    report: TrafficReport,
    config: TrafficConfig,
    pool_size: usize,
    seed: u64,
)
    requires
        sizes_fit(config),
        config_error(config) is None,
        config.immediate_dispatch,
        config.max_payload + 23 <= pool_size,
        report.of(config, pool_size, seed),
    ensures
        report.packets_dispatched == config.iterations,
        report.pool.allocation_failures == 0,
{
    lemma_after(config, pool_size, seed, config.iterations as int);
    lemma_immediate(config, pool_size, seed, config.iterations as int);
}

/// The most that the queue can hold of packets of the largest size.
pub open spec fn queue_limit(config: TrafficConfig) -> int {
    config.queue_depth * (config.max_payload + 23)
}

proof fn lemma_dequeued(queue: Seq<usize>, largest: int)
    requires
        queue.len() > 0,
        forall|i: int| 0 <= i < queue.len() ==> (#[trigger] queue[i]) <= largest,
    ensures
        forall|i: int| 0 <= i < queue.skip(1).len() ==> (#[trigger] queue.skip(1)[i]) <= largest,
{
}

proof fn lemma_packets_limit(queue: Seq<usize>, largest: int)
    requires
        forall|i: int| 0 <= i < queue.len() ==> (#[trigger] queue[i]) <= largest,
    ensures
        queued_bytes(queue) <= queue.len() * largest,
    decreases queue.len(),
{
    if queue.len() > 0 {
        lemma_packets_limit(queue.drop_last(), largest);
        assert((queue.len() - 1) * largest + largest == queue.len() * largest)
            by (nonlinear_arith);
    }
}

proof fn lemma_queued(config: TrafficConfig, pool_size: usize, seed: u64, packets: int)
    requires
        sizes_fit(config),
        config.max_payload > 0,
        config.queue_depth > 0,
        !config.immediate_dispatch,
        0 <= packets <= usize::MAX,
    ensures
        ({
            let now = Traffic::after(config, pool_size, seed, packets);
            &&& now.queue.len() < config.queue_depth
            &&& forall|i: int|
                0 <= i < now.queue.len() ==> (#[trigger] now.queue[i]) <= config.max_payload + 23
            &&& now.pool.high_water <= queue_limit(config)
            &&& queue_limit(config) <= pool_size ==> now.pool.allocation_failures == 0
        }),
    decreases packets,
{
    let largest = config.max_payload + 23;
    assert(queue_limit(config) >= 0) by (nonlinear_arith)
        requires
            queue_limit(config) == config.queue_depth * (config.max_payload + 23),
    ;
    if packets > 0 {
        let before = Traffic::after(config, pool_size, seed, packets - 1);
        lemma_queued(config, pool_size, seed, packets - 1);
        lemma_after(config, pool_size, seed, packets - 1);
        let bytes = packet_size(next_state(before.state), config.max_payload as int);
        lemma_packet_size(next_state(before.state), config);
        lemma_packets_limit(before.queue, largest);
        assert(before.queue.len() * largest + largest <= queue_limit(config)) by (nonlinear_arith)
            requires
                before.queue.len() + 1 <= config.queue_depth,
                largest == config.max_payload + 23,
                queue_limit(config) == config.queue_depth * (config.max_payload + 23),
        ;
        let queue = before.queue.push(bytes as usize);
        assert forall|i: int| 0 <= i < queue.len() implies (#[trigger] queue[i]) <= largest by {
            if i < before.queue.len() {
                assert(queue[i] == before.queue[i]);
            }
        }
        lemma_dequeued(queue, largest);
        if before.queue.len() > 0 {
            lemma_dequeued(before.queue, largest);
        }
    }
}

/// Queued traffic is bounded: after every packet fewer than `queue_depth`
/// packets wait, none is larger than the largest, and the pool never held more
/// than `queue_depth` of those.
pub proof fn law_queued_traffic_is_bounded(
    config: TrafficConfig,
    pool_size: usize,
    seed: u64,
    packets: int,
)
    requires
        sizes_fit(config),
        config_error(config) is None,
        !config.immediate_dispatch,
        0 <= packets <= config.iterations,
    ensures
        ({
            let now = Traffic::after(config, pool_size, seed, packets);
            &&& now.queue.len() < config.queue_depth
            &&& forall|i: int|
                0 <= i < now.queue.len() ==> (#[trigger] now.queue[i]) <= config.max_payload + 23
            &&& now.pool.high_water <= queue_limit(config)
        }),
{
    lemma_queued(config, pool_size, seed, packets);
}

/// With room for a full queue of the largest packets, queued traffic loses
/// none: every packet is dispatched.
pub proof fn law_roomy_queues_lose_nothing(
    report: TrafficReport,
    config: TrafficConfig,
    pool_size: usize,
    seed: u64,
)
    requires
        sizes_fit(config),
        config_error(config) is None,
        !config.immediate_dispatch,
        queue_limit(config) <= pool_size,
        report.of(config, pool_size, seed),
    ensures
        report.packets_dispatched == config.iterations,
        report.pool.allocation_failures == 0,
        report.pool.high_water <= queue_limit(config),
{
    lemma_after(config, pool_size, seed, config.iterations as int);
    lemma_queued(config, pool_size, seed, config.iterations as int);
}

// ---------------------------------------------------------------------------
// One packet
// ---------------------------------------------------------------------------

/// Each packet is drawn from the state that the one before it left, and takes
/// a header of 24 bytes and a payload shorter than the largest. It is refused
/// where the pool cannot hold it beside what is queued, and where it is
/// refused the oldest packet in the queue leaves for it. Otherwise it leaves
/// at once, or joins the queue at its end, and a queue that has reached its
/// depth lets its oldest packet go.
pub proof fn law_one_packet_at_a_time(
    config: TrafficConfig,
    pool_size: usize,
    seed: u64,
    packets: int,
)
    requires
        sizes_fit(config),
        config.max_payload > 0,
        config.immediate_dispatch || config.queue_depth > 0,
        0 <= packets < config.iterations,
    ensures
        Traffic::after(config, pool_size, seed, 0).queue.len() == 0,
        Traffic::after(config, pool_size, seed, 0).dispatched == 0,
        Traffic::after(config, pool_size, seed, 0).pool.bytes_in_use == 0,
        Traffic::after(config, pool_size, seed, 0).pool.allocation_failures == 0,
        Traffic::after(config, pool_size, seed, 0).state > 0,
        seed > 0 ==> Traffic::after(config, pool_size, seed, 0).state == seed,
        ({
            let before = Traffic::after(config, pool_size, seed, packets);
            let now = Traffic::after(config, pool_size, seed, packets + 1);
            let drawn = now.state as int;
            let bytes = 24 + (drawn / 0x1_0000_0000) % config.max_payload as int;
            let queue = before.queue;
            &&& drawn == (before.state * 6364136223846793005 + 1) % 0x1_0000_0000_0000_0000
            &&& 24 <= bytes < 24 + config.max_payload
            &&& if before.pool.bytes_in_use + bytes > pool_size {
                &&& now.pool.allocation_failures == before.pool.allocation_failures + 1
                &&& now.pool.allocations == before.pool.allocations
                &&& now.pool.high_water == before.pool.high_water
                &&& queue.len() == 0 ==> now.queue == queue && now.dispatched == before.dispatched
                    && now.pool.bytes_in_use == before.pool.bytes_in_use
                &&& queue.len() > 0 ==> now.queue == queue.subrange(1, queue.len() as int)
                    && now.dispatched == before.dispatched + 1 && now.pool.bytes_in_use
                    == before.pool.bytes_in_use - queue[0]
            } else {
                &&& now.pool.allocation_failures == before.pool.allocation_failures
                &&& now.pool.allocations == before.pool.allocations + 1
                &&& now.pool.high_water >= before.pool.high_water
                &&& now.pool.high_water >= before.pool.bytes_in_use + bytes
                &&& now.pool.high_water == before.pool.high_water || now.pool.high_water
                    == before.pool.bytes_in_use + bytes
                &&& config.immediate_dispatch ==> now.queue == queue && now.dispatched
                    == before.dispatched + 1 && now.pool.bytes_in_use == before.pool.bytes_in_use
                &&& !config.immediate_dispatch && queue.len() + 1 < config.queue_depth
                    ==> now.queue == queue + seq![bytes as usize] && now.dispatched
                    == before.dispatched && now.pool.bytes_in_use == before.pool.bytes_in_use
                    + bytes
                &&& !config.immediate_dispatch && queue.len() + 1 >= config.queue_depth
                    ==> now.queue == (queue + seq![bytes as usize]).subrange(
                    1,
                    queue.len() as int + 1,
                ) && now.dispatched == before.dispatched + 1 && now.pool.bytes_in_use
                    == before.pool.bytes_in_use + bytes - (queue + seq![bytes as usize])[0]
            }
        }),
{
    let before = Traffic::after(config, pool_size, seed, packets);
    let now = Traffic::after(config, pool_size, seed, packets + 1);
    let state = next_state(before.state);
    lemma_after(config, pool_size, seed, packets);
    lemma_after(config, pool_size, seed, packets + 1);
    lemma_packet_size(state, config);
    assert(now == before.step(config));
    assert(now.state == state);
    assert(state >> 32 == state / 0x1_0000_0000) by (bit_vector);
    lemma_draw(before.state);
    let bytes = packet_size(state, config.max_payload as int);
    let queued = before.queue.push(bytes as usize);
    assert(queued =~= before.queue + seq![bytes as usize]);
    assert(queued.skip(1) =~= queued.subrange(1, queued.len() as int));
    assert(queued.drop_last() =~= before.queue);
    lemma_queued_bytes(queued);
    assert(queued_bytes(queued) == queued_bytes(before.queue) + bytes);
    if before.queue.len() > 0 {
        lemma_queued_bytes(before.queue);
        assert(before.queue.skip(1) =~= before.queue.subrange(1, before.queue.len() as int));
    }
}

proof fn lemma_draw(state: u64)
    ensures
        next_state(state) == (state * 6364136223846793005 + 1) % 0x1_0000_0000_0000_0000,
{
    let product = state * 6364136223846793005;
    let multiplied = state.wrapping_mul(6364136223846793005);
    assert(multiplied == product % 0x1_0000_0000_0000_0000);
    assert(multiplied.wrapping_add(1) == (multiplied + 1) % 0x1_0000_0000_0000_0000);
    vstd::arithmetic::div_mod::lemma_add_mod_noop(product, 1, 0x1_0000_0000_0000_0000);
}

proof fn lemma_refusals_dispatch(config: TrafficConfig, pool_size: usize, seed: u64, packets: int)
    requires
        sizes_fit(config),
        config.max_payload > 0,
        config.immediate_dispatch || config.queue_depth > 0,
        config.max_payload + 23 <= pool_size,
        0 <= packets <= config.iterations,
    ensures
        ({
            let now = Traffic::after(config, pool_size, seed, packets);
            now.pool.allocation_failures <= now.dispatched
        }),
    decreases packets,
{
    if packets > 0 {
        let before = Traffic::after(config, pool_size, seed, packets - 1);
        lemma_refusals_dispatch(config, pool_size, seed, packets - 1);
        law_one_packet_at_a_time(config, pool_size, seed, packets - 1);
        lemma_after(config, pool_size, seed, packets - 1);
        if before.queue.len() == 0 {
            assert(queued_bytes(before.queue) == 0);
        }
    }
}

/// A full pool keeps draining: with room for one packet of the largest size,
/// no more packets are refused than are dispatched.
pub proof fn law_every_refusal_dispatches_a_packet(
    report: TrafficReport,
    config: TrafficConfig,
    pool_size: usize,
    seed: u64,
)
    requires
        sizes_fit(config),
        config_error(config) is None,
        config.max_payload + 23 <= pool_size,
        report.of(config, pool_size, seed),
    ensures
        report.pool.allocation_failures <= report.packets_dispatched,
        report.packets_attempted == config.iterations,
        2 * report.packets_dispatched >= config.iterations,
{
    law_traffic_drains(report, config, pool_size, seed);
    lemma_refusals_dispatch(config, pool_size, seed, config.iterations as int);
}

/// Traffic is refused for a payload of no size and for a queue of no depth,
/// and for nothing else.
pub proof fn law_traffic_needs_a_payload_and_a_queue(config: TrafficConfig)
    ensures
        config_error(config) is None <==> config.max_payload > 0 && (config.immediate_dispatch
            || config.queue_depth > 0),
        config_error(config) == Some(TrafficError::QueueDepth) ==> config.max_payload > 0
            && config.queue_depth == 0,
        config_error(config) == Some(TrafficError::MaxPayload) ==> config.max_payload == 0,
{
}

/// A report is about all the packets that were asked for, from the seed on: the
/// high-water mark and the refusals are those after the last packet, and what
/// was still queued then is dispatched too.
pub proof fn law_reports_follow_the_last_packet(
    report: TrafficReport,
    config: TrafficConfig,
    pool_size: usize,
    seed: u64,
)
    requires
        report.of(config, pool_size, seed),
    ensures
        Traffic::after(config, pool_size, seed, 0).state == if seed == 0 {
            1
        } else {
            seed
        },
        report.packets_attempted == config.iterations,
        ({
            let end = Traffic::after(config, pool_size, seed, config.iterations as int);
            &&& report.packets_dispatched == end.dispatched + end.queue.len()
            &&& report.pool.high_water == end.pool.high_water
            &&& report.pool.allocations == end.pool.allocations
            &&& report.pool.allocation_failures == end.pool.allocation_failures
        }),
        !report.firmware_path_exercised,
{
}

} // verus!
