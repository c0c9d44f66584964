//! Keeping the pool supplied: replacing dead addresses from the reserve, fetching new ones, and
//! checking those in use.
//!
//! Trying an address and asking for a new one take the network. Each job here is therefore a
//! sequence of steps: a step says what to do next, and the function that takes its outcome
//! gives the step after it.

use crate::pool::{IpPool, RESERVE_LIMIT};
use crate::pool;
use crate::text;
use std::collections::VecDeque;
use std::time::Instant;
use vstd::prelude::*;

verus! {

/// How long to wait between two rounds of maintenance, in seconds.
pub const FETCH_INTERVAL_SECS: u64 = 11;

/// How long to wait after each health check, in milliseconds.
pub const CHECK_PAUSE_MILLIS: u64 = 500;

/// How long an upstream proxy may take to accept a connection, in seconds.
pub const TRY_TIMEOUT_SECS: u64 = 5;

/// How long the answer to a request for an address may take, in seconds.
pub const FETCH_TIMEOUT_SECS: u64 = 10;

// ---------------------------------------------------------------------------
// Replacing an address from the reserve
// ---------------------------------------------------------------------------

/// What comes next when a port is to be supplied from the reserve.
pub enum ReplenishStep {
    /// Try to connect to this address.
    Try { address: String },
    /// Nothing more; `replaced` tells whether the port got an address.
    Finished { replaced: bool },
}

/// What a [`ReplenishStep`] says.
pub enum ReplenishView {
    Try { address: Seq<char> },
    Finished { replaced: bool },
}

impl View for ReplenishStep {
    type V = ReplenishView;

    open spec fn view(&self) -> ReplenishView {
        match self {
            ReplenishStep::Try { address } => ReplenishView::Try { address: address@ },
            ReplenishStep::Finished { replaced } => ReplenishView::Finished {
                replaced: *replaced,
            },
        }
    }
}

/// Take the oldest address out of the reserve and try it; give up where there is none.
pub open spec fn replenish_next(pool: pool::PoolView) -> (pool::PoolView, ReplenishView) {
    if pool.reserve.len() == 0 {
        (pool, ReplenishView::Finished { replaced: false })
    } else {
        (pool.popped(), ReplenishView::Try { address: pool.reserve[0].address })
    }
}

/// Assign an address that answered to the port, at `now`; drop one that did not and go on.
pub open spec fn replenish_tried(
    pool: pool::PoolView,
    port: u16,
    address: Seq<char>,
    reachable: bool,
    now: Instant,
) -> (pool::PoolView, ReplenishView) {
    if reachable {
        (
            pool.assigned(port, address, now),
            ReplenishView::Finished { replaced: pool.entries.contains_key(port) },
        )
    } else {
        replenish_next(pool)
    }
}

impl IpPool {
    /// Starts to supply a port from the reserve.
    pub fn try_replenish_from_reserve(&mut self) -> (r: ReplenishStep)
        ensures
            (final(self)@, r@) == replenish_next(old(self)@),
    {
        match self.pop_reserve() {
            Some(address) => ReplenishStep::Try { address },
            None => ReplenishStep::Finished { replaced: false },
        }
    }

    /// Goes on supplying `port`, after `address` was tried just now.
    pub fn replenish_tried(&mut self, port: u16, address: String, reachable: bool) -> (r:
        ReplenishStep)
        ensures
            exists|now: Instant|
                (final(self)@, r@) == #[trigger] replenish_tried(
                    old(self)@,
                    port,
                    address@,
                    reachable,
                    now,
                ),
    {
        self.replenish_tried_at(port, address, reachable, Instant::now())
    }

    /// Goes on supplying `port`, after `address` was tried until `now`.
    pub fn replenish_tried_at(
        &mut self,
        port: u16,
        address: String,
        reachable: bool,
        now: Instant,
    ) -> (r: ReplenishStep)
        ensures
            (final(self)@, r@) == replenish_tried(old(self)@, port, address@, reachable, now),
    {
        if reachable {
            let replaced = self.assign(port, address, now);
            ReplenishStep::Finished { replaced }
        } else {
            self.try_replenish_from_reserve()
        }
    }

    /// Notes that the upstream proxy of `port` does not answer, and starts to supply the port
    /// from the reserve.
    pub fn mark_unavailable(&mut self, port: u16) -> (r: ReplenishStep)
        ensures
            (final(self)@, r@) == replenish_next(old(self)@.unavailable(port)),
    {
        self.set_unavailable(port);
        self.try_replenish_from_reserve()
    }
}

// ---------------------------------------------------------------------------
// Fetching an address
// ---------------------------------------------------------------------------

/// What comes next when the pool looks for a new address.
pub enum FetchStep {
    /// Try to connect to this address out of the reserve, for `port`.
    TryReserve { port: u16, address: String },
    /// Ask for an address, for the port `recipient` or else for the reserve.
    AskApi { recipient: Option<u16> },
    /// Try to connect to this address that was given, for the port `recipient` or else for the
    /// reserve.
    TryFetched { recipient: Option<u16>, address: String },
    /// Nothing more.
    Finished,
}

/// What came of a [`FetchStep`].
pub enum FetchEvent {
    /// The address was tried; the time it took to answer in milliseconds, if it did.
    Tried(Option<u64>),
    /// An address was asked for; the text of the answer, if there was one.
    Answered(Option<String>),
}

/// What a [`FetchStep`] says.
pub enum FetchView {
    TryReserve { port: u16, address: Seq<char> },
    AskApi { recipient: Option<u16> },
    TryFetched { recipient: Option<u16>, address: Seq<char> },
    Finished,
}

/// What a [`FetchEvent`] says.
pub enum FetchEventView {
    Tried(Option<u64>),
    Answered(Option<Seq<char>>),
}

impl View for FetchStep {
    type V = FetchView;

    open spec fn view(&self) -> FetchView {
        match self {
            FetchStep::TryReserve { port, address } => FetchView::TryReserve {
                port: *port,
                address: address@,
            },
            FetchStep::AskApi { recipient } => FetchView::AskApi { recipient: *recipient },
            FetchStep::TryFetched { recipient, address } => FetchView::TryFetched {
                recipient: *recipient,
                address: address@,
            },
            FetchStep::Finished => FetchView::Finished,
        }
    }
}

impl View for FetchEvent {
    type V = FetchEventView;

    open spec fn view(&self) -> FetchEventView {
        match self {
            FetchEvent::Tried(latency) => FetchEventView::Tried(*latency),
            FetchEvent::Answered(Some(text)) => FetchEventView::Answered(Some(text@)),
            FetchEvent::Answered(None) => FetchEventView::Answered(None),
        }
    }
}

impl FetchView {
    /// The port that the address is wanted for, if it is not for the reserve.
    pub open spec fn wanted_for(self) -> Option<u16> {
        match self {
            FetchView::TryReserve { port, .. } => Some(port),
            FetchView::AskApi { recipient } => recipient,
            FetchView::TryFetched { recipient, .. } => recipient,
            FetchView::Finished => None,
        }
    }

    /// Whether `event` is an outcome of this step.
    pub open spec fn expects(self, event: FetchEventView) -> bool {
        match self {
            FetchView::TryReserve { .. } => event is Tried,
            FetchView::AskApi { .. } => event is Answered,
            FetchView::TryFetched { .. } => event is Tried,
            FetchView::Finished => false,
        }
    }
}

/// The address in an answer: its text without white space round it, unless that is empty or an
/// error report in JSON.
pub open spec fn fetched_ip(answer: Seq<char>) -> Option<Seq<char>> {
    let ip = text::trim(answer);
    if ip.len() == 0 || ip[0] == '{' {
        None
    } else {
        Some(ip)
    }
}

/// The address with the default port of SOCKS where it names none.
pub open spec fn upstream_addr(raw: Seq<char>) -> Seq<char> {
    if raw.contains(':') {
        raw
    } else {
        raw + ":1080"@
    }
}

/// Try the oldest address in the reserve for `port`; ask for one where there is none.
pub open spec fn supply(pool: pool::PoolView, port: u16) -> (pool::PoolView, FetchView) {
    if pool.reserve.len() == 0 {
        (pool, FetchView::AskApi { recipient: Some(port) })
    } else {
        (pool.popped(), FetchView::TryReserve { port, address: pool.reserve[0].address })
    }
}

/// Supply the port that needs it most; where none does, ask for an address to keep in reserve,
/// unless the reserve is full.
pub open spec fn fetch_start(pool: pool::PoolView, ages: Seq<(u16, u128)>) -> (
    pool::PoolView,
    FetchView,
) {
    match pool.rotation_target(ages) {
        Some(port) => supply(pool, port),
        None => if pool.reserve.len() >= RESERVE_LIMIT {
            (pool, FetchView::Finished)
        } else {
            (pool, FetchView::AskApi { recipient: None })
        },
    }
}

/// How looking for an address goes on after `step` came out as `event`, at `now`.
pub open spec fn fetch_next(
    pool: pool::PoolView,
    step: FetchView,
    event: FetchEventView,
    now: Instant,
) -> (pool::PoolView, FetchView) {
    match (step, event) {
        (FetchView::TryReserve { port, address }, FetchEventView::Tried(Some(_))) => (
            pool.assigned(port, address, now),
            FetchView::Finished,
        ),
        (FetchView::TryReserve { port, .. }, FetchEventView::Tried(None)) => supply(pool, port),
        (FetchView::AskApi { recipient }, FetchEventView::Answered(Some(answer))) => match fetched_ip(
            answer,
        ) {
            Some(ip) => (pool, FetchView::TryFetched { recipient, address: upstream_addr(ip) }),
            None => (pool, FetchView::Finished),
        },
        (
            FetchView::TryFetched { recipient: Some(port), address },
            FetchEventView::Tried(Some(_)),
        ) => (pool.assigned(port, address, now), FetchView::Finished),
        (
            FetchView::TryFetched { recipient: None, address },
            FetchEventView::Tried(Some(latency_ms)),
        ) => (pool.stored(address, latency_ms, now), FetchView::Finished),
        _ => (pool, FetchView::Finished),
    }
}

impl IpPool {
    /// The address in an answer to a request for one.
    pub fn fetched_ip(answer: &str) -> (r: Option<String>)
        ensures
            match r {
                Some(ip) => fetched_ip(answer@) == Some(ip@),
                None => fetched_ip(answer@) is None,
            },
    {
        let ip = text::trimmed(answer);
        if ip.as_str().is_empty() {
            return None;
        }
        if ip.as_str().get_char(0) == '{' {
            return None;
        }
        Some(ip)
    }

    /// The address with the default port of SOCKS where it names none.
    pub fn parse_upstream_addr(raw: &str) -> (r: String)
        ensures
            r@ == upstream_addr(raw@),
    {
        let v = text::chars_of(raw);
        let colon = text::index_of(&v, 0, ':');
        proof {
            assert(v@.skip(0) == v@);
            text::lemma_first_where_holds(raw@, text::equals(':'));
            if colon < v@.len() {
                assert(raw@[colon as int] == ':');
                assert(raw@.contains(':'));
            } else if raw@.contains(':') {
                let i = choose|i: int| 0 <= i < raw@.len() && raw@[i] == ':';
                assert(text::equals(':')(raw@[i]));
            }
        }
        let mut r = raw.to_owned();
        if colon == v.len() {
            r.append(":1080");
        }
        r
    }

    /// Starts to supply `port`, preferring the reserve.
    fn supply(&mut self, port: u16) -> (r: FetchStep)
        ensures
            (final(self)@, r@) == supply(old(self)@, port),
    {
        match self.pop_reserve() {
            Some(address) => FetchStep::TryReserve { port, address },
            None => FetchStep::AskApi { recipient: Some(port) },
        }
    }

    /// Starts to look for an address, by what the clock says now.
    pub fn fetch_and_assign(&mut self) -> (r: FetchStep)
        ensures
            exists|ages: Seq<(u16, u128)>, now: Instant|
                {
                    &&& pool::one_per_port(ages, old(self)@.entries.dom())
                    &&& #[trigger] pool::read_at(ages, old(self)@, now)
                    &&& (final(self)@, r@) == fetch_start(old(self)@, ages)
                },
    {
        let now = Instant::now();
        let ages = self.ages(&now);
        assert(pool::read_at(ages@, old(self)@, now));
        self.fetch_and_assign_at(&ages)
    }

    /// Starts to look for an address, the entries of the ports having the ages `ages`.
    pub fn fetch_and_assign_at(&mut self, ages: &Vec<(u16, u128)>) -> (r: FetchStep)
        ensures
            (final(self)@, r@) == fetch_start(old(self)@, ages@),
    {
        match self.rotation_target(ages) {
            Some(port) => self.supply(port),
            None => {
                if self.reserve_size() >= RESERVE_LIMIT {
                    FetchStep::Finished
                } else {
                    FetchStep::AskApi { recipient: None }
                }
            },
        }
    }

    /// Goes on looking for an address, after `step` came out as `event` just now.
    pub fn fetch_next(&mut self, step: FetchStep, event: FetchEvent) -> (r: FetchStep)
        requires
            step@.expects(event@),
        ensures
            exists|now: Instant|
                (final(self)@, r@) == #[trigger] fetch_next(old(self)@, step@, event@, now),
    {
        self.fetch_next_at(step, event, Instant::now())
    }

    /// Goes on looking for an address, after `step` came out as `event` at `now`.
    pub fn fetch_next_at(&mut self, step: FetchStep, event: FetchEvent, now: Instant) -> (r:
        FetchStep)
        requires
            step@.expects(event@),
        ensures
            (final(self)@, r@) == fetch_next(old(self)@, step@, event@, now),
    {
        match (step, event) {
            (FetchStep::TryReserve { port, address }, FetchEvent::Tried(Some(_latency_ms))) => {
                let _ = self.assign(port, address, now);
                FetchStep::Finished
            },
            (FetchStep::TryReserve { port, .. }, FetchEvent::Tried(None)) => self.supply(port),
            (FetchStep::AskApi { recipient }, FetchEvent::Answered(Some(answer))) => {
                match Self::fetched_ip(answer.as_str()) {
                    Some(ip) => FetchStep::TryFetched {
                        recipient,
                        address: Self::parse_upstream_addr(ip.as_str()),
                    },
                    None => FetchStep::Finished,
                }
            },
            (
                FetchStep::TryFetched { recipient, address },
                FetchEvent::Tried(Some(latency_ms)),
            ) => {
                match recipient {
                    Some(port) => {
                        let _ = self.assign(port, address, now);
                    },
                    None => {
                        self.store_reserve(address, latency_ms, now);
                    },
                }
                FetchStep::Finished
            },
            _ => FetchStep::Finished,
        }
    }
}

// ---------------------------------------------------------------------------
// Checking the addresses in use
// ---------------------------------------------------------------------------

/// What comes next in a health check.
pub enum HealthStep {
    /// Try to connect to this address, which serves `port`.
    Probe { port: u16, address: String },
    /// Try to connect to this address out of the reserve, for `port`.
    TryReserve { port: u16, address: String },
    /// Wait before the next address is checked.
    Pause,
    /// Nothing more.
    Finished,
}

/// What a [`HealthStep`] says.
pub enum HealthStepView {
    Probe { port: u16, address: Seq<char> },
    TryReserve { port: u16, address: Seq<char> },
    Pause,
    Finished,
}

impl View for HealthStep {
    type V = HealthStepView;

    open spec fn view(&self) -> HealthStepView {
        match self {
            HealthStep::Probe { port, address } => HealthStepView::Probe {
                port: *port,
                address: address@,
            },
            HealthStep::TryReserve { port, address } => HealthStepView::TryReserve {
                port: *port,
                address: address@,
            },
            HealthStep::Pause => HealthStepView::Pause,
            HealthStep::Finished => HealthStepView::Finished,
        }
    }
}

/// A health check under way.
pub struct HealthCheck {
    pending: VecDeque<(u16, String)>,
    step: HealthStep,
}

/// What is left of a health check: the ports still to be checked, with their addresses, after
/// the step at hand.
pub struct HealthView {
    pub pending: Seq<(u16, Seq<char>)>,
    pub step: HealthStepView,
}

impl View for HealthCheck {
    type V = HealthView;

    closed spec fn view(&self) -> HealthView {
        HealthView {
            pending: self.pending@.map_values(|t: (u16, String)| (t.0, t.1@)),
            step: self.step@,
        }
    }
}

/// Check the first of the ports still to be checked.
pub open spec fn check_next(pending: Seq<(u16, Seq<char>)>) -> HealthView {
    if pending.len() == 0 {
        HealthView { pending, step: HealthStepView::Finished }
    } else {
        HealthView {
            pending: pending.drop_first(),
            step: HealthStepView::Probe { port: pending[0].0, address: pending[0].1 },
        }
    }
}

/// How a health check goes on while `port` is being supplied from the reserve.
pub open spec fn after_replenish(port: u16, step: ReplenishView) -> HealthStepView {
    match step {
        ReplenishView::Try { address } => HealthStepView::TryReserve { port, address },
        ReplenishView::Finished { .. } => HealthStepView::Pause,
    }
}

/// How a health check goes on: a port whose address answers is left alone; one whose address
/// does not is supplied from the reserve. `ok` tells whether the address of the step answered,
/// which was known at `now`.
pub open spec fn health_next(pool: pool::PoolView, check: HealthView, ok: bool, now: Instant) -> (
    pool::PoolView,
    HealthView,
) {
    match check.step {
        HealthStepView::Probe { port, .. } => if ok {
            (pool, (HealthView { step: HealthStepView::Pause, ..check }))
        } else {
            let (after, step) = replenish_next(pool.unavailable(port));
            (after, (HealthView { step: after_replenish(port, step), ..check }))
        },
        HealthStepView::TryReserve { port, address } => {
            let (after, step) = replenish_tried(pool, port, address, ok, now);
            (after, (HealthView { step: after_replenish(port, step), ..check }))
        },
        HealthStepView::Pause => (pool, check_next(check.pending)),
        HealthStepView::Finished => (pool, check),
    }
}

impl HealthCheck {
    /// What comes next.
    pub fn step(&self) -> (r: &HealthStep)
        ensures
            r@ == self@.step,
    {
        &self.step
    }

    /// Turns to the next port.
    fn take_next(&mut self)
        ensures
            final(self)@ == check_next(old(self)@.pending),
    {
        match self.pending.pop_front() {
            Some((port, address)) => {
                assert(self@.pending =~= old(self)@.pending.drop_first());
                assert(old(self)@.pending[0] == (port, address@));
                self.step = HealthStep::Probe { port, address };
            },
            None => {
                self.step = HealthStep::Finished;
            },
        }
    }

    fn replenishing(&mut self, port: u16, step: ReplenishStep)
        ensures
            final(self)@ == (HealthView {
                step: after_replenish(port, step@),
                ..old(self)@
            }),
    {
        self.step = match step {
            ReplenishStep::Try { address } => HealthStep::TryReserve { port, address },
            ReplenishStep::Finished { .. } => HealthStep::Pause,
        };
    }
}

impl IpPool {
    /// Starts to check the address of every port that hands one out.
    pub fn health_check(&self) -> (r: HealthCheck)
        ensures
            exists|pending: Seq<(u16, Seq<char>)>|
                {
                    &&& r@ == #[trigger] check_next(pending)
                    &&& pool::one_per_port(
                        pending,
                        self@.entries.dom().filter(|p: u16| self@.entries[p].usable()),
                    )
                    &&& forall|i: int|
                        0 <= i < pending.len() ==> self@.entries[(#[trigger] pending[i]).0].address
                            == pending[i].1
                },
    {
        let targets = self.usable_ports();
        let ghost pending = targets@.map_values(|t: (u16, String)| (t.0, t.1@));
        let mut r = HealthCheck { pending: targets, step: HealthStep::Pause };
        proof {
            assert(pool::ports_of(pending) =~= pool::ports_of(targets@));
        }
        r.take_next();
        r
    }

    /// Goes on with a health check; `ok` tells whether the address of its step answered just now.
    pub fn health_next(&mut self, check: &mut HealthCheck, ok: bool)
        ensures
            exists|now: Instant|
                (final(self)@, final(check)@) == #[trigger] health_next(
                    old(self)@,
                    old(check)@,
                    ok,
                    now,
                ),
    {
        self.health_next_at(check, ok, Instant::now());
    }

    /// Goes on with a health check; `ok` tells whether the address of its step answered, which was
    /// known at `now`.
    pub fn health_next_at(&mut self, check: &mut HealthCheck, ok: bool, now: Instant)
        ensures
            (final(self)@, final(check)@) == health_next(old(self)@, old(check)@, ok, now),
    {
        match &check.step {
            HealthStep::Probe { port, .. } => {
                if ok {
                    check.step = HealthStep::Pause;
                } else {
                    let port: u16 = *port;
                    let step = self.mark_unavailable(port);
                    check.replenishing(port, step);
                }
            },
            HealthStep::TryReserve { port, address } => {
                let port: u16 = *port;
                let address = address.clone();
                let step = self.replenish_tried_at(port, address, ok, now);
                check.replenishing(port, step);
            },
            HealthStep::Pause => {
                check.take_next();
            },
            HealthStep::Finished => {},
        }
    }
}

// ---------------------------------------------------------------------------
// Rounds of maintenance
// ---------------------------------------------------------------------------

/// What comes next in the upkeep of the pool.
#[derive(Clone, Copy, Debug, PartialEq, Eq, Structural)]
pub enum RoundStep {
    /// Look for an address.
    Fetch,
    /// Wait that many seconds.
    Wait { seconds: u64 },
    /// Remove what the reserve has kept for too long.
    Clean,
    /// Check the addresses in use.
    Check,
}

impl RoundStep {
    /// What comes after this step: between two fetches there is a pause, then the reserve is
    /// cleaned, then the addresses in use are checked.
    pub open spec fn after(self) -> RoundStep {
        match self {
            RoundStep::Fetch => RoundStep::Wait { seconds: FETCH_INTERVAL_SECS },
            RoundStep::Wait { .. } => RoundStep::Clean,
            RoundStep::Clean => RoundStep::Check,
            RoundStep::Check => RoundStep::Fetch,
        }
    }

    /// The first step: a pool just started is in want of an address.
    pub fn first() -> (r: RoundStep)
        ensures
            r == RoundStep::Fetch,
    {
        RoundStep::Fetch
    }

    /// The step after this one.
    pub fn next(self) -> (r: RoundStep)
        ensures
            r == self.after(),
    {
        match self {
            RoundStep::Fetch => RoundStep::Wait { seconds: FETCH_INTERVAL_SECS },
            RoundStep::Wait { .. } => RoundStep::Clean,
            RoundStep::Clean => RoundStep::Check,
            RoundStep::Check => RoundStep::Fetch,
        }
    }
}

/// Every round is the same: after a fetch come a pause of the set length, the cleaning of the
/// reserve and the check of the addresses in use, each once, and then the next fetch.
pub proof fn law_rounds_repeat()
    ensures
        RoundStep::Fetch.after() == (RoundStep::Wait { seconds: FETCH_INTERVAL_SECS }),
        RoundStep::Fetch.after().after() == RoundStep::Clean,
        RoundStep::Fetch.after().after().after() == RoundStep::Check,
        RoundStep::Fetch.after().after().after().after() == RoundStep::Fetch,
{
}

// ---------------------------------------------------------------------------
// Laws
// ---------------------------------------------------------------------------

/// Supplying `port` from the reserve, from `state` on, with these outcomes of the tries, each with
/// the time at which it was known.
pub open spec fn replenish_run(
    state: (pool::PoolView, ReplenishView),
    port: u16,
    outcomes: Seq<(bool, Instant)>,
) -> (pool::PoolView, ReplenishView)
    decreases outcomes.len(),
{
    match state.1 {
        ReplenishView::Try { address } => if outcomes.len() == 0 {
            state
        } else {
            replenish_run(
                replenish_tried(state.0, port, address, outcomes[0].0, outcomes[0].1),
                port,
                outcomes.drop_first(),
            )
        },
        ReplenishView::Finished { .. } => state,
    }
}

/// The pool without the `n` oldest addresses in its reserve.
pub open spec fn without_oldest(pool: pool::PoolView, n: nat) -> pool::PoolView {
    pool::PoolView { reserve: pool.reserve.skip(n as int), ..pool }
}

/// A port supplied from the reserve gets the oldest address that answers; those before it are
/// dropped, those after it stay.
pub proof fn law_replenish_takes_the_first_that_answers(
    pool: pool::PoolView,
    port: u16,
    outcomes: Seq<(bool, Instant)>,
    k: nat,
)
    requires
        k < outcomes.len(),
        k < pool.reserve.len(),
        outcomes[k as int].0,
        forall|j: int| 0 <= j < k ==> !(#[trigger] outcomes[j]).0,
    ensures
        replenish_run(replenish_next(pool), port, outcomes) == (
            without_oldest(pool, k + 1).assigned(
                port,
                pool.reserve[k as int].address,
                outcomes[k as int].1,
            ),
            ReplenishView::Finished { replaced: pool.entries.contains_key(port) },
        ),
    decreases k,
{
    let popped = pool.popped();
    if k == 0 {
        assert(popped.reserve =~= pool.reserve.skip(1));
        assert(popped =~= without_oldest(pool, 1));
        reveal_with_fuel(replenish_run, 2);
    } else {
        assert(!outcomes[0].0);
        let rest = outcomes.drop_first();
        assert forall|j: int| 0 <= j < k - 1 implies !(#[trigger] rest[j]).0 by {
            assert(rest[j] == outcomes[j + 1]);
        }
        law_replenish_takes_the_first_that_answers(popped, port, rest, (k - 1) as nat);
        assert(popped.reserve.skip(k as int) =~= pool.reserve.skip((k + 1) as int));
        assert(without_oldest(popped, k) =~= without_oldest(pool, k + 1));
        assert(popped.reserve[k - 1] == pool.reserve[k as int]);
    }
}

/// Where no address in the reserve answers, the port keeps what it had and the reserve ends up
/// empty.
pub proof fn law_replenish_gives_up_when_none_answers(
    pool: pool::PoolView,
    port: u16,
    outcomes: Seq<(bool, Instant)>,
)
    requires
        outcomes.len() >= pool.reserve.len(),
        forall|j: int| 0 <= j < pool.reserve.len() ==> !(#[trigger] outcomes[j]).0,
    ensures
        replenish_run(replenish_next(pool), port, outcomes) == (
            without_oldest(pool, pool.reserve.len()),
            ReplenishView::Finished { replaced: false },
        ),
    decreases pool.reserve.len(),
{
    if pool.reserve.len() == 0 {
        assert(pool.reserve.skip(0) =~= pool.reserve);
        assert(without_oldest(pool, 0) =~= pool);
    } else {
        let popped = pool.popped();
        let rest = outcomes.drop_first();
        assert(!outcomes[0].0);
        assert forall|j: int| 0 <= j < popped.reserve.len() implies !(#[trigger] rest[j]).0 by {
            assert(rest[j] == outcomes[j + 1]);
        }
        law_replenish_gives_up_when_none_answers(popped, port, rest);
        assert(popped.reserve.skip(popped.reserve.len() as int) =~= pool.reserve.skip(
            pool.reserve.len() as int,
        ));
        assert(without_oldest(popped, popped.reserve.len()) =~= without_oldest(
            pool,
            pool.reserve.len(),
        ));
    }
}

/// A port that is marked unavailable hands out an address again as soon as one in the reserve
/// answers, and hands out none where the reserve is empty.
pub proof fn law_dead_port_is_replenished(
    pool: pool::PoolView,
    port: u16,
    outcomes: Seq<(bool, Instant)>,
    k: nat,
)
    requires
        pool.entries.contains_key(port),
    ensures
        ({
            let after = replenish_run(replenish_next(pool.unavailable(port)), port, outcomes).0;
            &&& pool.reserve.len() == 0 ==> after.address(port) is None
            &&& k < outcomes.len() && k < pool.reserve.len() && outcomes[k as int].0 && (forall|
                j: int,
            |
                0 <= j < k ==> !(#[trigger] outcomes[j]).0)
                && pool.reserve[k as int].address.len() > 0 ==> after.address(port) == Some(
                pool.reserve[k as int].address,
            )
        }),
{
    let dead = pool.unavailable(port);
    if k < outcomes.len() && k < pool.reserve.len() && outcomes[k as int].0 && (forall|j: int|
        0 <= j < k ==> !(#[trigger] outcomes[j]).0) {
        law_replenish_takes_the_first_that_answers(dead, port, outcomes, k);
    }
}

/// Looking for an address, from `state` on, with these outcomes, each with the time at which it
/// was known.
pub open spec fn fetch_run(
    state: (pool::PoolView, FetchView),
    outcomes: Seq<(FetchEventView, Instant)>,
) -> (pool::PoolView, FetchView)
    decreases outcomes.len(),
{
    if state.1 is Finished || outcomes.len() == 0 {
        state
    } else {
        fetch_run(
            fetch_next(state.0, state.1, outcomes[0].0, outcomes[0].1),
            outcomes.drop_first(),
        )
    }
}

/// How often an address is asked for, from `state` on, with these outcomes.
pub open spec fn requests(
    state: (pool::PoolView, FetchView),
    outcomes: Seq<(FetchEventView, Instant)>,
) -> nat
    decreases outcomes.len(),
{
    let asked: nat = if state.1 is AskApi {
        1
    } else {
        0
    };
    if state.1 is Finished || outcomes.len() == 0 {
        asked
    } else {
        asked + requests(
            fetch_next(state.0, state.1, outcomes[0].0, outcomes[0].1),
            outcomes.drop_first(),
        )
    }
}

/// Once an address has been asked for, none is asked for again.
proof fn lemma_requests(
    state: (pool::PoolView, FetchView),
    outcomes: Seq<(FetchEventView, Instant)>,
)
    ensures
        requests(state, outcomes) <= 1,
        state.1 is TryFetched || state.1 is Finished ==> requests(state, outcomes) == 0,
    decreases outcomes.len(),
{
    if !(state.1 is Finished) && outcomes.len() > 0 {
        lemma_requests(
            fetch_next(state.0, state.1, outcomes[0].0, outcomes[0].1),
            outcomes.drop_first(),
        );
    }
}

/// Looking for an address asks for one at most once, whatever comes of it.
pub proof fn law_fetch_asks_at_most_once(
    pool: pool::PoolView,
    ages: Seq<(u16, u128)>,
    outcomes: Seq<(FetchEventView, Instant)>,
)
    ensures
        requests(fetch_start(pool, ages), outcomes) <= 1,
{
    lemma_requests(fetch_start(pool, ages), outcomes);
}

/// How many outcomes it takes at most until looking for an address is over.
pub open spec fn outcomes_left(state: (pool::PoolView, FetchView)) -> nat {
    match state.1 {
        FetchView::TryReserve { .. } => state.0.reserve.len() + 3,
        FetchView::AskApi { .. } => 2,
        FetchView::TryFetched { .. } => 1,
        FetchView::Finished => 0,
    }
}

proof fn lemma_fetch_ends(
    state: (pool::PoolView, FetchView),
    outcomes: Seq<(FetchEventView, Instant)>,
)
    requires
        outcomes.len() >= outcomes_left(state),
    ensures
        fetch_run(state, outcomes).1 is Finished,
    decreases outcomes.len(),
{
    if !(state.1 is Finished) {
        lemma_fetch_ends(
            fetch_next(state.0, state.1, outcomes[0].0, outcomes[0].1),
            outcomes.drop_first(),
        );
    }
}

/// Looking for an address comes to an end: after one try for each address in the reserve, one
/// answer and one more try at the latest.
pub proof fn law_fetch_comes_to_an_end(
    pool: pool::PoolView,
    ages: Seq<(u16, u128)>,
    outcomes: Seq<(FetchEventView, Instant)>,
)
    requires
        outcomes.len() >= pool.reserve.len() + 2,
    ensures
        fetch_run(fetch_start(pool, ages), outcomes).1 is Finished,
{
    lemma_fetch_ends(fetch_start(pool, ages), outcomes);
}

/// An address is asked for only where no port wants one, or where the reserve has none left for
/// the port that does.
pub proof fn law_fetch_prefers_the_reserve(
    pool: pool::PoolView,
    ages: Seq<(u16, u128)>,
    step: FetchView,
    event: FetchEventView,
    now: Instant,
)
    ensures
        fetch_start(pool, ages).1 is AskApi ==> pool.reserve.len() == 0 || pool.rotation_target(
            ages,
        ) is None,
        pool.rotation_target(ages) is Some && pool.reserve.len() > 0 ==> fetch_start(pool, ages).1
            == (FetchView::TryReserve {
            port: pool.rotation_target(ages).unwrap(),
            address: pool.reserve[0].address,
        }),
        fetch_next(pool, step, event, now).1 is AskApi ==> pool.reserve.len() == 0,
{
}

/// Whether the reserve is within its limit, and has room for an address that is to be stored.
pub open spec fn reserve_bounded(pool: pool::PoolView, step: FetchView) -> bool {
    &&& pool.reserve.len() <= RESERVE_LIMIT
    &&& (step is AskApi || step is TryFetched) && step.wanted_for() is None ==> pool.reserve.len()
        < RESERVE_LIMIT
}

proof fn lemma_reserve_bounded(
    state: (pool::PoolView, FetchView),
    outcomes: Seq<(FetchEventView, Instant)>,
)
    requires
        reserve_bounded(state.0, state.1),
    ensures
        fetch_run(state, outcomes).0.reserve.len() <= RESERVE_LIMIT,
    decreases outcomes.len(),
{
    if !(state.1 is Finished) && outcomes.len() > 0 {
        lemma_reserve_bounded(
            fetch_next(state.0, state.1, outcomes[0].0, outcomes[0].1),
            outcomes.drop_first(),
        );
    }
}

/// Looking for addresses never takes the reserve past its limit.
pub proof fn law_reserve_stays_within_its_limit(
    pool: pool::PoolView,
    ages: Seq<(u16, u128)>,
    outcomes: Seq<(FetchEventView, Instant)>,
)
    requires
        pool.reserve.len() <= RESERVE_LIMIT,
    ensures
        fetch_run(fetch_start(pool, ages), outcomes).0.reserve.len() <= RESERVE_LIMIT,
{
    lemma_reserve_bounded(fetch_start(pool, ages), outcomes);
}

/// Whether `after` is `before` without some of its oldest entries.
pub open spec fn is_rest_of(after: Seq<pool::ReserveView>, before: Seq<pool::ReserveView>) -> bool {
    exists|k: int| 0 <= k <= before.len() && after == #[trigger] before.skip(k)
}

proof fn lemma_fetch_shortens_the_reserve(
    state: (pool::PoolView, FetchView),
    outcomes: Seq<(FetchEventView, Instant)>,
)
    requires
        state.1.wanted_for() is Some || state.1 is Finished,
    ensures
        is_rest_of(fetch_run(state, outcomes).0.reserve, state.0.reserve),
    decreases outcomes.len(),
{
    let before = state.0.reserve;
    let after = fetch_run(state, outcomes).0.reserve;
    if state.1 is Finished || outcomes.len() == 0 {
        assert(after =~= before.skip(0));
    } else {
        let next = fetch_next(state.0, state.1, outcomes[0].0, outcomes[0].1);
        lemma_fetch_shortens_the_reserve(next, outcomes.drop_first());
        let k = choose|k: int|
            0 <= k <= next.0.reserve.len() && after == #[trigger] next.0.reserve.skip(k);
        if next.0.reserve.len() < before.len() {
            assert(after =~= before.skip(k + 1));
        } else {
            assert(after =~= before.skip(k));
        }
    }
}

/// A fetch for a port that wants an address only takes from the front of the reserve. One for the
/// reserve leaves what is there, and adds at most one address, at the back.
pub proof fn law_fetch_adds_at_most_one_to_the_reserve(
    pool: pool::PoolView,
    ages: Seq<(u16, u128)>,
    outcomes: Seq<(FetchEventView, Instant)>,
)
    ensures
        ({
            let after = fetch_run(fetch_start(pool, ages), outcomes).0.reserve;
            if pool.rotation_target(ages) is Some {
                is_rest_of(after, pool.reserve)
            } else {
                after == pool.reserve || after.len() > 0 && after.drop_last() == pool.reserve
            }
        }),
{
    let start = fetch_start(pool, ages);
    let after = fetch_run(start, outcomes).0.reserve;
    match pool.rotation_target(ages) {
        Some(_) => {
            lemma_fetch_shortens_the_reserve(start, outcomes);
            let k = choose|k: int|
                0 <= k <= start.0.reserve.len() && after == #[trigger] start.0.reserve.skip(k);
            if start.0.reserve.len() < pool.reserve.len() {
                assert(after =~= pool.reserve.skip(k + 1));
            } else {
                assert(after =~= pool.reserve.skip(k));
            }
        },
        None => {
            reveal_with_fuel(fetch_run, 4);
            if after != pool.reserve {
                assert(after.drop_last() =~= pool.reserve);
            }
        },
    }
}

/// Where no port wants an address and the reserve is full, nothing is asked for and nothing
/// changes.
pub proof fn law_full_reserve_is_left_alone(
    pool: pool::PoolView,
    ages: Seq<(u16, u128)>,
    outcomes: Seq<(FetchEventView, Instant)>,
)
    requires
        pool.rotation_target(ages) is None,
        pool.reserve.len() >= RESERVE_LIMIT,
    ensures
        fetch_run(fetch_start(pool, ages), outcomes) == (pool, FetchView::Finished),
        requests(fetch_start(pool, ages), outcomes) == 0,
{
}

proof fn lemma_fetch_keeps_the_others(
    state: (pool::PoolView, FetchView),
    outcomes: Seq<(FetchEventView, Instant)>,
    other: u16,
)
    requires
        state.1.wanted_for() != Some(other),
    ensures
        ({
            let after = fetch_run(state, outcomes).0;
            &&& after.entries.dom() =~= state.0.entries.dom()
            &&& state.0.entries.contains_key(other) ==> after.entries[other]
                == state.0.entries[other]
        }),
    decreases outcomes.len(),
{
    if !(state.1 is Finished) && outcomes.len() > 0 {
        let next = fetch_next(state.0, state.1, outcomes[0].0, outcomes[0].1);
        lemma_fetch_keeps_the_others(next, outcomes.drop_first(), other);
    }
}

/// Looking for an address adds and removes no port, and changes at most one entry: that of the
/// port that wants an address most urgently.
pub proof fn law_fetch_keeps_the_other_ports(
    pool: pool::PoolView,
    ages: Seq<(u16, u128)>,
    outcomes: Seq<(FetchEventView, Instant)>,
    other: u16,
)
    requires
        pool.rotation_target(ages) != Some(other),
    ensures
        ({
            let after = fetch_run(fetch_start(pool, ages), outcomes).0;
            &&& after.entries.dom() =~= pool.entries.dom()
            &&& pool.entries.contains_key(other) ==> after.entries[other] == pool.entries[other]
            &&& after.address(other) == pool.address(other)
        }),
{
    lemma_fetch_keeps_the_others(fetch_start(pool, ages), outcomes, other);
}

/// The port that wants an address most urgently gets the oldest one in the reserve that
/// answers; those before it are dropped, those after it stay.
pub proof fn law_fetch_assigns_the_first_that_answers(
    pool: pool::PoolView,
    port: u16,
    outcomes: Seq<(FetchEventView, Instant)>,
    k: nat,
)
    requires
        k < outcomes.len(),
        k < pool.reserve.len(),
        outcomes[k as int].0 matches FetchEventView::Tried(Some(_)),
        forall|j: int| 0 <= j < k ==> (#[trigger] outcomes[j]).0 == FetchEventView::Tried(None),
    ensures
        fetch_run(supply(pool, port), outcomes) == (
            without_oldest(pool, k + 1).assigned(
                port,
                pool.reserve[k as int].address,
                outcomes[k as int].1,
            ),
            FetchView::Finished,
        ),
        requests(supply(pool, port), outcomes) == 0,
    decreases k,
{
    let popped = pool.popped();
    if k == 0 {
        assert(popped.reserve =~= pool.reserve.skip(1));
        assert(popped =~= without_oldest(pool, 1));
        reveal_with_fuel(fetch_run, 2);
        reveal_with_fuel(requests, 2);
    } else {
        assert(outcomes[0].0 == FetchEventView::Tried(None));
        let rest = outcomes.drop_first();
        assert forall|j: int| 0 <= j < k - 1 implies (#[trigger] rest[j]).0
            == FetchEventView::Tried(None) by {
            assert(rest[j] == outcomes[j + 1]);
        }
        law_fetch_assigns_the_first_that_answers(popped, port, rest, (k - 1) as nat);
        assert(popped.reserve.skip(k as int) =~= pool.reserve.skip((k + 1) as int));
        assert(without_oldest(popped, k) =~= without_oldest(pool, k + 1));
        assert(popped.reserve[k - 1] == pool.reserve[k as int]);
    }
}

/// Where no address in the reserve answers, the reserve ends up empty, nothing else has changed,
/// and an address is asked for, exactly once.
pub proof fn law_fetch_asks_where_the_reserve_fails(
    pool: pool::PoolView,
    port: u16,
    outcomes: Seq<(FetchEventView, Instant)>,
)
    requires
        outcomes.len() >= pool.reserve.len(),
        forall|j: int|
            0 <= j < pool.reserve.len() ==> (#[trigger] outcomes[j]).0 == FetchEventView::Tried(
                None,
            ),
    ensures
        fetch_run(supply(pool, port), outcomes) == fetch_run(
            (
                without_oldest(pool, pool.reserve.len()),
                FetchView::AskApi { recipient: Some(port) },
            ),
            outcomes.skip(pool.reserve.len() as int),
        ),
        requests(supply(pool, port), outcomes) == 1,
    decreases pool.reserve.len(),
{
    let n = pool.reserve.len();
    if n == 0 {
        assert(pool.reserve.skip(0) =~= pool.reserve);
        assert(without_oldest(pool, 0) =~= pool);
        assert(outcomes.skip(0) =~= outcomes);
        lemma_requests(supply(pool, port), outcomes);
    } else {
        let popped = pool.popped();
        let rest = outcomes.drop_first();
        assert(outcomes[0].0 == FetchEventView::Tried(None));
        assert forall|j: int| 0 <= j < popped.reserve.len() implies (#[trigger] rest[j]).0
            == FetchEventView::Tried(None) by {
            assert(rest[j] == outcomes[j + 1]);
        }
        law_fetch_asks_where_the_reserve_fails(popped, port, rest);
        assert(rest.skip(n - 1) =~= outcomes.skip(n as int));
        assert(popped.reserve.skip(n - 1) =~= pool.reserve.skip(n as int));
        assert(without_oldest(popped, (n - 1) as nat) =~= without_oldest(pool, n));
    }
}

/// A fetched address that answers goes to the port that wanted it; where no port did, it goes
/// to the end of the reserve. One that does not answer changes nothing.
pub proof fn law_fetched_address_is_used(
    pool: pool::PoolView,
    recipient: Option<u16>,
    answer: Seq<char>,
    latency_ms: Option<u64>,
    answered: Instant,
    tried: Instant,
)
    requires
        fetched_ip(answer) is Some,
    ensures
        fetch_run(
            (pool, FetchView::AskApi { recipient }),
            seq![
                (FetchEventView::Answered(Some(answer)), answered),
                (FetchEventView::Tried(latency_ms), tried),
            ],
        ) == (
            match (recipient, latency_ms) {
                (Some(port), Some(_)) => pool.assigned(
                    port,
                    upstream_addr(fetched_ip(answer).unwrap()),
                    tried,
                ),
                (None, Some(latency_ms)) => pool.stored(
                    upstream_addr(fetched_ip(answer).unwrap()),
                    latency_ms,
                    tried,
                ),
                (_, None) => pool,
            },
            FetchView::Finished,
        ),
{
    let outcomes = seq![
        (FetchEventView::Answered(Some(answer)), answered),
        (FetchEventView::Tried(latency_ms), tried),
    ];
    assert(outcomes.drop_first()[0] == outcomes[1]);
    reveal_with_fuel(fetch_run, 3);
}

/// Where nothing is answered, or what is answered holds no address, nothing changes and no other
/// address is asked for.
pub proof fn law_answer_without_address_changes_nothing(
    pool: pool::PoolView,
    recipient: Option<u16>,
    outcomes: Seq<(FetchEventView, Instant)>,
)
    requires
        outcomes.len() > 0,
        outcomes[0].0 matches FetchEventView::Answered(answer) && (answer is None || fetched_ip(
            answer.unwrap(),
        ) is None),
    ensures
        fetch_run((pool, FetchView::AskApi { recipient }), outcomes) == (pool, FetchView::Finished),
        requests((pool, FetchView::AskApi { recipient }), outcomes) == 1,
{
    reveal_with_fuel(fetch_run, 2);
    reveal_with_fuel(requests, 2);
}

/// A health check, from `state` on, with these outcomes, each with the time at which it was known.
pub open spec fn health_run(
    state: (pool::PoolView, HealthView),
    outcomes: Seq<(bool, Instant)>,
) -> (pool::PoolView, HealthView)
    decreases outcomes.len(),
{
    if state.1.step is Finished || outcomes.len() == 0 {
        state
    } else {
        health_run(
            health_next(state.0, state.1, outcomes[0].0, outcomes[0].1),
            outcomes.drop_first(),
        )
    }
}

/// The ports whose address is found not to answer, from `state` on, with these outcomes.
pub open spec fn failed_ports(
    state: (pool::PoolView, HealthView),
    outcomes: Seq<(bool, Instant)>,
) -> Set<u16>
    decreases outcomes.len(),
{
    if state.1.step is Finished || outcomes.len() == 0 {
        Set::empty()
    } else {
        let later = failed_ports(
            health_next(state.0, state.1, outcomes[0].0, outcomes[0].1),
            outcomes.drop_first(),
        );
        match state.1.step {
            HealthStepView::Probe { port, .. } => if outcomes[0].0 {
                later
            } else {
                later.insert(port)
            },
            _ => later,
        }
    }
}

/// The addresses out of the reserve that answer, from `state` on, with these outcomes: for which
/// port each was tried, and when that was known.
pub open spec fn answering(
    state: (pool::PoolView, HealthView),
    outcomes: Seq<(bool, Instant)>,
) -> Set<(u16, Seq<char>, Instant)>
    decreases outcomes.len(),
{
    if state.1.step is Finished || outcomes.len() == 0 {
        Set::empty()
    } else {
        let later = answering(
            health_next(state.0, state.1, outcomes[0].0, outcomes[0].1),
            outcomes.drop_first(),
        );
        match state.1.step {
            HealthStepView::TryReserve { port, address } => if outcomes[0].0 {
                later.insert((port, address, outcomes[0].1))
            } else {
                later
            },
            _ => later,
        }
    }
}

/// A pool in which every address answers goes through a health check unchanged.
pub proof fn law_healthy_pool_is_left_alone(
    pool: pool::PoolView,
    pending: Seq<(u16, Seq<char>)>,
    outcomes: Seq<(bool, Instant)>,
)
    requires
        outcomes.len() >= 2 * pending.len(),
        forall|i: int| 0 <= i < outcomes.len() ==> (#[trigger] outcomes[i]).0,
    ensures
        health_run((pool, check_next(pending)), outcomes) == (
            pool,
            (HealthView { pending: Seq::empty(), step: HealthStepView::Finished }),
        ),
    decreases pending.len(),
{
    if pending.len() == 0 {
        assert(pending =~= Seq::empty());
    } else {
        let after_probe = outcomes.drop_first();
        let after_pause = after_probe.drop_first();
        assert(outcomes[0].0);
        assert(after_probe[0] == outcomes[1]);
        assert forall|i: int| 0 <= i < after_pause.len() implies (#[trigger] after_pause[i]).0 by {
            assert(after_pause[i] == outcomes[i + 2]);
        }
        law_healthy_pool_is_left_alone(pool, pending.drop_first(), after_pause);
        reveal_with_fuel(health_run, 3);
    }
}

/// The port that the step at hand is about, if it is about one.
pub open spec fn port_at_hand(step: HealthStepView) -> Option<u16> {
    match step {
        HealthStepView::Probe { port, .. } => Some(port),
        HealthStepView::TryReserve { port, .. } => Some(port),
        _ => None,
    }
}

/// Whether no port is to be checked twice.
pub open spec fn each_once(check: HealthView) -> bool {
    &&& pool::ports_of(check.pending).no_duplicates()
    &&& port_at_hand(check.step) matches Some(port) ==> !pool::ports_of(check.pending).contains(port)
}

/// Whether an address is in the reserve.
pub open spec fn in_reserve(pool: pool::PoolView, address: Seq<char>) -> bool {
    exists|i: int| 0 <= i < pool.reserve.len() && (#[trigger] pool.reserve[i]).address == address
}

/// Turning to the next port keeps each port to be checked once.
proof fn lemma_check_next(pending: Seq<(u16, Seq<char>)>)
    requires
        pool::ports_of(pending).no_duplicates(),
    ensures
        each_once(check_next(pending)),
        pending.len() > 0 ==> pool::ports_of(pending) == seq![pending[0].0] + pool::ports_of(
            pending.drop_first(),
        ),
{
    if pending.len() > 0 {
        let rest = pending.drop_first();
        let all = pool::ports_of(pending);
        let later = pool::ports_of(rest);
        assert forall|i: int| 0 <= i < later.len() implies later[i] == all[i + 1] by {}
        assert(all =~= seq![pending[0].0] + later);
        assert(all[0] == pending[0].0);
        assert forall|i: int, j: int| 0 <= i < j < later.len() implies later[i] != later[j] by {
            assert(all[i + 1] != all[j + 1]);
        }
        if later.contains(pending[0].0) {
            let i = choose|i: int| 0 <= i < later.len() && later[i] == pending[0].0;
            assert(all[i + 1] == all[0]);
        }
    }
}

/// What a health check, from `state` on, does to the entry of `port`.
proof fn lemma_health(
    state: (pool::PoolView, HealthView),
    outcomes: Seq<(bool, Instant)>,
    port: u16,
)
    requires
        each_once(state.1),
    ensures
        ({
            let before = state.0;
            let after = health_run(state, outcomes).0;
            let failed = failed_ports(state, outcomes);
            let entry = before.entries[port];
            let supplied = exists|address: Seq<char>, now: Instant| #[trigger]
                answering(state, outcomes).contains((port, address, now)) && after.entries[port]
                    == pool::EntryView::fresh(address, port, now);
            let at_hand = port_at_hand(state.1.step) == Some(port);
            let pending = pool::ports_of(state.1.pending).contains(port);
            &&& after.entries.dom() =~= before.entries.dom()
            &&& failed.contains(port) ==> pending || (at_hand && state.1.step is Probe)
            &&& before.entries.contains_key(port) ==> {
                &&& !failed.contains(port) && !(at_hand && state.1.step is TryReserve)
                    ==> after.entries[port] == entry
                &&& failed.contains(port) ==> supplied || after.entries[port] == (
                pool::EntryView { is_available: false, ..entry })
                &&& at_hand && state.1.step is TryReserve ==> supplied || after.entries[port]
                    == entry
            }
        }),
        forall|q: u16, address: Seq<char>, now: Instant| #[trigger]
            answering(state, outcomes).contains((q, address, now)) ==> {
                ||| in_reserve(state.0, address)
                ||| state.1.step == (HealthStepView::TryReserve { port: q, address })
            },
    decreases outcomes.len(),
{
    if !(state.1.step is Finished) && outcomes.len() > 0 {
        let ok = outcomes[0].0;
        let now = outcomes[0].1;
        let next = health_next(state.0, state.1, ok, now);
        let rest = outcomes.drop_first();
        if state.1.step is Pause {
            lemma_check_next(state.1.pending);
            let all = pool::ports_of(state.1.pending);
            if state.1.pending.len() > 0 {
                let later = pool::ports_of(state.1.pending.drop_first());
                assert(all.contains(port) <==> port == all[0] || later.contains(port)) by {
                    if all.contains(port) {
                        let i = choose|i: int| 0 <= i < all.len() && all[i] == port;
                        if i > 0 {
                            assert(later[i - 1] == port);
                        }
                    }
                    if later.contains(port) {
                        let i = choose|i: int| 0 <= i < later.len() && later[i] == port;
                        assert(all[i + 1] == port);
                    }
                }
            }
        }
        assert(each_once(next.1));
        lemma_health(next, rest, port);
        let later = answering(next, rest);
        let all = answering(state, outcomes);
        assert forall|q: u16, address: Seq<char>, at: Instant| #[trigger]
            all.contains((q, address, at)) implies in_reserve(state.0, address) || state.1.step == (
        HealthStepView::TryReserve { port: q, address }) by {
            if later.contains((q, address, at)) {
                if in_reserve(next.0, address) {
                    let i = choose|i: int|
                        0 <= i < next.0.reserve.len() && (#[trigger] next.0.reserve[i]).address
                            == address;
                    if next.0.reserve.len() < state.0.reserve.len() {
                        assert(state.0.reserve[i + 1] == next.0.reserve[i]);
                    } else {
                        assert(state.0.reserve[i] == next.0.reserve[i]);
                    }
                } else {
                    assert(state.0.reserve[0].address == address);
                }
            }
        }
        if let HealthStepView::TryReserve { port: q, address } = state.1.step {
            if ok {
                assert(all.contains((q, address, now)));
            }
        }
        assert forall|address: Seq<char>, at: Instant| #[trigger]
            later.contains((port, address, at)) implies all.contains((port, address, at)) by {}
    }
}

/// A health check as a whole. It adds and removes no port. A port that is not checked, or whose
/// address answers, keeps its entry. One whose address does not answer ends up unavailable, with
/// its entry as it was otherwise, or with an address out of the reserve that answered.
pub proof fn law_health_check_replaces_what_fails(
    pool: pool::PoolView,
    pending: Seq<(u16, Seq<char>)>,
    outcomes: Seq<(bool, Instant)>,
    port: u16,
)
    requires
        pool::ports_of(pending).no_duplicates(),
    ensures
        ({
            let start = (pool, check_next(pending));
            let after = health_run(start, outcomes).0;
            let failed = failed_ports(start, outcomes).contains(port);
            &&& after.entries.dom() =~= pool.entries.dom()
            &&& failed ==> pool::ports_of(pending).contains(port)
            &&& pool.entries.contains_key(port) ==> {
                &&& !failed ==> after.entries[port] == pool.entries[port]
                &&& failed ==> {
                    ||| after.entries[port] == (pool::EntryView {
                        is_available: false,
                        ..pool.entries[port]
                    })
                    ||| exists|address: Seq<char>, now: Instant|
                        {
                            &&& #[trigger] answering(start, outcomes).contains(
                                (port, address, now),
                            )
                            &&& in_reserve(pool, address)
                            &&& after.entries[port] == pool::EntryView::fresh(address, port, now)
                        }
                }
            }
        }),
{
    let start = (pool, check_next(pending));
    lemma_check_next(pending);
    lemma_health(start, outcomes, port);
    if pending.len() > 0 {
        let all = pool::ports_of(pending);
        let later = pool::ports_of(pending.drop_first());
        assert(all[0] == pending[0].0);
        if later.contains(port) {
            let i = choose|i: int| 0 <= i < later.len() && later[i] == port;
            assert(all[i + 1] == port);
        }
    }
}

/// How many outcomes it takes at most until a health check is over.
pub open spec fn checks_left(state: (pool::PoolView, HealthView)) -> nat {
    state.0.reserve.len() + 2 * state.1.pending.len() + match state.1.step {
        HealthStepView::Probe { .. } => 2nat,
        HealthStepView::TryReserve { .. } => 2nat,
        HealthStepView::Pause => 1nat,
        HealthStepView::Finished => 0nat,
    }
}

proof fn lemma_health_ends(
    state: (pool::PoolView, HealthView),
    outcomes: Seq<(bool, Instant)>,
)
    requires
        outcomes.len() >= checks_left(state),
    ensures
        health_run(state, outcomes).1.step is Finished,
        health_run(state, outcomes).0.reserve.len() <= state.0.reserve.len(),
    decreases outcomes.len(),
{
    if !(state.1.step is Finished) {
        let next = health_next(state.0, state.1, outcomes[0].0, outcomes[0].1);
        lemma_health_ends(next, outcomes.drop_first());
    }
}

/// A health check comes to an end, and puts nothing into the reserve: for each port it takes a
/// try and a pause, and beside these a try for each address in the reserve at the most.
pub proof fn law_health_check_comes_to_an_end(
    pool: pool::PoolView,
    pending: Seq<(u16, Seq<char>)>,
    outcomes: Seq<(bool, Instant)>,
)
    requires
        outcomes.len() >= pool.reserve.len() + 2 * pending.len(),
    ensures
        health_run((pool, check_next(pending)), outcomes).1.step is Finished,
        health_run((pool, check_next(pending)), outcomes).0.reserve.len() <= pool.reserve.len(),
{
    if pending.len() == 0 {
        assert(health_run((pool, check_next(pending)), outcomes).1.step is Finished);
    } else {
        lemma_health_ends((pool, check_next(pending)), outcomes);
    }
}

/// A port whose address does not answer hands out no address until one in the reserve answers.
pub proof fn law_dead_port_is_taken_out(
    pool: pool::PoolView,
    check: HealthView,
    port: u16,
    address: Seq<char>,
    now: Instant,
)
    requires
        check.step == (HealthStepView::Probe { port, address }),
    ensures
        health_next(pool, check, false, now).0.address(port) is None,
        pool.reserve.len() > 0 ==> health_next(pool, check, false, now).1.step
            == (HealthStepView::TryReserve { port, address: pool.reserve[0].address }),
        pool.reserve.len() == 0 ==> health_next(pool, check, false, now).1.step is Pause,
{
}

/// Maintenance neither adds nor drops a port, and every entry goes on bearing the number of its
/// port.
pub proof fn law_maintenance_keeps_the_ports(
    pool: pool::PoolView,
    ages: Seq<(u16, u128)>,
    step: FetchView,
    event: FetchEventView,
    check: HealthView,
    ok: bool,
    port: u16,
    address: Seq<char>,
    now: Instant,
)
    requires
        pool.well_formed(),
    ensures
        fetch_start(pool, ages).0.well_formed(),
        fetch_start(pool, ages).0.entries.dom() =~= pool.entries.dom(),
        fetch_next(pool, step, event, now).0.well_formed(),
        fetch_next(pool, step, event, now).0.entries.dom() =~= pool.entries.dom(),
        health_next(pool, check, ok, now).0.well_formed(),
        health_next(pool, check, ok, now).0.entries.dom() =~= pool.entries.dom(),
        replenish_next(pool).0.well_formed(),
        replenish_next(pool).0.entries.dom() =~= pool.entries.dom(),
        replenish_tried(pool, port, address, ok, now).0.well_formed(),
        replenish_tried(pool, port, address, ok, now).0.entries.dom() =~= pool.entries.dom(),
{
}

/// The pauses and the time limits: eleven seconds between two rounds, half a second after each
/// check, five seconds for a connection and ten for an answer of the API; fifty addresses are kept
/// in reserve.
pub proof fn law_times_and_limits()
    ensures
        FETCH_INTERVAL_SECS == 11,
        CHECK_PAUSE_MILLIS == 500,
        TRY_TIMEOUT_SECS == 5,
        FETCH_TIMEOUT_SECS == 10,
        RESERVE_LIMIT == 50,
{
}

/// The address in an answer is the text of the answer without the white space round it, whole and
/// as it stands. An answer without a text, or with one that starts with a brace, holds none.
pub proof fn law_answer_is_the_address(before: Seq<char>, s: Seq<char>, after: Seq<char>)
    requires
        text::all_white_space(before),
        text::all_white_space(after),
        s.len() > 0 ==> !text::is_white_space(s[0]) && !text::is_white_space(s.last()),
    ensures
        s.len() > 0 && s[0] != '{' ==> fetched_ip(before + s + after) == Some(s),
        s.len() == 0 || s[0] == '{' ==> fetched_ip(before + s + after) is None,
{
    text::law_trimming_leaves_the_text(before, s, after);
}

/// An address that names a port is used as it stands; one without a colon gets port 1080.
pub proof fn law_address_keeps_its_port(host: Seq<char>, port: u16)
    ensures
        upstream_addr(text::with_port(host, port)) == text::with_port(host, port),
        host.contains(':') ==> upstream_addr(host) == host,
        !host.contains(':') ==> upstream_addr(host) == text::with_port(host, 1080),
{
    text::law_port_stands_behind_the_host(host, port);
    assert(text::with_port(host, port).contains(':'));
    reveal_strlit(":1080");
    reveal_with_fuel(text::decimal, 5);
    assert(text::decimal(1080) =~= seq!['1', '0', '8', '0']);
    assert(host + ":1080"@ =~= text::with_port(host, 1080));
}

/// What the API answers is what is tried, and what is tried and answers is what the port hands out
/// or the reserve keeps: an address that names its port, with any white space round it.
pub proof fn law_answered_address_is_tried_and_assigned(
    pool: pool::PoolView,
    recipient: Option<u16>,
    before: Seq<char>,
    host: Seq<char>,
    port: u16,
    after: Seq<char>,
    latency_ms: u64,
    now: Instant,
    later: Instant,
)
    requires
        text::all_white_space(before),
        text::all_white_space(after),
        host.len() > 0,
        host[0] != '{',
        !text::is_white_space(host[0]),
    ensures
        ({
            let address = text::with_port(host, port);
            let answer = FetchEventView::Answered(Some(before + address + after));
            let (pool1, step1) = fetch_next(
                pool,
                FetchView::AskApi { recipient },
                answer,
                now,
            );
            let (pool2, step2) = fetch_next(
                pool1,
                step1,
                FetchEventView::Tried(Some(latency_ms)),
                later,
            );
            &&& pool1 == pool
            &&& step1 == (FetchView::TryFetched { recipient, address })
            &&& step2 is Finished
            &&& recipient matches Some(p) ==> pool2.reserve == pool.reserve && (
            pool.entries.contains_key(p) ==> pool2.address(p) == Some(address)
                && pool2.entries[p].created_at == later)
            &&& recipient is None ==> {
                &&& pool2.entries == pool.entries
                &&& pool2.reserve.drop_last() == pool.reserve
                &&& pool2.reserve.last().address == address
                &&& pool2.reserve.last().latency_ms == latency_ms
            }
        }),
{
    let address = text::with_port(host, port);
    text::law_port_stands_behind_the_host(host, port);
    assert(address.subrange(0, host.len() as int)[0] == host[0]);
    assert(address[0] == host[0]);
    let digits = address.skip((host.len() + 1) as int);
    assert(digits.last() == address.last());
    assert(text::is_digit(digits[digits.len() - 1]));
    law_answer_is_the_address(before, address, after);
    law_address_keeps_its_port(host, port);
    if recipient is None {
        assert(pool.stored(address, latency_ms, later).reserve.drop_last() =~= pool.reserve);
    }
}

/// Where no port wants an address, one is asked for to be kept in reserve, as long as there is
/// room; where a port does, the address is sought for the most urgent one.
pub proof fn law_fetch_is_for_the_most_urgent(pool: pool::PoolView, ages: Seq<(u16, u128)>)
    ensures
        ({
            let (after, step) = fetch_start(pool, ages);
            match pool.rotation_target(ages) {
                Some(port) => step.wanted_for() == Some(port) && (step is TryReserve
                    || step is AskApi),
                None => {
                    &&& after == pool
                    &&& pool.reserve.len() < 50 ==> step == (FetchView::AskApi { recipient: None })
                    &&& pool.reserve.len() >= 50 ==> step is Finished
                },
            }
        }),
{
}

/// The probes of a health check, from `state` on, with these outcomes: which port, and with which
/// address.
pub open spec fn probes(
    state: (pool::PoolView, HealthView),
    outcomes: Seq<(bool, Instant)>,
) -> Seq<(u16, Seq<char>)>
    decreases outcomes.len(),
{
    let here = match state.1.step {
        HealthStepView::Probe { port, address } => seq![(port, address)],
        _ => Seq::empty(),
    };
    if state.1.step is Finished || outcomes.len() == 0 {
        here
    } else {
        here + probes(
            health_next(state.0, state.1, outcomes[0].0, outcomes[0].1),
            outcomes.drop_first(),
        )
    }
}

/// How often a health check pauses, from `state` on, with these outcomes.
pub open spec fn pauses(
    state: (pool::PoolView, HealthView),
    outcomes: Seq<(bool, Instant)>,
) -> nat
    decreases outcomes.len(),
{
    let here: nat = if state.1.step is Pause {
        1
    } else {
        0
    };
    if state.1.step is Finished || outcomes.len() == 0 {
        here
    } else {
        here + pauses(
            health_next(state.0, state.1, outcomes[0].0, outcomes[0].1),
            outcomes.drop_first(),
        )
    }
}

proof fn lemma_probes(state: (pool::PoolView, HealthView), outcomes: Seq<(bool, Instant)>)
    requires
        health_run(state, outcomes).1.step is Finished,
        state.1.step is Finished ==> state.1.pending.len() == 0,
    ensures
        probes(state, outcomes) == match state.1.step {
            HealthStepView::Probe { port, address } => seq![(port, address)] + state.1.pending,
            _ => state.1.pending,
        },
        pauses(state, outcomes) == state.1.pending.len() + if state.1.step is Finished {
            0int
        } else {
            1int
        },
    decreases outcomes.len(),
{
    let none = Seq::<(u16, Seq<char>)>::empty();
    if !(state.1.step is Finished) {
        let next = health_next(state.0, state.1, outcomes[0].0, outcomes[0].1);
        lemma_probes(next, outcomes.drop_first());
        assert(none + state.1.pending =~= state.1.pending);
        if state.1.step is Pause {
            let pending = state.1.pending;
            if pending.len() > 0 {
                assert(pending =~= seq![pending[0]] + pending.drop_first());
                assert(none + pending =~= pending);
            } else {
                assert(none + pending =~= pending);
            }
        }
    } else {
        assert(none =~= state.1.pending);
    }
}

/// A health check that is over has tried the address of every port that was to be checked, each
/// once and in order, and has paused after each.
pub proof fn law_health_check_probes_every_port(
    pool: pool::PoolView,
    pending: Seq<(u16, Seq<char>)>,
    outcomes: Seq<(bool, Instant)>,
)
    requires
        health_run((pool, check_next(pending)), outcomes).1.step is Finished,
    ensures
        probes((pool, check_next(pending)), outcomes) == pending,
        pauses((pool, check_next(pending)), outcomes) == pending.len(),
{
    let start = (pool, check_next(pending));
    lemma_probes(start, outcomes);
    if pending.len() > 0 {
        assert(pending =~= seq![pending[0]] + pending.drop_first());
    }
}

/// A port that fails its check gets the oldest address in the reserve that answers, and what is
/// older is dropped; where none answers it stays unavailable and the reserve is used up. Then the
/// check pauses, and goes on with the same ports.
pub proof fn law_failed_port_gets_the_first_that_answers(
    pool: pool::PoolView,
    check: HealthView,
    port: u16,
    address: Seq<char>,
    outcomes: Seq<(bool, Instant)>,
    k: nat,
)
    requires
        check.step == (HealthStepView::Probe { port, address }),
        outcomes.len() > 0,
        !outcomes[0].0,
        forall|j: int| 1 <= j <= k ==> !(#[trigger] outcomes[j]).0,
        k <= pool.reserve.len(),
        k < pool.reserve.len() ==> outcomes.len() == k + 2 && outcomes[k as int + 1].0,
        k == pool.reserve.len() ==> outcomes.len() == k + 1,
    ensures
        health_run((pool, check), outcomes) == (
            if k < pool.reserve.len() {
                without_oldest(pool.unavailable(port), k + 1).assigned(
                    port,
                    pool.reserve[k as int].address,
                    outcomes[k as int + 1].1,
                )
            } else {
                without_oldest(pool.unavailable(port), k)
            },
            (HealthView { pending: check.pending, step: HealthStepView::Pause }),
        ),
{
    let dead = pool.unavailable(port);
    let rest = outcomes.drop_first();
    assert forall|j: int| 0 <= j < k implies !(#[trigger] rest[j]).0 by {
        assert(rest[j] == outcomes[j + 1]);
    }
    if k < pool.reserve.len() {
        assert(rest[k as int] == outcomes[k as int + 1]);
    }
    lemma_failed_port(dead, check, port, rest, k);
}

proof fn lemma_failed_port(
    pool: pool::PoolView,
    check: HealthView,
    port: u16,
    outcomes: Seq<(bool, Instant)>,
    k: nat,
)
    requires
        k <= pool.reserve.len(),
        forall|j: int| 0 <= j < k ==> !(#[trigger] outcomes[j]).0,
        k < pool.reserve.len() ==> outcomes.len() == k + 1 && outcomes[k as int].0,
        k == pool.reserve.len() ==> outcomes.len() == k,
    ensures
        ({
            let (after, step) = replenish_next(pool);
            health_run(
                (after, HealthView { pending: check.pending, step: after_replenish(port, step) }),
                outcomes,
            )
        }) == (
            if k < pool.reserve.len() {
                without_oldest(pool, k + 1).assigned(
                    port,
                    pool.reserve[k as int].address,
                    outcomes[k as int].1,
                )
            } else {
                without_oldest(pool, k)
            },
            (HealthView { pending: check.pending, step: HealthStepView::Pause }),
        ),
    decreases k,
{
    reveal_with_fuel(health_run, 2);
    if pool.reserve.len() == 0 {
        assert(pool.reserve.skip(0) =~= pool.reserve);
        assert(without_oldest(pool, 0) =~= pool);
    } else {
        let popped = pool.popped();
        if k == 0 {
            assert(popped.reserve =~= pool.reserve.skip(1));
            assert(popped =~= without_oldest(pool, 1));
        } else {
            let rest = outcomes.drop_first();
            assert(!outcomes[0].0);
            assert forall|j: int| 0 <= j < k - 1 implies !(#[trigger] rest[j]).0 by {
                assert(rest[j] == outcomes[j + 1]);
            }
            if k < pool.reserve.len() {
                assert(rest[k - 1] == outcomes[k as int]);
                assert(popped.reserve[k - 1] == pool.reserve[k as int]);
                assert(popped.reserve.skip(k as int) =~= pool.reserve.skip((k + 1) as int));
                assert(without_oldest(popped, k) =~= without_oldest(pool, k + 1));
            } else {
                assert(popped.reserve.skip(k - 1) =~= pool.reserve.skip(k as int));
                assert(without_oldest(popped, (k - 1) as nat) =~= without_oldest(pool, k));
            }
            lemma_failed_port(popped, check, port, rest, (k - 1) as nat);
        }
    }
}

} // verus!
