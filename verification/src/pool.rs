//! The pool: which upstream proxy serves which local port, and the reserve behind it.

use std::collections::{HashMap, VecDeque};
use std::time::Instant;
use vstd::prelude::*;

verus! {

/// How long an upstream address may serve, in nanoseconds.
pub const EXPIRY: u128 = 600_000_000_000;

/// The age from which an upstream address is due to be replaced soon, in nanoseconds.
pub const SOON_EXPIRY: u128 = 540_000_000_000;

/// How long a port may go unused before it counts as idle, in nanoseconds.
pub const IDLE_LIMIT: u128 = 303_000_000_000;

/// How many addresses the reserve takes in.
pub const RESERVE_LIMIT: usize = 50;

/// `std::time::Instant`, a reading of the monotonic clock. It is carried, never looked into.
#[verifier::external_type_specification]
#[verifier::external_body]
pub struct ExInstant(std::time::Instant);

/// `std::time::Instant::now`. Nothing is claimed of the reading: it is the time.
pub assume_specification[ std::time::Instant::now ]() -> (r: std::time::Instant);

/// The nanoseconds from one reading of the clock to another, by
/// `std::time::Instant::saturating_duration_since`.
pub uninterp spec fn nanos_between(from: std::time::Instant, to: std::time::Instant) -> u128;

/// `std::time::Instant::saturating_duration_since`, in nanoseconds: how long after `at` it is
/// `now`. The number is a function of the two readings, and more is not claimed of it.
#[verifier::external_body]
fn nanos_from(at: &Instant, now: &Instant) -> (r: u128)
    ensures
        r == nanos_between(*at, *now),
{
    now.saturating_duration_since(*at).as_nanos()
}

/// The upstream proxy that serves a local port.
#[derive(Debug)]
pub struct ProxyEntry {
    /// Host and port of the upstream proxy; empty while there is none.
    pub address: String,
    /// The local port.
    pub port: u16,
    /// When the address was assigned.
    pub created_at: Instant,
    /// How long after `created_at` the port was last used, in nanoseconds.
    pub last_used: u128,
    /// Whether the upstream proxy is believed to answer.
    pub is_available: bool,
}

impl Clone for ProxyEntry {
    fn clone(&self) -> (r: Self)
        ensures
            r == *self,
    {
        ProxyEntry {
            address: self.address.clone(),
            port: self.port,
            created_at: self.created_at,
            last_used: self.last_used,
            is_available: self.is_available,
        }
    }
}

/// Whether an address of this age has served its time.
pub open spec fn expired(age: nat) -> bool {
    age > EXPIRY
}

/// Whether an address of this age is soon to have served its time.
pub open spec fn soon_expiring(age: nat) -> bool {
    age > SOON_EXPIRY
}

/// How urgently an entry wants another address: not at all (0), when its address can serve, is
/// young and in use.
pub open spec fn urgency(usable: bool, expired: bool, soon: bool, idle: bool) -> u32 {
    if !usable {
        1000
    } else if expired {
        800
    } else if soon && idle {
        600
    } else if soon {
        400
    } else if idle {
        200
    } else {
        0
    }
}

/// What a [`ProxyEntry`] says.
pub struct EntryView {
    pub address: Seq<char>,
    pub port: u16,
    pub created_at: Instant,
    pub last_used: nat,
    pub is_available: bool,
}

impl EntryView {
    /// An entry made at `now`.
    pub open spec fn fresh(address: Seq<char>, port: u16, now: Instant) -> Self {
        EntryView { address, port, created_at: now, last_used: 0, is_available: true }
    }

    /// Whether the entry has an address that can be handed out.
    pub open spec fn usable(self) -> bool {
        self.is_available && self.address.len() > 0
    }

    /// How old the entry is at `now`, in nanoseconds.
    pub open spec fn age(self, now: Instant) -> nat {
        nanos_between(self.created_at, now) as nat
    }

    /// For how long the entry has gone unused when it is `age` nanoseconds old.
    pub open spec fn idle_time(self, age: nat) -> nat {
        if age > self.last_used {
            (age - self.last_used) as nat
        } else {
            0
        }
    }

    /// How urgently the entry wants another address when it is `age` nanoseconds old.
    pub open spec fn priority(self, age: nat) -> u32 {
        urgency(
            self.usable(),
            expired(age),
            soon_expiring(age),
            self.idle_time(age) > IDLE_LIMIT,
        )
    }
}

impl View for ProxyEntry {
    type V = EntryView;

    open spec fn view(&self) -> EntryView {
        EntryView {
            address: self.address@,
            port: self.port,
            created_at: self.created_at,
            last_used: self.last_used as nat,
            is_available: self.is_available,
        }
    }
}

impl ProxyEntry {
    /// An available entry, made now.
    pub fn new(address: String, port: u16) -> (r: Self)
        ensures
            exists|now: Instant| r@ == #[trigger] EntryView::fresh(address@, port, now),
    {
        Self::new_at(address, port, Instant::now())
    }

    /// An available entry, made at `now`.
    pub fn new_at(address: String, port: u16, now: Instant) -> (r: Self)
        ensures
            r@ == EntryView::fresh(address@, port, now),
    {
        ProxyEntry { address, port, created_at: now, last_used: 0, is_available: true }
    }

    /// Whether the address has served for more than ten minutes.
    pub fn is_expired(&self) -> (r: bool)
        ensures
            exists|now: Instant| r == expired(#[trigger] self@.age(now)),
    {
        let now = Instant::now();
        let age = nanos_from(&self.created_at, &now);
        let r = self.is_expired_at(age);
        assert(r == expired(self@.age(now)));
        r
    }

    /// Whether an address of this age has served for more than ten minutes.
    pub fn is_expired_at(&self, age: u128) -> (r: bool)
        ensures
            r == expired(age as nat),
    {
        age > EXPIRY
    }

    /// Whether the address has served for more than nine minutes.
    pub fn is_soon_expiring(&self) -> (r: bool)
        ensures
            exists|now: Instant| r == soon_expiring(#[trigger] self@.age(now)),
    {
        let now = Instant::now();
        let age = nanos_from(&self.created_at, &now);
        let r = self.is_soon_expiring_at(age);
        assert(r == soon_expiring(self@.age(now)));
        r
    }

    /// Whether an address of this age has served for more than nine minutes.
    pub fn is_soon_expiring_at(&self, age: u128) -> (r: bool)
        ensures
            r == soon_expiring(age as nat),
    {
        age > SOON_EXPIRY
    }

    /// Whether the port has gone unused for more than 303 seconds.
    pub fn is_idle(&self) -> (r: bool)
        ensures
            exists|now: Instant| r == (self@.idle_time(#[trigger] self@.age(now)) > IDLE_LIMIT),
    {
        let now = Instant::now();
        let age = nanos_from(&self.created_at, &now);
        let r = self.is_idle_at(age);
        assert(r == (self@.idle_time(self@.age(now)) > IDLE_LIMIT));
        r
    }

    /// Whether the port of an entry of this age has gone unused for more than 303 seconds.
    pub fn is_idle_at(&self, age: u128) -> (r: bool)
        ensures
            r == (self@.idle_time(age as nat) > IDLE_LIMIT),
    {
        age > self.last_used && age - self.last_used > IDLE_LIMIT
    }

    /// How urgently the entry wants another address now.
    pub fn rotation_priority(&self) -> (r: u32)
        ensures
            exists|now: Instant| r == self@.priority(#[trigger] self@.age(now)),
            !self@.usable() ==> r == 1000,
    {
        let now = Instant::now();
        let age = nanos_from(&self.created_at, &now);
        let r = self.rotation_priority_at(age);
        assert(r == self@.priority(self@.age(now)));
        r
    }

    /// How urgently the entry wants another address when it is `age` nanoseconds old.
    pub fn rotation_priority_at(&self, age: u128) -> (r: u32)
        ensures
            r == self@.priority(age as nat),
    {
        if !self.is_available || self.address.as_str().is_empty() {
            return 1000;
        }
        if self.is_expired_at(age) {
            return 800;
        }
        if self.is_soon_expiring_at(age) && self.is_idle_at(age) {
            return 600;
        }
        if self.is_soon_expiring_at(age) {
            return 400;
        }
        if self.is_idle_at(age) {
            return 200;
        }
        0
    }

    /// Whether the entry wants another address now.
    pub fn needs_rotation(&self) -> (r: bool)
        ensures
            exists|now: Instant| r == (self@.priority(#[trigger] self@.age(now)) > 0),
            !self@.usable() ==> r,
    {
        let now = Instant::now();
        let age = nanos_from(&self.created_at, &now);
        let r = self.needs_rotation_at(age);
        assert(r == (self@.priority(self@.age(now)) > 0));
        r
    }

    /// Whether the entry wants another address when it is `age` nanoseconds old.
    pub fn needs_rotation_at(&self, age: u128) -> (r: bool)
        ensures
            r == (self@.priority(age as nat) > 0),
    {
        self.rotation_priority_at(age) > 0
    }
}

/// An upstream address that answered when it was tried, kept for later.
#[derive(Debug)]
pub struct ReserveEntry {
    /// Host and port of the upstream proxy.
    pub address: String,
    /// When the address was stored.
    pub created_at: Instant,
    /// How long it took to answer, in milliseconds.
    pub latency_ms: u64,
}

impl Clone for ReserveEntry {
    fn clone(&self) -> (r: Self)
        ensures
            r == *self,
    {
        ReserveEntry {
            address: self.address.clone(),
            created_at: self.created_at,
            latency_ms: self.latency_ms,
        }
    }
}

impl ReserveEntry {
    /// A reserve entry, stored now.
    pub fn new(address: String, latency_ms: u64) -> (r: Self)
        ensures
            exists|now: Instant|
                r@ == #[trigger] ReserveView::stored_at(address@, latency_ms, now),
    {
        Self::new_at(address, latency_ms, Instant::now())
    }

    /// A reserve entry, stored at `now`.
    pub fn new_at(address: String, latency_ms: u64, now: Instant) -> (r: Self)
        ensures
            r@ == ReserveView::stored_at(address@, latency_ms, now),
    {
        ReserveEntry { address, created_at: now, latency_ms }
    }

    /// Whether the address has been kept for more than ten minutes.
    pub fn is_expired(&self) -> (r: bool)
        ensures
            exists|now: Instant| r == expired(#[trigger] self@.age(now)),
    {
        let now = Instant::now();
        let age = nanos_from(&self.created_at, &now);
        let r = self.is_expired_at(age);
        assert(r == expired(self@.age(now)));
        r
    }

    /// Whether an address kept for `age` nanoseconds has been kept for more than ten minutes.
    pub fn is_expired_at(&self, age: u128) -> (r: bool)
        ensures
            r == expired(age as nat),
    {
        age > EXPIRY
    }
}

/// What a [`ReserveEntry`] says.
pub struct ReserveView {
    pub address: Seq<char>,
    pub created_at: Instant,
    pub latency_ms: u64,
}

impl ReserveView {
    /// A reserve entry stored at `now`.
    pub open spec fn stored_at(address: Seq<char>, latency_ms: u64, now: Instant) -> Self {
        ReserveView { address, created_at: now, latency_ms }
    }

    /// How long the address has been kept at `now`, in nanoseconds.
    pub open spec fn age(self, now: Instant) -> nat {
        nanos_between(self.created_at, now) as nat
    }
}

impl View for ReserveEntry {
    type V = ReserveView;

    open spec fn view(&self) -> ReserveView {
        ReserveView {
            address: self.address@,
            created_at: self.created_at,
            latency_ms: self.latency_ms,
        }
    }
}

/// What the pool holds.
#[verifier::ext_equal]
pub struct PoolView {
    /// The entry of each local port.
    pub entries: Map<u16, EntryView>,
    /// The addresses kept for later, oldest first.
    pub reserve: Seq<ReserveView>,
    pub port_range: (u16, u16),
    pub fetch_url: Seq<char>,
    pub proxy_username: Seq<char>,
    pub proxy_password: Seq<char>,
}

impl PoolView {
    /// Every entry bears the number of the port that it stands for.
    pub open spec fn well_formed(self) -> bool {
        forall|port: u16| #[trigger]
            self.entries.contains_key(port) ==> self.entries[port].port == port
    }

    /// The address that `port` hands out.
    pub open spec fn address(self, port: u16) -> Option<Seq<char>> {
        if self.entries.contains_key(port) && self.entries[port].usable() {
            Some(self.entries[port].address)
        } else {
            None
        }
    }

    /// How urgently the port of `reading` wants another address at the age in `reading`.
    pub open spec fn urgency(self, reading: (u16, u128)) -> u32 {
        if self.entries.contains_key(reading.0) {
            self.entries[reading.0].priority(reading.1 as nat)
        } else {
            0
        }
    }

    /// Whether the port of the reading at `i` wants another address, more urgently than those
    /// read before it and no less urgently than those read after it.
    pub open spec fn most_urgent(self, ages: Seq<(u16, u128)>, i: int) -> bool {
        &&& 0 <= i < ages.len()
        &&& self.urgency(ages[i]) > 0
        &&& forall|j: int|
            0 <= j < ages.len() ==> #[trigger] self.urgency(ages[j]) <= self.urgency(ages[i])
        &&& forall|j: int|
            0 <= j < i ==> #[trigger] self.urgency(ages[j]) < self.urgency(ages[i])
    }

    /// The port that is to get another address first.
    pub open spec fn rotation_target(self, ages: Seq<(u16, u128)>) -> Option<u16> {
        if exists|i: int| self.most_urgent(ages, i) {
            Some(ages[choose|i: int| self.most_urgent(ages, i)].0)
        } else {
            None
        }
    }

    /// The pool with the entry of `port`, if there is one, replaced by `entry`.
    pub open spec fn replaced(self, port: u16, entry: EntryView) -> PoolView {
        if self.entries.contains_key(port) {
            PoolView { entries: self.entries.insert(port, entry), ..self }
        } else {
            self
        }
    }

    /// The pool with an entry for `port` made at `now`, whether or not it had one.
    pub open spec fn set(self, port: u16, address: Seq<char>, now: Instant) -> PoolView {
        PoolView {
            entries: self.entries.insert(port, EntryView::fresh(address, port, now)),
            ..self
        }
    }

    /// The pool with an entry made at `now`, without an address, for every port of its range.
    pub open spec fn started(self, now: Instant) -> PoolView {
        PoolView {
            entries: self.entries.union_prefer_right(
                Map::new(
                    |p: u16| self.port_range.0 <= p <= self.port_range.1,
                    |p: u16| EntryView::fresh(Seq::empty(), p, now),
                ),
            ),
            ..self
        }
    }

    /// The pool after `address` has been assigned to `port` at `now`, if the pool has that port.
    pub open spec fn assigned(self, port: u16, address: Seq<char>, now: Instant) -> PoolView {
        self.replaced(port, EntryView::fresh(address, port, now))
    }

    /// The pool after `port` has been used when its entry was `age` nanoseconds old.
    pub open spec fn used(self, port: u16, age: nat) -> PoolView {
        self.replaced(port, (EntryView { last_used: age, ..self.entries[port] }))
    }

    /// The pool after the upstream proxy of `port` has been found not to answer.
    pub open spec fn unavailable(self, port: u16) -> PoolView {
        self.replaced(port, (EntryView { is_available: false, ..self.entries[port] }))
    }

    /// The pool without the oldest address in the reserve.
    pub open spec fn popped(self) -> PoolView {
        PoolView { reserve: self.reserve.drop_first(), ..self }
    }

    /// The pool with one more address in the reserve, stored at `now`.
    pub open spec fn stored(self, address: Seq<char>, latency_ms: u64, now: Instant) -> PoolView {
        PoolView {
            reserve: self.reserve.push(ReserveView::stored_at(address, latency_ms, now)),
            ..self
        }
    }
}

/// The ports of readings, in order.
pub open spec fn ports_of<T>(readings: Seq<(u16, T)>) -> Seq<u16> {
    readings.map_values(|r: (u16, T)| r.0)
}

/// Whether `readings` holds exactly one reading of each of the ports.
pub open spec fn one_per_port<T>(readings: Seq<(u16, T)>, ports: Set<u16>) -> bool {
    ports_of(readings).no_duplicates() && ports_of(readings).to_set() == ports
}

/// The reserve entries whose age, given in the same order, is not past the limit.
pub open spec fn unexpired<T>(reserve: Seq<T>, ages: Seq<u128>) -> Seq<T>
    decreases reserve.len(),
{
    if reserve.len() == 0 {
        Seq::empty()
    } else {
        let rest = unexpired(reserve.drop_last(), ages.drop_last());
        if expired(ages.last() as nat) {
            rest
        } else {
            rest.push(reserve.last())
        }
    }
}

/// How long each entry of the reserve has been kept at `now`, in the same order.
pub open spec fn reserve_ages(reserve: Seq<ReserveView>, now: Instant) -> Seq<u128> {
    reserve.map_values(|e: ReserveView| nanos_between(e.created_at, now))
}

/// Whether `ages` holds the ages at `now` of the entries of the ports in it.
pub open spec fn read_at(ages: Seq<(u16, u128)>, pool: PoolView, now: Instant) -> bool {
    forall|i: int|
        0 <= i < ages.len() ==> (#[trigger] ages[i]).1 == nanos_between(
            pool.entries[ages[i].0].created_at,
            now,
        )
}

/// Filtering a sequence without duplicates gives one, with the elements that pass.
proof fn lemma_filter_set(s: Seq<u16>, p: spec_fn(u16) -> bool)
    requires
        s.no_duplicates(),
    ensures
        s.filter(p).no_duplicates(),
        s.filter(p).to_set() =~= s.to_set().filter(p),
    decreases s.len(),
{
    reveal(Seq::filter);
    if s.len() > 0 {
        let init = s.drop_last();
        assert(init.no_duplicates());
        lemma_filter_set(init, p);
        assert forall|x: u16| init.filter(p).contains(x) implies x != s.last() by {
            assert(init.filter(p).to_set().contains(x));
            assert(init.to_set().contains(x));
        }
        assert(s.filter(p).no_duplicates()) by {
            if p(s.last()) {
                let f = init.filter(p);
                let g = s.filter(p);
                assert(g == f.push(s.last()));
                assert forall|i: int, j: int| 0 <= i < j < g.len() implies g[i] != g[j] by {
                    if j == f.len() {
                        assert(f.contains(f[i]));
                    }
                }
            }
        }
        assert forall|x: u16| s.filter(p).to_set().contains(x) <==> s.to_set().filter(
            p,
        ).contains(x) by {
            assert(init.filter(p).to_set().contains(x) <==> init.to_set().filter(p).contains(x));
            assert(s == init.push(s.last()));
            if s.contains(x) {
                let i = choose|i: int| 0 <= i < s.len() && s[i] == x;
                if i < init.len() {
                    assert(init[i] == x);
                }
            }
            if init.filter(p).contains(x) && p(s.last()) {
                let i = choose|i: int|
                    0 <= i < init.filter(p).len() && init.filter(p)[i] == x;
                assert(init.filter(p).push(s.last())[i] == x);
            }
            if p(s.last()) {
                assert(init.filter(p).push(s.last())[init.filter(p).len() as int] == s.last());
            }
            if init.contains(x) {
                let i = choose|i: int| 0 <= i < init.len() && init[i] == x;
                assert(s[i] == x);
            }
        }
    }
}

/// The local ports with their upstream proxies, the reserve, and what it takes to fetch more.
pub struct IpPool {
    pool: HashMap<u16, ProxyEntry>,
    reserve: VecDeque<ReserveEntry>,
    port_range: (u16, u16),
    fetch_url: String,
    proxy_username: String,
    proxy_password: String,
}

impl View for IpPool {
    type V = PoolView;

    closed spec fn view(&self) -> PoolView {
        PoolView {
            entries: self.pool@.map_values(|e: ProxyEntry| e@),
            reserve: self.reserve@.map_values(|e: ReserveEntry| e@),
            port_range: self.port_range,
            fetch_url: self.fetch_url@,
            proxy_username: self.proxy_username@,
            proxy_password: self.proxy_password@,
        }
    }
}

impl IpPool {
    /// A pool without entries and with nothing in reserve. The two intervals are not used.
    pub fn new(
        port_range: (u16, u16),
        fetch_url: String,
        _fetch_interval_secs: u64,
        _check_interval_secs: u64,
        proxy_username: String,
        proxy_password: String,
    ) -> (r: Self)
        ensures
            r@ == (PoolView {
                entries: Map::empty(),
                reserve: Seq::empty(),
                port_range,
                fetch_url: fetch_url@,
                proxy_username: proxy_username@,
                proxy_password: proxy_password@,
            }),
            r@.well_formed(),
    {
        let r = IpPool {
            pool: HashMap::new(),
            reserve: VecDeque::new(),
            port_range,
            fetch_url,
            proxy_username,
            proxy_password,
        };
        assert(r@.entries =~= Map::empty());
        assert(r@.reserve =~= Seq::empty());
        r
    }

    /// Puts `entry` in the place of the entry of `port`.
    fn put(&mut self, port: u16, entry: ProxyEntry)
        ensures
            final(self)@ == (PoolView {
                entries: old(self)@.entries.insert(port, entry@),
                ..old(self)@
            }),
    {
        self.pool.insert(port, entry);
        assert(self@.entries =~= old(self)@.entries.insert(port, entry@));
    }

    /// Gives every port of the range an entry that has no address yet, made now.
    pub fn start(&mut self)
        ensures
            exists|now: Instant| final(self)@ == #[trigger] old(self)@.started(now),
    {
        self.start_at(Instant::now());
    }

    /// Gives every port of the range an entry that has no address yet, made at `now`.
    pub fn start_at(&mut self, now: Instant)
        ensures
            final(self)@ == old(self)@.started(now),
    {
        let first = self.port_range.0;
        let last = self.port_range.1;
        let ghost before = self@;
        let mut next: u32 = first as u32;
        while next <= last as u32
            invariant
                first as u32 <= next,
                first <= last ==> next <= last + 1,
                first > last ==> next == first,
                first == before.port_range.0,
                last == before.port_range.1,
                self@ == (PoolView {
                    entries: before.entries.union_prefer_right(
                        Map::new(
                            |p: u16| first <= p < next,
                            |p: u16| EntryView::fresh(Seq::empty(), p, now),
                        ),
                    ),
                    ..before
                }),
            decreases last as int + 1 - next,
        {
            let port = next as u16;
            self.put(port, ProxyEntry::new_at(String::new(), port, now));
            next = next + 1;
            assert(self@.entries =~= before.entries.union_prefer_right(
                Map::new(
                    |p: u16| first <= p < next,
                    |p: u16| EntryView::fresh(Seq::empty(), p, now),
                ),
            ));
        }
        assert(self@.entries =~= before.entries.union_prefer_right(
            Map::new(
                |p: u16| before.port_range.0 <= p <= before.port_range.1,
                |p: u16| EntryView::fresh(Seq::empty(), p, now),
            ),
        ));
    }

    /// Removes what the reserve has kept for too long.
    pub fn clean_expired_reserve(&mut self)
        ensures
            exists|now: Instant|
                final(self)@ == (PoolView {
                    reserve: unexpired(
                        old(self)@.reserve,
                        #[trigger] reserve_ages(old(self)@.reserve, now),
                    ),
                    ..old(self)@
                }),
    {
        let now = Instant::now();
        let mut ages: Vec<u128> = Vec::new();
        let mut i: usize = 0;
        while i < self.reserve.len()
            invariant
                i <= self.reserve@.len(),
                self@ == old(self)@,
                ages@ =~= reserve_ages(self@.reserve, now).take(i as int),
            decreases self.reserve@.len() - i,
        {
            ages.push(nanos_from(&self.reserve[i].created_at, &now));
            i = i + 1;
        }
        assert(ages@ =~= reserve_ages(self@.reserve, now));
        self.clean_expired_reserve_at(&ages);
    }

    /// Removes what the reserve has kept for too long, its entries having the ages `ages`.
    pub fn clean_expired_reserve_at(&mut self, ages: &Vec<u128>)
        requires
            ages@.len() == old(self)@.reserve.len(),
        ensures
            final(self)@ == (PoolView {
                reserve: unexpired(old(self)@.reserve, ages@),
                ..old(self)@
            }),
    {
        let ghost all = self.reserve@;
        let ghost views = self@.reserve;
        let mut kept: VecDeque<ReserveEntry> = VecDeque::new();
        let mut i: usize = 0;
        while i < ages.len()
            invariant
                i <= ages@.len(),
                ages@.len() == all.len(),
                self.reserve@ == all.skip(i as int),
                self.pool == old(self).pool,
                self.port_range == old(self).port_range,
                self.fetch_url == old(self).fetch_url,
                self.proxy_username == old(self).proxy_username,
                self.proxy_password == old(self).proxy_password,
                kept@ == unexpired(all.take(i as int), ages@.take(i as int)),
                views == all.map_values(|e: ReserveEntry| e@),
                kept@.map_values(|e: ReserveEntry| e@) == unexpired(
                    views.take(i as int),
                    ages@.take(i as int),
                ),
            decreases ages@.len() - i,
        {
            let ghost kept_before = kept@;
            let next = self.reserve.pop_front();
            proof {
                assert(all.skip(i as int).subrange(1, all.len() - i) == all.skip(i + 1));
                assert(all.take(i + 1).drop_last() == all.take(i as int));
                assert(ages@.take(i + 1).drop_last() == ages@.take(i as int));
                assert(views.take(i + 1).drop_last() == views.take(i as int));
                assert(views.take(i + 1).last() == all[i as int]@);
            }
            if let Some(entry) = next {
                if !entry.is_expired_at(ages[i]) {
                    kept.push_back(entry);
                    assert(kept@.map_values(|e: ReserveEntry| e@) =~= kept_before.map_values(
                        |e: ReserveEntry| e@,
                    ).push(entry@));
                }
            }
            i = i + 1;
        }
        proof {
            assert(all.take(all.len() as int) == all);
            assert(views.take(all.len() as int) == views);
            assert(ages@.take(all.len() as int) == ages@);
        }
        self.reserve = kept;
    }

    /// Takes the oldest address out of the reserve.
    pub(crate) fn pop_reserve(&mut self) -> (r: Option<String>)
        ensures
            match r {
                Some(address) => {
                    &&& old(self)@.reserve.len() > 0
                    &&& address@ == old(self)@.reserve[0].address
                    &&& final(self)@ == old(self)@.popped()
                },
                None => old(self)@.reserve.len() == 0 && final(self)@ == old(self)@,
            },
    {
        let ghost all = self.reserve@;
        let r = self.reserve.pop_front();
        match r {
            Some(entry) => {
                assert(self@.reserve =~= old(self)@.reserve.drop_first());
                assert(old(self)@.reserve[0] == all[0]@);
                Some(entry.address)
            },
            None => None,
        }
    }

    /// Keeps one more address in the reserve, stored at `now`.
    pub(crate) fn store_reserve(&mut self, address: String, latency_ms: u64, now: Instant)
        ensures
            final(self)@ == old(self)@.stored(address@, latency_ms, now),
    {
        self.reserve.push_back(ReserveEntry::new_at(address, latency_ms, now));
        assert(self@.reserve =~= old(self)@.stored(address@, latency_ms, now).reserve);
    }

    /// Gives `port` the address `address` at `now`, if the pool has that port, and says whether it
    /// has.
    pub(crate) fn assign(&mut self, port: u16, address: String, now: Instant) -> (r: bool)
        ensures
            final(self)@ == old(self)@.assigned(port, address@, now),
            r == old(self)@.entries.contains_key(port),
    {
        if self.pool.contains_key(&port) {
            self.put(port, ProxyEntry::new_at(address, port, now));
            true
        } else {
            false
        }
    }

    /// Notes that `port` is being used now.
    pub fn mark_used(&mut self, port: u16)
        ensures
            exists|now: Instant|
                final(self)@ == old(self)@.used(
                    port,
                    #[trigger] old(self)@.entries[port].age(now),
                ),
    {
        let now = Instant::now();
        let age = self.age_of(port, &now);
        self.mark_used_at(port, age);
        assert(self@ == old(self)@.used(port, old(self)@.entries[port].age(now)));
    }

    /// How old the entry of `port` is at `now`, in nanoseconds; zero where there is none.
    pub(crate) fn age_of(&self, port: u16, now: &Instant) -> (r: u128)
        ensures
            r == if self@.entries.contains_key(port) {
                self@.entries[port].age(*now)
            } else {
                0
            },
    {
        match self.pool.get(&port) {
            Some(entry) => nanos_from(&entry.created_at, now),
            None => 0,
        }
    }

    /// Notes that `port` is being used when its entry is `age` nanoseconds old.
    pub fn mark_used_at(&mut self, port: u16, age: u128)
        ensures
            final(self)@ == old(self)@.used(port, age as nat),
    {
        match self.pool.get(&port) {
            Some(entry) => {
                let mut changed = entry.clone();
                changed.last_used = age;
                self.put(port, changed);
            },
            None => {},
        }
    }

    /// Notes that the upstream proxy of `port` does not answer.
    pub(crate) fn set_unavailable(&mut self, port: u16)
        ensures
            final(self)@ == old(self)@.unavailable(port),
    {
        match self.pool.get(&port) {
            Some(entry) => {
                let mut changed = entry.clone();
                changed.is_available = false;
                self.put(port, changed);
            },
            None => {},
        }
    }

    /// How old the entry of each port is at `now`, in nanoseconds.
    pub(crate) fn ages(&self, now: &Instant) -> (r: Vec<(u16, u128)>)
        ensures
            one_per_port(r@, self@.entries.dom()),
            read_at(r@, self@, *now),
    {
        let ports = self.get_all_ports();
        let mut out: Vec<(u16, u128)> = Vec::new();
        let mut i: usize = 0;
        while i < ports.len()
            invariant
                i <= ports@.len(),
                ports@.to_set() == self@.entries.dom(),
                ports_of(out@) =~= ports@.take(i as int),
                read_at(out@, self@, *now),
            decreases ports@.len() - i,
        {
            let port = ports[i];
            assert(ports@.to_set().contains(port));
            let age = self.age_of(port, now);
            let ghost before = out@;
            out.push((port, age));
            assert(ports_of(out@) =~= ports_of(before).push(port));
            assert(ports@.take(i + 1) =~= ports@.take(i as int).push(port));
            i = i + 1;
        }
        assert(ports_of(out@) =~= ports@);
        out
    }

    /// The port that is to get another address first, by the ages of the entries.
    pub(crate) fn rotation_target(&self, ages: &Vec<(u16, u128)>) -> (r: Option<u16>)
        ensures
            r == self@.rotation_target(ages@),
    {
        let mut best: u32 = 0;
        let mut target: Option<u16> = None;
        let ghost mut best_at: int = -1;
        let mut i: usize = 0;
        while i < ages.len()
            invariant
                i <= ages@.len(),
                forall|j: int| 0 <= j < i ==> #[trigger] self@.urgency(ages@[j]) <= best,
                target is None ==> best == 0,
                target matches Some(port) ==> {
                    &&& 0 <= best_at < i
                    &&& best > 0
                    &&& ages@[best_at].0 == port
                    &&& self@.urgency(ages@[best_at]) == best
                    &&& forall|j: int|
                        0 <= j < best_at ==> #[trigger] self@.urgency(ages@[j]) < best
                },
            decreases ages@.len() - i,
        {
            let (port, age) = ages[i];
            let priority: u32 = match self.pool.get(&port) {
                Some(entry) => entry.rotation_priority_at(age),
                None => 0,
            };
            assert(priority == self@.urgency(ages@[i as int]));
            if priority > best {
                best = priority;
                target = Some(port);
                proof {
                    best_at = i as int;
                }
            }
            i = i + 1;
        }
        proof {
            if target is Some {
                assert(self@.most_urgent(ages@, best_at));
                let k = choose|k: int| self@.most_urgent(ages@, k);
                assert(self@.most_urgent(ages@, k));
                assert(k == best_at) by {
                    assert(self@.urgency(ages@[k]) == self@.urgency(ages@[best_at]));
                }
            } else {
                assert forall|k: int| !self@.most_urgent(ages@, k) by {
                    if 0 <= k < ages@.len() {
                        assert(self@.urgency(ages@[k]) <= best);
                    }
                }
            }
        }
        target
    }

    /// The ports that hand out an address, each once, with that address.
    pub(crate) fn usable_ports(&self) -> (r: VecDeque<(u16, String)>)
        ensures
            one_per_port(r@, self@.entries.dom().filter(|p: u16| self@.entries[p].usable())),
            forall|i: int|
                0 <= i < r@.len() ==> self@.entries[(#[trigger] r@[i]).0].address == r@[i].1@,
    {
        let ports = self.get_all_ports();
        let ghost usable = |p: u16| self@.entries[p].usable();
        let mut out: VecDeque<(u16, String)> = VecDeque::new();
        let mut i: usize = 0;
        proof {
            ports@.take(0).lemma_filter_len(usable);
        }
        while i < ports.len()
            invariant
                i <= ports@.len(),
                ports@.to_set() == self@.entries.dom(),
                usable == (|p: u16| self@.entries[p].usable()),
                ports_of(out@) =~= ports@.take(i as int).filter(usable),
                forall|k: int|
                    0 <= k < out@.len() ==> self@.entries[(#[trigger] out@[k]).0].address
                        == out@[k].1@,
            decreases ports@.len() - i,
        {
            let port = ports[i];
            proof {
                assert(ports@.to_set().contains(port));
                assert(ports@.take(i + 1).drop_last() == ports@.take(i as int));
                reveal(Seq::filter);
            }
            match self.get_proxy_address(port) {
                Some(address) => {
                    out.push_back((port, address));
                },
                None => {},
            }
            i = i + 1;
        }
        proof {
            let read = ports_of(out@);
            assert(ports@.take(ports@.len() as int) == ports@);
            assert(read == ports@.filter(usable));
            lemma_filter_set(ports@, usable);
            assert(read.to_set() =~= self@.entries.dom().filter(usable));
        }
        out
    }

    /// The upstream address of `port`, if the port has one that is believed to answer.
    pub fn get_proxy_address(&self, port: u16) -> (r: Option<String>)
        ensures
            match r {
                Some(address) => self@.address(port) == Some(address@),
                None => self@.address(port) is None,
            },
    {
        match self.pool.get(&port) {
            Some(entry) => {
                if entry.is_available && !entry.address.as_str().is_empty() {
                    Some(entry.address.clone())
                } else {
                    None
                }
            },
            None => None,
        }
    }

    /// The ports that have an entry, each once, in no particular order.
    pub fn get_all_ports(&self) -> (r: Vec<u16>)
        ensures
            r@.no_duplicates(),
            r@.to_set() == self@.entries.dom(),
    {
        let mut out: Vec<u16> = Vec::new();
        for port in it: self.pool.keys()
            invariant
                out@ == it.seq().unref().take(it.index() as int),
                it.index() == it.seq().len() ==> out@ =~= it.seq().unref(),
                it.seq().unref().to_set() == self.pool@.dom(),
                it.seq().no_duplicates(),
        {
            out.push(*port);
        }
        assert(self@.entries.dom() =~= self.pool@.dom());
        out
    }

    /// Gives `port` an entry with the address `address`, made now, whether or not it had one.
    pub fn set_proxy_address(&mut self, port: u16, address: String)
        ensures
            exists|now: Instant| final(self)@ == #[trigger] old(self)@.set(port, address@, now),
    {
        self.set_proxy_address_at(port, address, Instant::now());
    }

    /// Gives `port` an entry with the address `address`, made at `now`, whether or not it had one.
    pub fn set_proxy_address_at(&mut self, port: u16, address: String, now: Instant)
        ensures
            final(self)@ == old(self)@.set(port, address@, now),
    {
        self.put(port, ProxyEntry::new_at(address, port, now));
    }

    /// The user name for the upstream proxies.
    pub fn proxy_username(&self) -> (r: &str)
        ensures
            r@ == self@.proxy_username,
    {
        self.proxy_username.as_str()
    }

    /// The password for the upstream proxies.
    pub fn proxy_password(&self) -> (r: &str)
        ensures
            r@ == self@.proxy_password,
    {
        self.proxy_password.as_str()
    }

    /// Where addresses are fetched from.
    pub fn fetch_url(&self) -> (r: &str)
        ensures
            r@ == self@.fetch_url,
    {
        self.fetch_url.as_str()
    }

    /// How many addresses the reserve holds.
    pub fn reserve_size(&self) -> (r: usize)
        ensures
            r == self@.reserve.len(),
    {
        self.reserve.len()
    }
}

// ---------------------------------------------------------------------------
// Laws
// ---------------------------------------------------------------------------

/// An entry that has an address wants no other until it has been idle for too long.
pub proof fn law_fresh_entry_needs_no_rotation(
    address: Seq<char>,
    port: u16,
    now: Instant,
    age: nat,
)
    requires
        address.len() > 0,
        age <= IDLE_LIMIT,
    ensures
        EntryView::fresh(address, port, now).priority(age) == 0,
{
}

/// No entry wants another address more urgently than one that has none to hand out.
pub proof fn law_unusable_entry_comes_first(
    entry: EntryView,
    age: nat,
    other: EntryView,
    other_age: nat,
)
    requires
        !entry.usable(),
    ensures
        entry.priority(age) == 1000,
        other.priority(other_age) <= entry.priority(age),
        other.usable() ==> other.priority(other_age) < entry.priority(age),
{
}

/// The older an entry, the more urgently it wants another address.
pub proof fn law_urgency_grows_with_age(entry: EntryView, age: nat, later: nat)
    requires
        age <= later,
    ensures
        entry.priority(age) <= entry.priority(later),
{
}

/// An entry that can be handed out, has not been idle for too long and is not soon to expire
/// stays; any other wants another address.
pub proof fn law_when_rotation_is_needed(entry: EntryView, age: nat)
    ensures
        entry.priority(age) == 0 <==> entry.usable() && !soon_expiring(age) && entry.idle_time(age)
            <= IDLE_LIMIT,
{
}

/// What was set for a port is what the port hands out, and no other port is concerned.
pub proof fn law_set_then_get(
    pool: PoolView,
    port: u16,
    address: Seq<char>,
    now: Instant,
    other: u16,
)
    ensures
        ({
            let after = pool.set(port, address, now);
            &&& address.len() > 0 ==> after.address(port) == Some(address)
            &&& address.len() == 0 ==> after.address(port) is None
            &&& after.entries[port].created_at == now
            &&& other != port ==> after.address(other) == pool.address(other)
            &&& after.reserve == pool.reserve
        }),
{
}

/// Using a port changes nothing of what any port hands out, and keeps the port from being idle.
pub proof fn law_used_port_is_not_idle(pool: PoolView, port: u16, age: nat, later: nat, other: u16)
    requires
        later <= age + IDLE_LIMIT,
    ensures
        pool.used(port, age).address(other) == pool.address(other),
        pool.used(port, age).entries.dom() =~= pool.entries.dom(),
        pool.entries.contains_key(port) ==> pool.used(port, age).entries[port].idle_time(later)
            <= IDLE_LIMIT,
{
}

/// A port marked unavailable hands out nothing, and no other port is concerned.
pub proof fn law_unavailable_port_hands_out_nothing(pool: PoolView, port: u16, other: u16)
    ensures
        pool.unavailable(port).address(port) is None,
        other != port ==> pool.unavailable(port).address(other) == pool.address(other),
        pool.unavailable(port).reserve == pool.reserve,
{
}

/// A port that is given an address hands it out, if the pool has the port, and its time starts
/// anew; no other port is concerned.
pub proof fn law_assigned_port_hands_out_its_address(
    pool: PoolView,
    port: u16,
    address: Seq<char>,
    now: Instant,
    other: u16,
)
    requires
        address.len() > 0,
    ensures
        ({
            let after = pool.assigned(port, address, now);
            &&& pool.entries.contains_key(port) ==> after.address(port) == Some(address)
            &&& pool.entries.contains_key(port) ==> after.entries[port].created_at == now
            &&& pool.entries.contains_key(port) ==> after.entries[port].last_used == 0
            &&& !pool.entries.contains_key(port) ==> after == pool
            &&& other != port ==> after.address(other) == pool.address(other)
        }),
{
}

/// Marking a port as unavailable, or noting its use, changes nothing of when its entry was made.
pub proof fn law_marks_keep_the_age(pool: PoolView, port: u16, age: nat, other: u16)
    requires
        pool.entries.contains_key(other),
    ensures
        pool.unavailable(port).entries[other].created_at == pool.entries[other].created_at,
        pool.used(port, age).entries[other].created_at == pool.entries[other].created_at,
        other != port ==> pool.unavailable(port).entries[other] == pool.entries[other],
        other != port ==> pool.used(port, age).entries[other] == pool.entries[other],
{
}

/// A pool just started has an entry for every port of its range, none of them hands out an
/// address, and all of them want one most urgently. What it had for other ports stays.
pub proof fn law_started_pool_wants_addresses(pool: PoolView, port: u16, age: u128, now: Instant)
    ensures
        pool.port_range.0 <= port <= pool.port_range.1 ==> {
            &&& pool.started(now).entries.contains_key(port)
            &&& pool.started(now).address(port) is None
            &&& pool.started(now).urgency((port, age)) == 1000
        },
        !(pool.port_range.0 <= port <= pool.port_range.1) ==> {
            &&& pool.started(now).entries.contains_key(port) == pool.entries.contains_key(port)
            &&& pool.entries.contains_key(port) ==> pool.started(now).entries[port]
                == pool.entries[port]
        },
        pool.started(now).reserve == pool.reserve,
{
}

/// Whatever is done to a pool, every entry bears the number of its port.
pub proof fn law_entries_bear_their_port(
    pool: PoolView,
    port: u16,
    address: Seq<char>,
    age: nat,
    latency_ms: u64,
    now: Instant,
)
    requires
        pool.well_formed(),
    ensures
        pool.started(now).well_formed(),
        pool.set(port, address, now).well_formed(),
        pool.assigned(port, address, now).well_formed(),
        pool.used(port, age).well_formed(),
        pool.unavailable(port).well_formed(),
        pool.popped().well_formed(),
        pool.stored(address, latency_ms, now).well_formed(),
{
}

/// A port is chosen for a new address exactly where some port wants one, and the one chosen
/// wants it no less urgently than any other.
pub proof fn law_rotation_target(pool: PoolView, ages: Seq<(u16, u128)>)
    ensures
        pool.rotation_target(ages) is None <==> (forall|i: int|
            0 <= i < ages.len() ==> #[trigger] pool.urgency(ages[i]) == 0),
        pool.rotation_target(ages) matches Some(port) ==> exists|i: int|
            {
                &&& 0 <= i < ages.len()
                &&& #[trigger] ages[i].0 == port
                &&& pool.urgency(ages[i]) > 0
                &&& forall|j: int|
                    0 <= j < ages.len() ==> #[trigger] pool.urgency(ages[j]) <= pool.urgency(
                        ages[i],
                    )
            },
{
    lemma_most_urgent_exists(pool, ages);
    if exists|i: int| pool.most_urgent(ages, i) {
        let i = choose|i: int| pool.most_urgent(ages, i);
        assert(pool.most_urgent(ages, i));
        assert(pool.urgency(ages[i]) > 0);
        assert(pool.rotation_target(ages) == Some(ages[i].0));
    }
}

proof fn lemma_most_urgent_exists(pool: PoolView, ages: Seq<(u16, u128)>)
    ensures
        (exists|i: int| pool.most_urgent(ages, i)) || (forall|i: int|
            0 <= i < ages.len() ==> #[trigger] pool.urgency(ages[i]) == 0),
    decreases ages.len(),
{
    if ages.len() > 0 {
        let init = ages.drop_last();
        let last = ages.len() - 1;
        lemma_most_urgent_exists(pool, init);
        assert forall|j: int| 0 <= j < init.len() implies init[j] == ages[j] by {}
        if exists|i: int| pool.most_urgent(init, i) {
            let i = choose|i: int| pool.most_urgent(init, i);
            assert forall|j: int| 0 <= j < init.len() implies #[trigger] pool.urgency(ages[j])
                <= pool.urgency(ages[i]) by {
                assert(pool.urgency(init[j]) <= pool.urgency(init[i]));
            }
            assert forall|j: int| 0 <= j < i implies #[trigger] pool.urgency(ages[j])
                < pool.urgency(ages[i]) by {
                assert(pool.urgency(init[j]) < pool.urgency(init[i]));
            }
            if pool.urgency(ages[last]) <= pool.urgency(ages[i]) {
                assert(pool.most_urgent(ages, i));
            } else {
                assert(pool.most_urgent(ages, last));
            }
        } else {
            assert forall|j: int| 0 <= j < init.len() implies #[trigger] pool.urgency(ages[j])
                == 0 by {
                assert(pool.urgency(init[j]) == 0);
            }
            if pool.urgency(ages[last]) > 0 {
                assert(pool.most_urgent(ages, last));
            }
        }
    }
}

/// Cleaning the reserve keeps the entries that have not been kept for too long, and no others;
/// where there are none to remove it changes nothing.
#[verifier::spinoff_prover]
pub proof fn law_cleaning_keeps_the_unexpired<T>(reserve: Seq<T>, ages: Seq<u128>)
    requires
        reserve.len() == ages.len(),
    ensures
        unexpired(reserve, ages).len() <= reserve.len(),
        forall|i: int|
            0 <= i < reserve.len() && !expired(ages[i] as nat) ==> unexpired(
                reserve,
                ages,
            ).contains(#[trigger] reserve[i]),
        forall|k: int|
            0 <= k < unexpired(reserve, ages).len() ==> exists|i: int|
                0 <= i < reserve.len() && !expired(ages[i] as nat) && #[trigger] reserve[i]
                    == #[trigger] unexpired(reserve, ages)[k],
        (forall|i: int| 0 <= i < ages.len() ==> !expired(#[trigger] ages[i] as nat))
            ==> unexpired(reserve, ages) == reserve,
    decreases reserve.len(),
{
    if reserve.len() > 0 {
        let init = reserve.drop_last();
        let init_ages = ages.drop_last();
        let rest = unexpired(init, init_ages);
        let all = unexpired(reserve, ages);
        let last = reserve.len() - 1;
        law_cleaning_keeps_the_unexpired(init, init_ages);
        assert forall|i: int| 0 <= i < reserve.len() && !expired(
            ages[i] as nat,
        ) implies all.contains(#[trigger] reserve[i]) by {
            if i < last {
                assert(init[i] == reserve[i]);
                assert(rest.contains(init[i]));
                let k = choose|k: int| 0 <= k < rest.len() && rest[k] == init[i];
                assert(all[k] == reserve[i]);
            } else {
                assert(all[rest.len() as int] == reserve[last]);
            }
        }
        assert forall|k: int| 0 <= k < all.len() implies exists|i: int|
            0 <= i < reserve.len() && !expired(ages[i] as nat) && #[trigger] reserve[i]
                == #[trigger] all[k] by {
            if k < rest.len() {
                let i = choose|i: int|
                    0 <= i < init.len() && !expired(init_ages[i] as nat) && #[trigger] init[i]
                        == rest[k];
                assert(reserve[i] == all[k]);
            } else {
                assert(reserve[last] == all[k]);
            }
        }
        if forall|i: int| 0 <= i < ages.len() ==> !expired(#[trigger] ages[i] as nat) {
            assert forall|i: int| 0 <= i < init_ages.len() implies !expired(
                #[trigger] init_ages[i] as nat,
            ) by {
                assert(init_ages[i] == ages[i]);
            }
            assert(!expired(ages[last] as nat));
            assert(all =~= reserve);
        }
    } else {
        assert(unexpired(reserve, ages) =~= reserve);
    }
}

/// A port that was used at some age and not since has gone unused for exactly the time since then.
/// So it is idle again, and wants another address, once that is more than the limit.
pub proof fn law_idle_time_runs_from_the_last_use(pool: PoolView, port: u16, age: nat, later: nat)
    requires
        pool.entries.contains_key(port),
        later >= age,
    ensures
        pool.used(port, age).entries[port].idle_time(later) == later - age,
        pool.used(port, age).entries[port].idle_time(age) == 0,
        later > age + IDLE_LIMIT ==> pool.used(port, age).entries[port].priority(later) > 0,
        pool.used(port, age).used(port, later) == pool.used(port, later),
{
    assert(pool.used(port, age).used(port, later) =~= pool.used(port, later));
}

/// An entry just made has gone unused for as long as it is there.
pub proof fn law_new_entry_is_unused(address: Seq<char>, port: u16, now: Instant, age: nat)
    ensures
        ({
            let entry = EntryView::fresh(address, port, now);
            &&& entry.address == address
            &&& entry.port == port
            &&& entry.created_at == now
            &&& entry.idle_time(age) == age
            &&& entry.usable() <==> address.len() > 0
        }),
{
}

/// The levels of urgency, in seconds. An entry that cannot be handed out comes before one older
/// than 600, that before one older than 540 and unused for more than 303, that before one older
/// than 540, that before one unused for more than 303; no other wants an address.
pub proof fn law_levels_of_urgency(entry: EntryView, age: nat)
    ensures
        ({
            let second: nat = 1_000_000_000;
            let old = age > 600 * second;
            let ageing = age > 540 * second;
            let idle = age > entry.last_used && age - entry.last_used > 303 * second;
            let usable = entry.is_available && entry.address.len() > 0;
            let urgency = entry.priority(age);
            &&& urgency == 1000 <==> !usable
            &&& urgency == 800 <==> usable && old
            &&& urgency == 600 <==> usable && !old && ageing && idle
            &&& urgency == 400 <==> usable && !old && ageing && !idle
            &&& urgency == 200 <==> usable && !ageing && idle
            &&& urgency == 0 <==> usable && !ageing && !idle
            &&& expired(age) <==> old
            &&& soon_expiring(age) <==> ageing
        }),
{
}

/// A port hands out an address exactly where the pool has an entry for it that is available and
/// has an address, and then that address.
pub proof fn law_port_hands_out_its_own_address(pool: PoolView, port: u16, address: Seq<char>)
    ensures
        pool.address(port) == Some(address) <==> {
            &&& pool.entries.contains_key(port)
            &&& pool.entries[port].is_available
            &&& pool.entries[port].address == address
            &&& address.len() > 0
        },
        pool.entries.contains_key(port) && !pool.entries[port].is_available ==> pool.address(
            port,
        ) is None,
{
}

/// Whether two pools differ at most in the entry of `port`.
pub open spec fn differ_in_one_entry(a: PoolView, b: PoolView, port: u16) -> bool {
    &&& forall|p: u16|
        p != port ==> (#[trigger] a.entries.contains_key(p) <==> b.entries.contains_key(p))
    &&& forall|p: u16|
        p != port && #[trigger] a.entries.contains_key(p) ==> a.entries[p] == b.entries[p]
    &&& a.reserve == b.reserve
    &&& a.port_range == b.port_range
    &&& a.fetch_url == b.fetch_url
    &&& a.proxy_username == b.proxy_username
    &&& a.proxy_password == b.proxy_password
}

/// Setting, assigning, using and marking a port change its entry and nothing else; all but the
/// first change nothing where the pool does not have the port. A use and a mark change one thing
/// of the entry each.
pub proof fn law_changes_stay_with_the_port(
    pool: PoolView,
    port: u16,
    address: Seq<char>,
    age: nat,
    now: Instant,
)
    ensures
        differ_in_one_entry(pool, pool.set(port, address, now), port),
        differ_in_one_entry(pool, pool.assigned(port, address, now), port),
        differ_in_one_entry(pool, pool.used(port, age), port),
        differ_in_one_entry(pool, pool.unavailable(port), port),
        pool.set(port, address, now).entries.contains_key(port),
        pool.assigned(port, address, now).entries.contains_key(port)
            <==> pool.entries.contains_key(port),
        pool.used(port, age).entries.contains_key(port) <==> pool.entries.contains_key(port),
        pool.unavailable(port).entries.contains_key(port) <==> pool.entries.contains_key(port),
        ({
            let entry = pool.set(port, address, now).entries[port];
            &&& entry.address == address && entry.port == port && entry.created_at == now
            &&& entry.last_used == 0 && entry.is_available
        }),
        pool.entries.contains_key(port) ==> {
            let before = pool.entries[port];
            let assigned = pool.assigned(port, address, now).entries[port];
            let used = pool.used(port, age).entries[port];
            let marked = pool.unavailable(port).entries[port];
            &&& assigned == pool.set(port, address, now).entries[port]
            &&& used.address == before.address && used.port == before.port
            &&& used.created_at == before.created_at && used.is_available == before.is_available
            &&& used.last_used == age
            &&& marked.address == before.address && marked.port == before.port
            &&& marked.created_at == before.created_at && marked.last_used == before.last_used
            &&& !marked.is_available
        },
{
}

/// What is stored last is taken out last: an address goes to the back of the reserve as it was
/// given, one taken out comes from the front, and no entry of a port is touched.
pub proof fn law_reserve_is_first_in_first_out(
    pool: PoolView,
    address: Seq<char>,
    latency_ms: u64,
    now: Instant,
    i: int,
)
    ensures
        ({
            let stored = pool.stored(address, latency_ms, now);
            let n = pool.reserve.len() as int;
            &&& stored.reserve.len() == n + 1
            &&& stored.reserve[n].address == address
            &&& stored.reserve[n].latency_ms == latency_ms
            &&& stored.reserve[n].created_at == now
            &&& 0 <= i < n ==> stored.reserve[i] == pool.reserve[i]
            &&& stored.entries == pool.entries && stored.port_range == pool.port_range
            &&& stored.fetch_url == pool.fetch_url
            &&& stored.proxy_username == pool.proxy_username
            &&& stored.proxy_password == pool.proxy_password
        }),
        pool.reserve.len() > 0 ==> {
            let popped = pool.popped();
            let n = pool.reserve.len() as int;
            &&& popped.reserve.len() == n - 1
            &&& 0 <= i < n - 1 ==> popped.reserve[i] == pool.reserve[i + 1]
            &&& popped.entries == pool.entries && popped.port_range == pool.port_range
            &&& popped.fetch_url == pool.fetch_url
            &&& popped.proxy_username == pool.proxy_username
            &&& popped.proxy_password == pool.proxy_password
        },
{
}

/// Starting gives every port of the range the same kind of entry and keeps all that is set.
pub proof fn law_starting_makes_empty_entries(pool: PoolView, port: u16, now: Instant)
    ensures
        ({
            let after = pool.started(now);
            &&& pool.port_range.0 <= port <= pool.port_range.1 ==> {
                let entry = after.entries[port];
                &&& after.entries.contains_key(port)
                &&& entry.address.len() == 0 && entry.port == port && entry.created_at == now
                &&& entry.last_used == 0 && entry.is_available
            }
            &&& after.reserve == pool.reserve && after.port_range == pool.port_range
            &&& after.fetch_url == pool.fetch_url
            &&& after.proxy_username == pool.proxy_username
            &&& after.proxy_password == pool.proxy_password
        }),
{
}

/// Cleaning looks at each entry by itself: what is kept of two parts of the reserve is what is
/// kept of the one, followed by what is kept of the other. One entry alone is kept unless it is
/// older than 600 seconds.
pub proof fn law_cleaning_looks_at_each_entry<T>(
    front: Seq<T>,
    front_ages: Seq<u128>,
    back: Seq<T>,
    back_ages: Seq<u128>,
    one: T,
    age: u128,
)
    requires
        front.len() == front_ages.len(),
        back.len() == back_ages.len(),
    ensures
        unexpired(front + back, front_ages + back_ages) == unexpired(front, front_ages)
            + unexpired(back, back_ages),
        unexpired(Seq::<T>::empty(), Seq::empty()) == Seq::<T>::empty(),
        age <= 600_000_000_000 ==> unexpired(seq![one], seq![age]) == seq![one],
        age > 600_000_000_000 ==> unexpired(seq![one], seq![age]) == Seq::<T>::empty(),
    decreases back.len(),
{
    reveal_with_fuel(unexpired, 2);
    assert(seq![one].drop_last() =~= Seq::<T>::empty());
    assert(unexpired(seq![one].drop_last(), seq![age].drop_last()) =~= Seq::<T>::empty());
    assert(seq![one].last() == one);
    assert(seq![age].last() == age);
    assert(Seq::<T>::empty().push(one) =~= seq![one]);
    if back.len() == 0 {
        assert(front + back =~= front);
        assert(front_ages + back_ages =~= front_ages);
        assert(unexpired(front, front_ages) + unexpired(back, back_ages) =~= unexpired(
            front,
            front_ages,
        ));
    } else {
        let init = back.drop_last();
        let init_ages = back_ages.drop_last();
        law_cleaning_looks_at_each_entry(front, front_ages, init, init_ages, one, age);
        assert((front + back).drop_last() =~= front + init);
        assert((front_ages + back_ages).drop_last() =~= front_ages + init_ages);
        assert((front + back).last() == back.last());
        assert((front_ages + back_ages).last() == back_ages.last());
        assert((unexpired(front, front_ages) + unexpired(init, init_ages)).push(back.last())
            =~= unexpired(front, front_ages) + unexpired(init, init_ages).push(back.last()));
    }
}

/// The age of an entry is the time from its making to the reading, for entries of ports and of
/// the reserve alike, each in its place.
pub proof fn law_age_counts_from_the_making(
    pool: PoolView,
    ages: Seq<(u16, u128)>,
    now: Instant,
    i: int,
)
    ensures
        0 <= i < pool.reserve.len() ==> {
            &&& reserve_ages(pool.reserve, now).len() == pool.reserve.len()
            &&& reserve_ages(pool.reserve, now)[i] == nanos_between(
                pool.reserve[i].created_at,
                now,
            )
            &&& pool.reserve[i].age(now) == nanos_between(pool.reserve[i].created_at, now)
        },
        read_at(ages, pool, now) && 0 <= i < ages.len() ==> ages[i].1 == nanos_between(
            pool.entries[ages[i].0].created_at,
            now,
        ),
        forall|port: u16| #[trigger]
            pool.entries[port].age(now) == nanos_between(pool.entries[port].created_at, now),
{
}

/// One reading for each port: every port is read, no other is, and none is read twice.
pub proof fn law_each_port_is_read_once<T>(
    readings: Seq<(u16, T)>,
    ports: Set<u16>,
    i: int,
    j: int,
    port: u16,
)
    requires
        one_per_port(readings, ports),
        0 <= i < readings.len(),
        0 <= j < readings.len(),
    ensures
        ports.contains(readings[i].0),
        readings[i].0 == readings[j].0 ==> i == j,
        ports.contains(port) ==> exists|k: int|
            0 <= k < readings.len() && (#[trigger] readings[k]).0 == port,
{
    let read = ports_of(readings);
    assert(read[i] == readings[i].0);
    assert(read[j] == readings[j].0);
    assert(read.to_set().contains(read[i]));
    if ports.contains(port) {
        assert(read.to_set().contains(port));
        let k = choose|k: int| 0 <= k < read.len() && read[k] == port;
        assert(readings[k].0 == port);
    }
}

/// How urgent a reading is goes by the entry of its own port at its own age; a port that the pool
/// does not have wants nothing.
pub proof fn law_urgency_is_that_of_the_entry(pool: PoolView, port: u16, age: u128)
    ensures
        pool.entries.contains_key(port) ==> pool.urgency((port, age)) == pool.entries[port].priority(
            age as nat,
        ),
        !pool.entries.contains_key(port) ==> pool.urgency((port, age)) == 0,
{
}

/// Of the ports that want an address equally urgently, and none more urgently, the one that was
/// read first is served.
pub proof fn law_first_of_the_most_urgent_is_served(
    pool: PoolView,
    ages: Seq<(u16, u128)>,
    front: Seq<(u16, u128)>,
    reading: (u16, u128),
    back: Seq<(u16, u128)>,
)
    requires
        ages == front + seq![reading] + back,
        pool.urgency(reading) > 0,
        forall|j: int|
            0 <= j < front.len() ==> #[trigger] pool.urgency(front[j]) < pool.urgency(reading),
        forall|j: int|
            0 <= j < back.len() ==> #[trigger] pool.urgency(back[j]) <= pool.urgency(reading),
    ensures
        pool.rotation_target(ages) == Some(reading.0),
{
    let i = front.len() as int;
    assert(ages[i] == reading);
    assert forall|j: int| 0 <= j < i implies #[trigger] pool.urgency(ages[j]) < pool.urgency(
        ages[i],
    ) by {
        assert(ages[j] == front[j]);
    }
    assert forall|j: int| 0 <= j < ages.len() implies #[trigger] pool.urgency(ages[j])
        <= pool.urgency(ages[i]) by {
        if j < i {
            assert(ages[j] == front[j]);
        } else if j > i {
            assert(ages[j] == back[j - i - 1]);
        }
    }
    assert(pool.most_urgent(ages, i));
    let k = choose|k: int| pool.most_urgent(ages, k);
    if k < i {
        assert(pool.urgency(ages[k]) < pool.urgency(ages[i]));
    } else if i < k {
        assert(pool.urgency(ages[i]) < pool.urgency(ages[k]));
    }
}

} // verus!
