use ip_proxy_pool::pool::{IpPool, ProxyEntry, ReserveEntry, EXPIRY, IDLE_LIMIT, RESERVE_LIMIT, SOON_EXPIRY};
use ip_proxy_pool::rotation::{FetchEvent, FetchStep, HealthStep, ReplenishStep, RoundStep};
use std::time::{Duration, Instant};

fn entry() -> ProxyEntry {
    ProxyEntry::new("1.2.3.4:10000".to_string(), 10000)
}

fn pool_of(first: u16, last: u16) -> IpPool {
    IpPool::new(
        (first, last),
        "http://127.0.0.1:19999/nonexistent".to_string(),
        60,
        60,
        String::new(),
        String::new(),
    )
}

/// Runs a fetch with one answer of the API and the same outcome for every try.
fn fetch(pool: &mut IpPool, answer: Option<&str>, latency: Option<u64>) {
    let mut step = pool.fetch_and_assign();
    loop {
        let event = match &step {
            FetchStep::Finished => return,
            FetchStep::AskApi { .. } => FetchEvent::Answered(answer.map(|a| a.to_string())),
            _ => FetchEvent::Tried(latency),
        };
        step = pool.fetch_next(step, event);
    }
}

/// Marks a port as unavailable and tries the reserve; `answers` tells which addresses answer.
fn mark_unavailable(pool: &mut IpPool, port: u16, answers: &[&str]) -> bool {
    let mut step = pool.mark_unavailable(port);
    loop {
        match step {
            ReplenishStep::Finished { replaced } => return replaced,
            ReplenishStep::Try { address } => {
                let reachable = answers.contains(&address.as_str());
                step = pool.replenish_tried(port, address, reachable);
            }
        }
    }
}

#[test]
fn test_proxy_entry_new() {
    let entry = ProxyEntry::new("1.2.3.4:10000".to_string(), 10000);
    assert_eq!(entry.address, "1.2.3.4:10000");
    assert_eq!(entry.port, 10000);
    assert!(entry.is_available);
}

#[test]
fn test_proxy_entry_not_expired_fresh() {
    let entry = ProxyEntry::new("1.2.3.4:10000".to_string(), 10000);
    assert!(!entry.is_expired());
}

#[test]
fn test_proxy_entry_not_idle_fresh() {
    let entry = ProxyEntry::new("1.2.3.4:10000".to_string(), 10000);
    assert!(!entry.is_idle());
}

#[test]
fn test_proxy_entry_needs_rotation_when_unavailable() {
    let mut entry = ProxyEntry::new("1.2.3.4:10000".to_string(), 10000);
    entry.is_available = false;
    assert!(entry.needs_rotation());
}

#[test]
fn test_proxy_entry_no_rotation_when_available_and_fresh() {
    let entry = ProxyEntry::new("1.2.3.4:10000".to_string(), 10000);
    assert!(!entry.needs_rotation());
}

#[test]
fn test_proxy_entry_empty_address_needs_rotation() {
    let mut entry = ProxyEntry::new("1.2.3.4:10000".to_string(), 10000);
    entry.address = String::new();
    assert!(entry.needs_rotation());
}

#[test]
fn test_pool_initialization() {
    let mut pool = pool_of(10000, 10002);
    for port in 10000..=10002 {
        pool.set_proxy_address(port, String::new());
    }
    let ports = pool.get_all_ports();
    assert_eq!(ports.len(), 3);
}

#[test]
fn test_pool_get_proxy_address_empty() {
    let mut pool = pool_of(10000, 10000);
    pool.set_proxy_address(10000, String::new());
    let addr = pool.get_proxy_address(10000);
    assert!(addr.is_none());
}

#[test]
fn test_pool_get_proxy_address_available() {
    let mut pool = pool_of(10000, 10000);
    pool.set_proxy_address(10000, "1.2.3.4:10000".to_string());
    let addr = pool.get_proxy_address(10000);
    assert_eq!(addr, Some("1.2.3.4:10000".to_string()));
}

#[test]
fn test_pool_mark_used() {
    let mut pool = pool_of(10000, 10000);
    pool.set_proxy_address(10000, "1.2.3.4:10000".to_string());
    pool.mark_used(10000);
    let addr = pool.get_proxy_address(10000);
    assert_eq!(addr, Some("1.2.3.4:10000".to_string()));
}

#[test]
fn test_pool_mark_unavailable() {
    let mut pool = pool_of(10000, 10000);
    pool.set_proxy_address(10000, "1.2.3.4:10000".to_string());
    assert!(!mark_unavailable(&mut pool, 10000, &[]));
    let addr = pool.get_proxy_address(10000);
    assert!(addr.is_none());
}

#[test]
fn test_reserve_stores_excess_ips() {
    let mut pool = pool_of(10000, 10000);
    pool.set_proxy_address(10000, "1.2.3.4:10000".to_string());
    fetch(&mut pool, Some("127.0.0.1:40001"), Some(3));
    let reserve_size = pool.reserve_size();
    assert!(reserve_size >= 1, "Reserve should have at least 1 IP, got {}", reserve_size);
}

#[test]
fn test_reserve_replenishes_dead_port() {
    let mut pool = pool_of(10000, 10000);
    pool.set_proxy_address(10000, "1.2.3.4:10000".to_string());
    fetch(&mut pool, Some("127.0.0.1:40001"), Some(3));
    assert!(pool.reserve_size() >= 1);
    assert!(mark_unavailable(&mut pool, 10000, &["127.0.0.1:40001"]));
    let addr = pool.get_proxy_address(10000);
    assert!(addr.is_some(), "Port should be replenished from reserve");
    assert_eq!(addr, Some("127.0.0.1:40001".to_string()));
    assert_eq!(pool.reserve_size(), 0);
}

#[test]
fn test_pool_mark_used_and_unavailable() {
    let mut pool = IpPool::new(
        (30001, 30001),
        "http://127.0.0.1:1/x".to_string(),
        60,
        60,
        String::new(),
        String::new(),
    );
    pool.set_proxy_address(30001, "1.2.3.4:30001".to_string());

    pool.mark_used(30001);
    let addr = pool.get_proxy_address(30001);
    assert_eq!(addr, Some("1.2.3.4:30001".to_string()));

    mark_unavailable(&mut pool, 30001, &[]);
    let addr = pool.get_proxy_address(30001);
    assert!(addr.is_none());
}

#[test]
fn the_limits_are_exclusive() {
    assert_eq!(EXPIRY, 600_000_000_000);
    assert_eq!(SOON_EXPIRY, 540_000_000_000);
    assert_eq!(IDLE_LIMIT, 303_000_000_000);
    let e = entry();
    assert!(!e.is_expired_at(EXPIRY));
    assert!(e.is_expired_at(EXPIRY + 1));
    assert!(!e.is_soon_expiring_at(SOON_EXPIRY));
    assert!(e.is_soon_expiring_at(SOON_EXPIRY + 1));
    assert!(!e.is_idle_at(IDLE_LIMIT));
    assert!(e.is_idle_at(IDLE_LIMIT + 1));
    let r = ReserveEntry::new("1.2.3.4:1".to_string(), 7);
    assert!(!r.is_expired_at(EXPIRY));
    assert!(r.is_expired_at(EXPIRY + 1));
}

#[test]
fn urgency_has_six_levels() {
    let mut e = entry();
    assert_eq!(e.rotation_priority_at(0), 0);
    assert_eq!(e.rotation_priority_at(IDLE_LIMIT + 1), 200);
    assert_eq!(e.rotation_priority_at(SOON_EXPIRY + 1), 600);
    assert_eq!(e.rotation_priority_at(EXPIRY + 1), 800);
    e.last_used = SOON_EXPIRY;
    assert_eq!(e.rotation_priority_at(SOON_EXPIRY + 1), 400);
    assert_eq!(e.rotation_priority_at(SOON_EXPIRY - 1), 0);
    e.is_available = false;
    assert_eq!(e.rotation_priority_at(0), 1000);
    assert_eq!(e.rotation_priority(), 1000);
    e.is_available = true;
    e.address = String::new();
    assert_eq!(e.rotation_priority_at(EXPIRY + 1), 1000);
}

#[test]
fn a_fresh_entry_has_no_urgency_by_the_clock() {
    let e = entry();
    assert_eq!(e.rotation_priority(), 0);
    assert!(!e.is_soon_expiring());
    assert!(!ReserveEntry::new("1.2.3.4:1".to_string(), 7).is_expired());
}

#[test]
fn a_use_ahead_of_the_clock_is_no_idleness() {
    let mut e = entry();
    e.last_used = u128::MAX;
    assert!(!e.is_idle());
    assert!(!e.is_idle_at(u128::MAX));
    assert!(e.is_expired_at(u128::MAX));
}

#[test]
fn a_used_port_is_not_idle() {
    let mut pool = pool_of(1, 1);
    pool.set_proxy_address(1, "1.1.1.1:1".to_string());
    let age = IDLE_LIMIT + 100;
    let step = pool.fetch_and_assign_at(&vec![(1, age)]);
    assert!(matches!(step, FetchStep::AskApi { recipient: Some(1) }));
    pool.mark_used_at(1, 100);
    let step = pool.fetch_and_assign_at(&vec![(1, age)]);
    assert!(matches!(step, FetchStep::AskApi { recipient: None }));
}

#[test]
fn rotation_is_needed_where_urgency_is_not_zero() {
    let e = entry();
    for age in [0, IDLE_LIMIT, IDLE_LIMIT + 1, SOON_EXPIRY + 1, EXPIRY + 1] {
        assert_eq!(e.needs_rotation_at(age), e.rotation_priority_at(age) > 0);
    }
}

#[test]
fn a_clone_is_the_same_entry() {
    let mut e = entry();
    e.is_available = false;
    e.last_used = 9;
    let c = e.clone();
    assert_eq!(c.address, "1.2.3.4:10000");
    assert_eq!(c.port, 10000);
    assert_eq!(c.last_used, 9);
    assert_eq!(c.created_at, e.created_at);
    assert!(!c.is_available);
}

#[test]
fn a_started_pool_has_an_empty_entry_for_every_port() {
    let mut pool = pool_of(65533, 65535);
    pool.start();
    let mut ports = pool.get_all_ports();
    ports.sort();
    assert_eq!(ports, vec![65533, 65534, 65535]);
    for port in ports {
        assert!(pool.get_proxy_address(port).is_none());
    }
    let mut backwards = pool_of(7, 6);
    backwards.start();
    assert!(backwards.get_all_ports().is_empty());
}

#[test]
fn what_the_pool_was_made_with_is_kept() {
    let pool = IpPool::new(
        (1, 2),
        "http://api".to_string(),
        0,
        0,
        "user".to_string(),
        "SECRET-REDACTED".to_string(),
    );
    assert_eq!(pool.proxy_username(), "user");
    assert_eq!(pool.proxy_password(), "SECRET-REDACTED");
    assert_eq!(pool.fetch_url(), "http://api");
    assert_eq!(pool.reserve_size(), 0);
    assert!(pool.get_all_ports().is_empty());
}

#[test]
fn one_port_does_not_touch_another() {
    let mut pool = pool_of(1, 2);
    pool.set_proxy_address(1, "1.1.1.1:1".to_string());
    pool.set_proxy_address(2, "2.2.2.2:2".to_string());
    mark_unavailable(&mut pool, 1, &[]);
    assert!(pool.get_proxy_address(1).is_none());
    assert_eq!(pool.get_proxy_address(2), Some("2.2.2.2:2".to_string()));
    pool.mark_used_at(2, 5);
    pool.mark_used_at(3, 5);
    assert_eq!(pool.get_all_ports().len(), 2);
}

#[test]
fn a_fetched_address_goes_to_the_port_that_wants_one() {
    let mut pool = pool_of(10000, 10000);
    pool.start();
    let step = pool.fetch_and_assign();
    assert!(matches!(step, FetchStep::AskApi { recipient: Some(10000) }));
    let step = pool.fetch_next(step, FetchEvent::Answered(Some(" 5.6.7.8 \n".to_string())));
    match &step {
        FetchStep::TryFetched { recipient, address } => {
            assert_eq!(*recipient, Some(10000));
            assert_eq!(address, "5.6.7.8:1080");
        }
        _ => panic!("the address is to be tried"),
    }
    let step = pool.fetch_next(step, FetchEvent::Tried(Some(12)));
    assert!(matches!(step, FetchStep::Finished));
    assert_eq!(pool.get_proxy_address(10000), Some("5.6.7.8:1080".to_string()));
    assert_eq!(pool.reserve_size(), 0);
}

#[test]
fn an_answer_that_is_no_address_is_dropped() {
    for answer in [None, Some(""), Some("   \r\n"), Some("{\"code\":1}")] {
        let mut pool = pool_of(10000, 10000);
        pool.start();
        fetch(&mut pool, answer, Some(1));
        assert!(pool.get_proxy_address(10000).is_none());
        assert_eq!(pool.reserve_size(), 0);
    }
}

#[test]
fn a_fetched_address_that_does_not_answer_is_dropped() {
    let mut pool = pool_of(10000, 10000);
    pool.start();
    fetch(&mut pool, Some("5.6.7.8:9"), None);
    assert!(pool.get_proxy_address(10000).is_none());
    assert_eq!(pool.reserve_size(), 0);
}

#[test]
fn the_reserve_comes_before_the_api() {
    let mut pool = pool_of(10000, 10000);
    pool.set_proxy_address(10000, "1.2.3.4:10000".to_string());
    fetch(&mut pool, Some("9.9.9.9:1"), Some(3));
    fetch(&mut pool, Some("9.9.9.9:2"), Some(3));
    assert_eq!(pool.reserve_size(), 2);
    pool.set_proxy_address(10000, String::new());
    let step = pool.fetch_and_assign();
    match &step {
        FetchStep::TryReserve { port, address } => {
            assert_eq!(*port, 10000);
            assert_eq!(address, "9.9.9.9:1");
        }
        _ => panic!("the reserve is to be tried first"),
    }
    let step = pool.fetch_next(step, FetchEvent::Tried(None));
    match &step {
        FetchStep::TryReserve { address, .. } => assert_eq!(address, "9.9.9.9:2"),
        _ => panic!("the next of the reserve is to be tried"),
    }
    let step = pool.fetch_next(step, FetchEvent::Tried(None));
    assert!(matches!(step, FetchStep::AskApi { recipient: Some(10000) }));
    assert_eq!(pool.reserve_size(), 0);
}

#[test]
fn the_reserve_takes_in_no_more_than_its_limit() {
    let mut pool = pool_of(10000, 10000);
    pool.set_proxy_address(10000, "1.2.3.4:10000".to_string());
    for i in 0..RESERVE_LIMIT + 5 {
        fetch(&mut pool, Some(&format!("9.9.9.9:{}", i)), Some(3));
    }
    assert_eq!(RESERVE_LIMIT, 50);
    assert_eq!(pool.reserve_size(), 50);
}

#[test]
fn the_most_urgent_port_is_supplied() {
    let mut pool = pool_of(1, 2);
    pool.set_proxy_address(1, "1.1.1.1:1".to_string());
    pool.set_proxy_address(2, "2.2.2.2:2".to_string());
    let step = pool.fetch_and_assign_at(&vec![(1, IDLE_LIMIT + 1), (2, EXPIRY + 1)]);
    assert!(matches!(step, FetchStep::AskApi { recipient: Some(2) }));
    let step = pool.fetch_and_assign_at(&vec![(1, IDLE_LIMIT + 1), (2, 0)]);
    assert!(matches!(step, FetchStep::AskApi { recipient: Some(1) }));
    let step = pool.fetch_and_assign_at(&vec![(1, 0), (2, 0)]);
    assert!(matches!(step, FetchStep::AskApi { recipient: None }));
}

#[test]
fn only_expired_addresses_leave_the_reserve() {
    let mut pool = pool_of(10000, 10000);
    pool.set_proxy_address(10000, "1.2.3.4:10000".to_string());
    for i in 1..=3 {
        fetch(&mut pool, Some(&format!("9.9.9.9:{}", i)), Some(3));
    }
    pool.clean_expired_reserve();
    assert_eq!(pool.reserve_size(), 3);
    pool.clean_expired_reserve_at(&vec![EXPIRY + 1, EXPIRY, EXPIRY + 1]);
    assert_eq!(pool.reserve_size(), 1);
    assert!(mark_unavailable(&mut pool, 10000, &["9.9.9.9:2"]));
    assert_eq!(pool.get_proxy_address(10000), Some("9.9.9.9:2".to_string()));
}

#[test]
fn the_first_of_the_reserve_that_answers_is_taken() {
    let mut pool = pool_of(10000, 10000);
    pool.set_proxy_address(10000, "1.2.3.4:10000".to_string());
    for i in 1..=3 {
        fetch(&mut pool, Some(&format!("9.9.9.9:{}", i)), Some(3));
    }
    assert!(mark_unavailable(&mut pool, 10000, &["9.9.9.9:2", "9.9.9.9:3"]));
    assert_eq!(pool.get_proxy_address(10000), Some("9.9.9.9:2".to_string()));
    assert_eq!(pool.reserve_size(), 1);
    assert!(!mark_unavailable(&mut pool, 10000, &[]));
    assert!(pool.get_proxy_address(10000).is_none());
    assert_eq!(pool.reserve_size(), 0);
}

#[test]
fn a_port_that_is_not_in_the_pool_gets_no_address() {
    let mut pool = pool_of(10000, 10000);
    pool.set_proxy_address(10000, "1.2.3.4:10000".to_string());
    fetch(&mut pool, Some("9.9.9.9:1"), Some(3));
    assert!(!mark_unavailable(&mut pool, 7, &["9.9.9.9:1"]));
    assert!(pool.get_proxy_address(7).is_none());
    assert_eq!(pool.get_all_ports(), vec![10000]);
}

#[test]
fn a_health_check_replaces_what_does_not_answer() {
    let mut pool = pool_of(1, 3);
    pool.start();
    pool.set_proxy_address(1, "1.1.1.1:1".to_string());
    pool.set_proxy_address(2, "2.2.2.2:2".to_string());
    pool.set_proxy_address(3, "3.3.3.3:3".to_string());
    fetch(&mut pool, Some("9.9.9.9:1"), Some(3));
    let mut check = pool.health_check();
    let mut probed = Vec::new();
    let mut pauses = 0;
    loop {
        let ok = match check.step() {
            HealthStep::Finished => break,
            HealthStep::Probe { port, .. } => {
                probed.push(*port);
                *port != 2
            }
            HealthStep::TryReserve { port, address } => {
                assert_eq!(*port, 2);
                address == "9.9.9.9:1"
            }
            HealthStep::Pause => {
                pauses += 1;
                true
            }
        };
        pool.health_next(&mut check, ok);
    }
    probed.sort();
    assert_eq!(probed, vec![1, 2, 3]);
    assert_eq!(pauses, 3);
    assert_eq!(pool.get_proxy_address(1), Some("1.1.1.1:1".to_string()));
    assert_eq!(pool.get_proxy_address(2), Some("9.9.9.9:1".to_string()));
    assert_eq!(pool.get_proxy_address(3), Some("3.3.3.3:3".to_string()));
}

#[test]
fn a_health_check_leaves_out_ports_without_an_address() {
    let mut pool = pool_of(1, 3);
    pool.start();
    let check = pool.health_check();
    assert!(matches!(check.step(), HealthStep::Finished));
}

#[test]
fn an_address_without_a_port_gets_the_default_one() {
    assert_eq!(IpPool::parse_upstream_addr("5.6.7.8"), "5.6.7.8:1080");
    assert_eq!(IpPool::parse_upstream_addr("5.6.7.8:9"), "5.6.7.8:9");
    assert_eq!(IpPool::fetched_ip(" a \n"), Some("a".to_string()));
    assert_eq!(IpPool::fetched_ip(" \n"), None);
    assert_eq!(IpPool::fetched_ip(" {\"code\":1}"), None);
}

/// A time before now at which an address assigned would have expired by now.
fn long_ago() -> Instant {
    Instant::now().checked_sub(Duration::from_secs(700)).unwrap()
}

#[test]
fn an_entry_bears_the_time_at_which_it_was_made() {
    let then = long_ago();
    let e = ProxyEntry::new_at("1.2.3.4:1".to_string(), 7, then);
    assert_eq!(e.created_at, then);
    assert_eq!(e.last_used, 0);
    assert!(e.is_expired());
    assert!(e.is_soon_expiring());
    assert!(e.is_idle());
    assert_eq!(e.rotation_priority(), 800);
    let r = ReserveEntry::new_at("1.2.3.4:1".to_string(), 9, then);
    assert_eq!(r.created_at, then);
    assert_eq!(r.latency_ms, 9);
    assert!(r.is_expired());
    let before = Instant::now();
    let e = entry();
    assert!(before <= e.created_at && e.created_at <= Instant::now());
}

#[test]
fn an_assignment_starts_the_time_anew() {
    let mut pool = pool_of(1, 1);
    pool.set_proxy_address_at(1, "1.1.1.1:1".to_string(), long_ago());
    let step = pool.fetch_and_assign();
    assert!(matches!(step, FetchStep::AskApi { recipient: Some(1) }));
    let step = pool.fetch_next(step, FetchEvent::Answered(Some("2.2.2.2:2".to_string())));
    let step = pool.fetch_next_at(step, FetchEvent::Tried(Some(1)), Instant::now());
    assert!(matches!(step, FetchStep::Finished));
    assert_eq!(pool.get_proxy_address(1), Some("2.2.2.2:2".to_string()));
    assert!(matches!(pool.fetch_and_assign(), FetchStep::AskApi { recipient: None }));
}

#[test]
fn a_health_check_keeps_the_age_of_what_answers() {
    let mut pool = pool_of(1, 1);
    pool.set_proxy_address_at(1, "1.1.1.1:1".to_string(), long_ago());
    let mut check = pool.health_check();
    while !matches!(check.step(), HealthStep::Finished) {
        pool.health_next_at(&mut check, true, Instant::now());
    }
    assert!(matches!(pool.fetch_and_assign(), FetchStep::AskApi { recipient: Some(1) }));
}

#[test]
fn the_reserve_expires_by_the_clock() {
    let mut pool = pool_of(1, 1);
    pool.set_proxy_address(1, "1.1.1.1:1".to_string());
    for then in [long_ago(), Instant::now()] {
        let step = pool.fetch_and_assign();
        let step = pool.fetch_next(step, FetchEvent::Answered(Some("2.2.2.2:2".to_string())));
        pool.fetch_next_at(step, FetchEvent::Tried(Some(1)), then);
    }
    assert_eq!(pool.reserve_size(), 2);
    pool.clean_expired_reserve();
    assert_eq!(pool.reserve_size(), 1);
}

#[test]
fn supplying_from_the_reserve_starts_the_time_anew() {
    let mut pool = pool_of(1, 1);
    pool.set_proxy_address_at(1, "1.1.1.1:1".to_string(), long_ago());
    assert!(matches!(
        pool.replenish_tried_at(1, "3.3.3.3:3".to_string(), true, Instant::now()),
        ReplenishStep::Finished { replaced: true }
    ));
    assert!(matches!(pool.fetch_and_assign(), FetchStep::AskApi { recipient: None }));
    pool.replenish_tried_at(1, "3.3.3.3:3".to_string(), true, long_ago());
    assert!(matches!(pool.fetch_and_assign(), FetchStep::AskApi { recipient: Some(1) }));
}

#[test]
fn starting_replaces_the_entries_of_the_range_alone() {
    let mut pool = pool_of(1, 2);
    pool.set_proxy_address(2, "2.2.2.2:2".to_string());
    pool.set_proxy_address(3, "3.3.3.3:3".to_string());
    pool.start_at(long_ago());
    assert!(pool.get_proxy_address(2).is_none());
    assert_eq!(pool.get_proxy_address(3), Some("3.3.3.3:3".to_string()));
    assert_eq!(pool.get_all_ports().len(), 3);
}

#[test]
fn one_fetch_asks_once_and_comes_to_an_end() {
    let mut pool = pool_of(1, 1);
    pool.set_proxy_address(1, "1.1.1.1:1".to_string());
    for i in 1..=3 {
        fetch(&mut pool, Some(&format!("9.9.9.9:{}", i)), Some(3));
    }
    pool.set_proxy_address(1, String::new());
    let mut step = pool.fetch_and_assign();
    let mut outcomes = 0;
    let mut asked = 0;
    while !matches!(step, FetchStep::Finished) {
        let event = match step {
            FetchStep::AskApi { .. } => {
                asked += 1;
                FetchEvent::Answered(Some("8.8.8.8:8".to_string()))
            }
            _ => FetchEvent::Tried(None),
        };
        step = pool.fetch_next(step, event);
        outcomes += 1;
    }
    assert_eq!(asked, 1);
    assert_eq!(outcomes, 5);
    assert_eq!(pool.reserve_size(), 0);
    assert!(pool.get_proxy_address(1).is_none());
}

#[test]
fn a_health_check_ends_when_all_fails() {
    let mut pool = pool_of(1, 2);
    pool.set_proxy_address(1, "1.1.1.1:1".to_string());
    pool.set_proxy_address(2, "2.2.2.2:2".to_string());
    for i in 1..=3 {
        fetch(&mut pool, Some(&format!("9.9.9.9:{}", i)), Some(3));
    }
    let mut check = pool.health_check();
    let mut outcomes = 0;
    while !matches!(check.step(), HealthStep::Finished) {
        pool.health_next(&mut check, false);
        outcomes += 1;
    }
    assert_eq!(outcomes, 3 + 2 * 2);
    assert_eq!(pool.reserve_size(), 0);
    assert!(pool.get_proxy_address(1).is_none());
    assert!(pool.get_proxy_address(2).is_none());
}

#[test]
fn rounds_repeat() {
    let first = RoundStep::first();
    assert_eq!(first, RoundStep::Fetch);
    assert_eq!(first.next(), RoundStep::Wait { seconds: 11 });
    assert_eq!(first.next().next(), RoundStep::Clean);
    assert_eq!(first.next().next().next(), RoundStep::Check);
    assert_eq!(first.next().next().next().next(), RoundStep::Fetch);
}
