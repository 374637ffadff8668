use clapscan::addr::IpAddress;
use clapscan::scan::{ProbeOutcome, Scanner};

fn echo_target() -> IpAddress {
    IpAddress::V4(127, 0, 0, 1)
}

#[test]
fn finding_status_is_open() {
    let mut sc = Scanner::new(echo_target(), vec![9000], 1);
    let p = sc.launch().unwrap();
    sc.complete(p, ProbeOutcome::Open(None));
    let report = sc.into_report();
    assert_eq!(report[0].status(), "open");
}

#[test]
fn one_listener_in_range() {
    // A scan of 8999-9001 against a host with one echo service on 9000:
    // exactly one finding, for 9000, with the banner the service sent.
    let mut sc = Scanner::new(echo_target(), vec![8999, 9000, 9001], 2);
    let a = sc.launch().unwrap();
    let b = sc.launch().unwrap();
    assert_eq!((a, b), (8999, 9000));
    assert!(sc.launch().is_none(), "concurrency bound is 2");
    sc.complete(a, ProbeOutcome::Closed);
    let c = sc.launch().unwrap();
    assert_eq!(c, 9001);
    sc.complete(c, ProbeOutcome::TimedOut);
    sc.complete(b, ProbeOutcome::Open(Some(String::from("echo"))));
    assert!(sc.is_done());
    let report = sc.into_report();
    assert_eq!(report.len(), 1);
    assert_eq!(report[0].port, 9000);
    assert_eq!(report[0].host, echo_target());
    assert_eq!(report[0].banner, Some(String::from("echo")));
}

#[test]
fn open_without_banner_still_reported() {
    let mut sc = Scanner::new(echo_target(), vec![80], 1);
    let p = sc.launch().unwrap();
    sc.complete(p, ProbeOutcome::Open(None));
    let report = sc.into_report();
    assert_eq!(report.len(), 1);
    assert_eq!(report[0].port, 80);
    assert_eq!(report[0].banner, None);
}

#[test]
fn failures_never_abort_the_scan() {
    let mut sc = Scanner::new(echo_target(), vec![1, 2, 3, 4], 4);
    let a = sc.launch().unwrap();
    let b = sc.launch().unwrap();
    let c = sc.launch().unwrap();
    let d = sc.launch().unwrap();
    sc.complete(b, ProbeOutcome::Failed);
    sc.complete(a, ProbeOutcome::TimedOut);
    sc.complete(d, ProbeOutcome::Open(None));
    sc.complete(c, ProbeOutcome::Closed);
    assert!(sc.is_done());
    let report = sc.into_report();
    assert_eq!(report.len(), 1);
    assert_eq!(report[0].port, 4);
}

#[test]
fn concurrency_bound_holds_throughout() {
    // 100 ports against an unreachable host, concurrency 5: at no point are
    // more than 5 probes in flight.
    let ports: Vec<u16> = (1u16..=100).collect();
    let mut sc = Scanner::new(IpAddress::V4(10, 255, 255, 1), ports, 5);
    let mut in_flight: Vec<u16> = Vec::new();
    let mut max_seen: usize = 0;
    loop {
        while let Some(p) = sc.launch() {
            in_flight.push(p);
            max_seen = max_seen.max(sc.in_flight_count());
        }
        assert!(sc.in_flight_count() <= 5);
        match in_flight.pop() {
            Some(p) => {
                assert!(sc.is_in_flight(p));
                sc.complete(p, ProbeOutcome::TimedOut);
            }
            None => break,
        }
    }
    assert!(sc.is_done());
    assert_eq!(max_seen, 5);
    assert_eq!(sc.into_report().len(), 0);
}

fn run_scan(ports: &[u16], concurrency: usize, drain_front: bool) -> Vec<u16> {
    // Drives a whole scan with a fixed behavior per port (multiples of 3
    // are open), completing probes in different orders per `drain_front`.
    let mut sc = Scanner::new(echo_target(), ports.to_vec(), concurrency);
    let mut in_flight: Vec<u16> = Vec::new();
    loop {
        while let Some(p) = sc.launch() {
            in_flight.push(p);
        }
        let next = if drain_front {
            if in_flight.is_empty() { None } else { Some(in_flight.remove(0)) }
        } else {
            in_flight.pop()
        };
        match next {
            Some(p) => {
                let outcome = if p % 3 == 0 {
                    ProbeOutcome::Open(None)
                } else {
                    ProbeOutcome::Closed
                };
                sc.complete(p, outcome);
            }
            None => break,
        }
    }
    assert!(sc.is_done());
    let mut open: Vec<u16> = sc.into_report().iter().map(|f| f.port).collect();
    open.sort_unstable();
    open
}

#[test]
fn same_outcomes_same_open_set() {
    // Two runs over the same ports with the same per-port outcomes report
    // the same set of open ports, though completion order differs.
    let ports: Vec<u16> = (1u16..=50).collect();
    let first = run_scan(&ports, 7, true);
    let second = run_scan(&ports, 3, false);
    assert_eq!(first, second);
    assert_eq!(first, (1u16..=50).filter(|p| p % 3 == 0).collect::<Vec<u16>>());
}
