use port_scanner::ports::worker_ports;
use port_scanner::report::{aggregate, open_ports_of};

fn simulated_drain(threads: u16, open: &Vec<u16>, reverse_workers: bool) -> Vec<u16> {
    let mut drain: Vec<u16> = Vec::new();
    let order: Vec<u16> = if reverse_workers {
        (0..threads).rev().collect()
    } else {
        (0..threads).collect()
    };
    for i in order {
        let emitted = open_ports_of(&worker_ports(i, threads), open);
        drain.extend(emitted);
    }
    drain
}

#[test]
fn aggregate_sorts_ascending() {
    let report = aggregate(vec![5, 3, 8080, 3, 1]);
    assert_eq!(report, vec![1, 3, 3, 5, 8080]);
}

#[test]
fn aggregate_empty() {
    let report = aggregate(Vec::new());
    assert!(report.is_empty());
}

#[test]
fn open_ports_filtering() {
    let ports = vec![1u16, 2, 3, 4];
    let open = vec![2u16, 4, 9];
    assert_eq!(open_ports_of(&ports, &open), vec![2, 4]);
}

#[test]
fn scenario_two_listeners() {
    let open = vec![22u16, 8080];
    let report = aggregate(simulated_drain(4, &open, false));
    assert_eq!(report, vec![22, 8080]);
}

#[test]
fn scenario_no_listeners() {
    let open: Vec<u16> = Vec::new();
    let report = aggregate(simulated_drain(4, &open, false));
    assert!(report.is_empty());
}

#[test]
fn idempotent_reports() {
    let open = vec![22u16, 80, 443, 8080, 65535];
    let first = aggregate(simulated_drain(6, &open, false));
    let second = aggregate(simulated_drain(6, &open, true));
    assert_eq!(first, second);
    assert_eq!(first, vec![22, 80, 443, 8080, 65535]);
}
