use port_scan::collect::{report_from_outcomes, Collector};
use port_scan::ports::{end_port_guard, ports_to_scan, start_port_guard};

#[test]
fn guards_accept_valid_bounds() {
    assert!(!start_port_guard(&0));
    assert!(start_port_guard(&1));
    assert!(start_port_guard(&65535));
    assert!(end_port_guard(&1));
    assert!(end_port_guard(&65535));
}

#[test]
fn ports_to_scan_enumerates_range() {
    assert_eq!(ports_to_scan(9000, 9003), vec![9000, 9001, 9002]);
}

#[test]
fn ports_to_scan_full_range() {
    let all = ports_to_scan(1, 65535);
    assert_eq!(all.len(), 65534);
    assert_eq!(all[0], 1);
    assert_eq!(all[all.len() - 1], 65534);
}

#[test]
fn empty_range_attempts_nothing() {
    assert!(ports_to_scan(5, 5).is_empty());
}

#[test]
fn reversed_range_attempts_nothing() {
    assert!(ports_to_scan(10, 5).is_empty());
}

#[test]
fn report_is_ascending_whatever_the_arrival_order() {
    let mut c = Collector::new();
    c.record(9002);
    c.record(65535);
    c.record(9000);
    c.record(1);
    assert_eq!(c.into_report(), vec![1, 9000, 9002, 65535]);
}

#[test]
fn failed_attempts_leave_no_record() {
    let mut c = Collector::new();
    c.note_outcome(8080, false);
    c.note_outcome(8081, false);
    assert_eq!(c.len(), 0);
    assert_eq!(c.into_report(), Vec::<u16>::new());
}

#[test]
fn successful_attempts_are_recorded() {
    let mut c = Collector::new();
    c.note_outcome(8080, true);
    c.note_outcome(8081, false);
    c.note_outcome(22, true);
    assert_eq!(c.len(), 2);
    assert_eq!(c.into_report(), vec![22, 8080]);
}

#[test]
fn two_listeners_of_three_ports() {
    // Listeners on 9000 and 9002 only; 9001 refuses.
    let ports = ports_to_scan(9000, 9003);
    let open = vec![true, false, true];
    assert_eq!(report_from_outcomes(&ports, &open), vec![9000, 9002]);
}

#[test]
fn no_listeners_means_empty_report() {
    let ports = ports_to_scan(9000, 9100);
    let open = vec![false; ports.len()];
    assert_eq!(report_from_outcomes(&ports, &open), Vec::<u16>::new());
}

#[test]
fn scan_twice_same_open_set_same_report() {
    // The same open ports, arriving in two different completion orders.
    let mut first = Collector::new();
    for p in [9003u16, 9000, 9005, 9001, 9004, 9002] {
        first.record(p);
    }
    let mut second = Collector::new();
    for p in [9001u16, 9004, 9002, 9005, 9000, 9003] {
        second.record(p);
    }
    let a = first.into_report();
    let b = second.into_report();
    assert_eq!(a, b);
    assert_eq!(a, vec![9000, 9001, 9002, 9003, 9004, 9005]);
}

#[test]
fn thousands_of_distinct_open_ports_all_reported_once() {
    let n: u16 = 3000;
    let mut c = Collector::new();
    // Completion in descending order, the worst case for reordering.
    for i in 0..n {
        c.note_outcome(5000 + (n - 1 - i), true);
    }
    let report = c.into_report();
    assert_eq!(report.len(), n as usize);
    for (i, &p) in report.iter().enumerate() {
        assert_eq!(p, 5000 + i as u16);
    }
}

#[test]
fn duplicate_records_are_kept() {
    let mut c = Collector::new();
    c.record(5);
    c.record(5);
    c.record(3);
    assert_eq!(c.into_report(), vec![3, 5, 5]);
}
