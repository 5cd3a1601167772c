use port_scanner::ports::worker_ports;

#[test]
fn one_worker_covers_full_range() {
    let v = worker_ports(0, 1);
    assert_eq!(v.len(), 65535);
    for (k, &p) in v.iter().enumerate() {
        assert_eq!(p as usize, k + 1);
    }
    assert_eq!(v[0], 1);
    assert_eq!(v[65534], 65535);
}

#[test]
fn max_workers_one_port_each() {
    for i in 0..65535u16 {
        let v = worker_ports(i, 65535);
        assert_eq!(v.len(), 1);
        assert_eq!(v[0], i + 1);
    }
}

#[test]
fn partition_no_gaps_no_overlaps() {
    for t in [1u16, 3, 4, 16] {
        let mut counts = vec![0u32; 65536];
        for i in 0..t {
            for &p in worker_ports(i, t).iter() {
                counts[p as usize] += 1;
            }
        }
        assert_eq!(counts[0], 0);
        for p in 1..=65535usize {
            assert_eq!(counts[p], 1, "port {} with {} workers", p, t);
        }
    }
}

#[test]
fn total_probes_is_65535() {
    for t in [1u16, 2, 5, 7, 100, 1000, 65534, 65535] {
        let mut total: u64 = 0;
        for i in 0..t {
            total += worker_ports(i, t).len() as u64;
        }
        assert_eq!(total, 65535, "{} workers", t);
    }
}

#[test]
fn worker_sequence_interleaves() {
    let v = worker_ports(2, 4);
    assert_eq!(v[0], 3);
    assert_eq!(v[1], 7);
    assert_eq!(v[2], 11);
    assert_eq!(*v.last().unwrap(), 65535);
}
