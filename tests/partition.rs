use onebrc::partition::{get_intervals_for_cpus, Interval};

fn check_cover(data: &[u8], ivs: &[Interval]) {
    if data.is_empty() {
        assert!(ivs.is_empty());
        return;
    }
    assert_eq!(ivs[0].start, 0);
    for w in ivs.windows(2) {
        assert_eq!(w[1].start, w[0].end + 1);
        assert_eq!(data[w[0].end as usize], b'\n');
    }
    for iv in ivs {
        assert!(iv.start <= iv.end);
    }
    let last = ivs[ivs.len() - 1];
    if data[data.len() - 1] == b'\n' {
        assert_eq!(last.end as usize, data.len() - 1);
    } else {
        assert_eq!(last.end as usize, data.len());
    }
}

#[test]
fn one_worker_takes_everything() {
    let data = b"a;1.0\nbb;2.0\nccc;3.0\n";
    let ivs = get_intervals_for_cpus(1, data);
    assert_eq!(ivs, vec![Interval { start: 0, end: 20 }]);
}

#[test]
fn ranges_end_on_line_terminators() {
    let data = b"a;1.0\nbb;2.0\nccc;3.0\n";
    let ivs = get_intervals_for_cpus(2, data);
    assert_eq!(ivs, vec![Interval { start: 0, end: 12 }, Interval { start: 13, end: 20 }]);
    check_cover(data, &ivs);
}

#[test]
fn more_workers_than_lines_gives_fewer_ranges() {
    let data = b"a;1.0\nb;2.0\n";
    let ivs = get_intervals_for_cpus(8, data);
    assert!(ivs.len() <= 2);
    check_cover(data, &ivs);
}

#[test]
fn empty_file_gives_no_range() {
    assert!(get_intervals_for_cpus(4, b"").is_empty());
}

#[test]
fn file_without_final_terminator_is_covered() {
    let data = b"a;1.0\nb;2.0\nc;3.0";
    let ivs = get_intervals_for_cpus(3, data);
    check_cover(data, &ivs);
    assert_eq!(ivs[ivs.len() - 1].end, 17);
}

#[test]
fn coverage_for_many_sizes_and_workers() {
    let mut data: Vec<u8> = Vec::new();
    for i in 0..50u32 {
        let name = format!("station{}", i % 7);
        data.extend_from_slice(name.as_bytes());
        data.extend_from_slice(b";");
        data.extend_from_slice(format!("{}.{}", i % 40, i % 10).as_bytes());
        data.push(b'\n');
        for p in 1..12usize {
            let ivs = get_intervals_for_cpus(p, &data);
            assert!(ivs.len() <= p);
            check_cover(&data, &ivs);
        }
    }
}
