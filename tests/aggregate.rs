use onebrc::aggregate::{
    can_merge, create_shared_map, merge_map, process_chunk, ChunkError, StationsMap,
};
use onebrc::partition::{get_intervals_for_cpus, Interval};
use onebrc::report::format_shared_map;
use onebrc::station_key::to_key;
use onebrc::stats::City;

fn numbers(m: &StationsMap) -> Vec<(u64, i32, i32, i64, u64)> {
    m.iter().map(|(k, c)| (*k, c.min, c.max, c.total, c.count)).collect()
}

fn run(data: &[u8], cpus: usize) -> StationsMap {
    let mut all = StationsMap::new();
    for iv in get_intervals_for_cpus(cpus, data) {
        let part = process_chunk(data, iv).unwrap();
        assert!(can_merge(&all, &part));
        all = merge_map(all, &part);
    }
    all
}

const EXAMPLE: &[u8] = b"Paris;12.3\nParis;15.0\nLondon;-2.5\n";

#[test]
fn end_to_end_example() {
    let m = run(EXAMPLE, 1);
    assert_eq!(format_shared_map(&m), "{Paris=12.3/13.6/15.0, London=-2.5/-2.5/-2.5}");
}

#[test]
fn end_to_end_example_on_several_workers() {
    for p in 1..6 {
        let m = run(EXAMPLE, p);
        assert_eq!(format_shared_map(&m), "{Paris=12.3/13.6/15.0, London=-2.5/-2.5/-2.5}");
    }
}

#[test]
fn aggregates_one_chunk() {
    let m = create_shared_map(EXAMPLE).unwrap();
    let paris = m.get(&to_key(b"Paris")).unwrap();
    assert_eq!((paris.min, paris.max, paris.total, paris.count), (123, 150, 273, 2));
    assert_eq!(paris.city, "Paris");
    let london = m.get(&to_key(b"London")).unwrap();
    assert_eq!((london.min, london.max, london.total, london.count), (-25, -25, -25, 1));
    assert_eq!(m.len(), 2);
}

#[test]
fn last_line_without_terminator_counts() {
    let m = create_shared_map(b"Oslo;1.0\nOslo;3.0").unwrap();
    let oslo = m.get(&to_key(b"Oslo")).unwrap();
    assert_eq!((oslo.min, oslo.max, oslo.total, oslo.count), (10, 30, 40, 2));
}

#[test]
fn empty_chunk_gives_empty_map() {
    let m = create_shared_map(b"").unwrap();
    assert!(m.is_empty());
    assert_eq!(format_shared_map(&m), "{}");
}

#[test]
fn missing_separator_is_an_error() {
    assert_eq!(create_shared_map(b"Paris;1.0\nParis 2.0\n").unwrap_err(), ChunkError::MissingSeparator);
}

#[test]
fn bad_temperature_is_an_error() {
    assert_eq!(create_shared_map(b"Paris;100.0\n").unwrap_err(), ChunkError::BadTemperature);
    assert_eq!(create_shared_map(b"Paris;1.25\n").unwrap_err(), ChunkError::BadTemperature);
}

#[test]
fn invalid_name_is_an_error() {
    assert_eq!(create_shared_map(b"\xff\xfe;1.0\n").unwrap_err(), ChunkError::InvalidName);
}

#[test]
fn first_failing_line_decides_the_error() {
    assert_eq!(create_shared_map(b"A;9.99\nB\n").unwrap_err(), ChunkError::BadTemperature);
    assert_eq!(create_shared_map(b"B\nA;9.99\n").unwrap_err(), ChunkError::MissingSeparator);
}

#[test]
fn name_is_decoded_as_text() {
    let m = create_shared_map("São Paulo;25.1\n".as_bytes()).unwrap();
    let c = m.get(&to_key("São Paulo".as_bytes())).unwrap();
    assert_eq!(c.city, "São Paulo");
    assert_eq!(format_shared_map(&m), "{São Paulo=25.1/25.1/25.1}");
}

#[test]
fn colliding_names_share_the_first_name() {
    let m = create_shared_map(b"abcdefghX;1.0\nabcdefghY;3.0\n").unwrap();
    assert_eq!(m.len(), 1);
    let c = m.values().next().unwrap();
    assert_eq!(c.city, "abcdefghX");
    assert_eq!((c.min, c.max, c.total, c.count), (10, 30, 40, 2));
}

#[test]
fn merge_into_empty_is_identity() {
    let part = create_shared_map(EXAMPLE).unwrap();
    let merged = merge_map(StationsMap::new(), &part);
    assert_eq!(numbers(&merged), numbers(&part));
    for (k, c) in part.iter() {
        assert_eq!(merged.get(k).unwrap().city, c.city);
    }
}

#[test]
fn merge_combines_shared_keys() {
    let a = create_shared_map(b"Rome;10.0\nRome;-3.0\n").unwrap();
    let b = create_shared_map(b"Rome;20.5\nOslo;1.0\n").unwrap();
    let m = merge_map(a, &b);
    let rome = m.get(&to_key(b"Rome")).unwrap();
    assert_eq!((rome.min, rome.max, rome.total, rome.count), (-30, 205, 275, 3));
    assert_eq!(m.len(), 2);
}

#[test]
fn partition_does_not_change_the_numbers() {
    let mut data: Vec<u8> = Vec::new();
    let names = ["Abha", "Tokyo", "Nairobi", "Reykjavik", "Saint-Petersburg"];
    for i in 0..200u32 {
        let name = names[(i * 7 % 5) as usize];
        let sign = if i % 3 == 0 { "-" } else { "" };
        data.extend_from_slice(format!("{};{}{}.{}\n", name, sign, (i * 13) % 60, i % 10).as_bytes());
    }
    let whole = create_shared_map(&data).unwrap();
    for p in 1..17 {
        let split = run(&data, p);
        assert_eq!(numbers(&split), numbers(&whole));
        assert_eq!(format_shared_map(&split), format_shared_map(&whole));
    }
}

#[test]
fn mean_truncates_toward_zero() {
    let m = create_shared_map(b"X;-2.5\nX;-3.0\n").unwrap();
    assert_eq!(format_shared_map(&m), "{X=-3.0/-2.7/-2.5}");
    let m = create_shared_map(b"Y;1.0\nY;1.0\nY;1.1\n").unwrap();
    assert_eq!(format_shared_map(&m), "{Y=1.0/1.0/1.1}");
}

#[test]
fn city_text_and_updates() {
    let mut c = City::new(String::from("Lima"), 150);
    c.update(-50);
    c.update(205);
    assert_eq!((c.min, c.max, c.total, c.count), (-50, 205, 305, 3));
    assert_eq!(c.mean(), 101);
    assert_eq!(c.to_text(), "-5.0/10.1/20.5");
    let other = City::new(String::from("Other"), -100);
    c.merge(&other);
    assert_eq!((c.min, c.max, c.total, c.count), (-100, 205, 205, 4));
    assert_eq!(c.city, "Lima");
}

#[test]
fn process_chunk_reads_only_its_range() {
    let data = b"A;1.0\nB;2.0\nC;3.0\n";
    let m = process_chunk(data, Interval { start: 6, end: 11 }).unwrap();
    assert_eq!(m.len(), 1);
    assert!(m.contains_key(&to_key(b"B")));
}
