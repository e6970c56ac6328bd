use omoya::localtime::{hhmm, offset, parse_tzif, Offset};

/// A TZif block: header with `version`, `transitions` as (time, type index),
/// and one ttinfo per offset in `types`.
fn block(version: u8, wide: bool, transitions: &[(i64, u8)], types: &[i32]) -> Vec<u8> {
    let mut d = b"TZif".to_vec();
    d.push(version);
    d.extend_from_slice(&[0u8; 15]);
    let chars = b"ZZZ\0";
    for c in [0u32, 0, 0, transitions.len() as u32, types.len() as u32, chars.len() as u32] {
        d.extend_from_slice(&c.to_be_bytes());
    }
    for (t, _) in transitions {
        if wide {
            d.extend_from_slice(&t.to_be_bytes());
        } else {
            d.extend_from_slice(&(*t as i32).to_be_bytes());
        }
    }
    for (_, i) in transitions {
        d.push(*i);
    }
    for o in types {
        d.extend_from_slice(&o.to_be_bytes());
        d.push(0);
        d.push(0);
    }
    d.extend_from_slice(chars);
    d
}

fn v1(transitions: &[(i64, u8)], types: &[i32]) -> Vec<u8> {
    block(0, false, transitions, types)
}

fn v2(transitions: &[(i64, u8)], types: &[i32]) -> Vec<u8> {
    let mut d = block(b'2', false, &[], &[0]);
    d.extend_from_slice(&block(b'2', true, transitions, types));
    d
}

#[test]
fn hhmm_wraps_within_the_day() {
    let o = offset(Some(&v1(&[], &[-10800])), 0);
    let (a, _) = hhmm(0, o);
    let (b, _) = hhmm(86_400, o);
    assert_eq!(a, b);
    let (c, _) = hhmm(0, Offset::Unknown);
    let (d, _) = hhmm(86_400, Offset::Unknown);
    assert_eq!(c, d);
}

#[test]
fn a_negative_offset_does_not_produce_a_negative_hour() {
    let west = Offset::Resolved(-10800);
    let (s, resolved) = hhmm(60, west);
    assert!(resolved);
    assert_eq!(s, "21:01", "00:01Z in a -03:00 zone is 21:01 the day before");
    assert!(s.len() == 5 && s.as_bytes()[2] == b':', "got {s}");
    for o in [west, Offset::Unknown, Offset::Resolved(3600)] {
        for secs in [0_i64, 60, 3600, 86_399, -1, -3600] {
            let (t, _) = hhmm(secs, o);
            let (h, m): (u32, u32) = (t[0..2].parse().unwrap(), t[3..5].parse().unwrap());
            assert!(h < 24 && m < 60, "{secs} -> {t}");
        }
    }
}

#[test]
fn a_short_or_foreign_buffer_is_refused_rather_than_guessed() {
    assert_eq!(parse_tzif(b"", 0), None);
    assert_eq!(parse_tzif(b"NOTZ", 0), None);
    let mut d = b"TZif2".to_vec();
    d.resize(60, 0);
    assert_eq!(parse_tzif(&d, 0), None);
}

#[test]
fn the_system_zone_is_a_whole_number_of_minutes() {
    let zone = v2(&[(0, 0), (1_700_000_000, 1)], &[-10800, 3600]);
    if let Offset::Resolved(o) = offset(Some(&zone), 1_755_000_000) {
        assert_eq!(o % 60, 0, "offset {o} is not a whole minute");
        assert!(o.abs() <= 14 * 3600, "offset {o} is outside UTC-12..UTC+14");
    } else {
        panic!("a well-formed zone must resolve");
    }
}

#[test]
fn the_last_transition_at_or_before_the_instant_decides() {
    let zone = v1(&[(100, 0), (200, 1)], &[3600, 7200]);
    assert_eq!(parse_tzif(&zone, 50), Some(3600), "before every transition, type 0");
    assert_eq!(parse_tzif(&zone, 100), Some(3600));
    assert_eq!(parse_tzif(&zone, 199), Some(3600));
    assert_eq!(parse_tzif(&zone, 200), Some(7200));
    assert_eq!(parse_tzif(&zone, 10_000), Some(7200));
}

#[test]
fn a_v2_file_is_read_from_its_second_block() {
    let zone = v2(&[(0, 1)], &[0, -18000]);
    assert_eq!(parse_tzif(&zone, 5), Some(-18000));
}

#[test]
fn a_type_index_past_the_table_is_refused() {
    let zone = v1(&[(0, 5)], &[3600]);
    assert_eq!(parse_tzif(&zone, 10), None);
}

#[test]
fn no_zone_file_is_unknown_and_says_so() {
    assert_eq!(offset(None, 0), Offset::Unknown);
    let (s, resolved) = hhmm(3600 * 13 + 60 * 7, Offset::Unknown);
    assert_eq!(s, "13:07");
    assert!(!resolved);
}
