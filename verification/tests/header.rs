//! Whole-header decoding: the end-to-end path and truncated inputs.

use edf::error::{Error, ErrorKind, HeaderError};
use edf::reader::{Date, Reader, Time};

/// A well-formed 256-byte header.
fn sample_header() -> Vec<u8> {
    let mut data = Vec::new();
    put_field(&mut data, "0", 8);
    put_field(&mut data, "PAT1", 80);
    put_field(&mut data, "REC1", 80);
    put_field(&mut data, "02.03.95", 8);
    put_field(&mut data, "10.00.00", 8);
    put_field(&mut data, "256", 8);
    put_field(&mut data, "", 44);
    put_field(&mut data, "-1", 8);
    put_field(&mut data, "1", 8);
    put_field(&mut data, "4", 4);
    data
}

fn put_field(data: &mut Vec<u8>, text: &str, width: usize) {
    assert!(text.len() <= width);
    data.extend_from_slice(text.as_bytes());
    for _ in text.len()..width {
        data.push(b' ');
    }
}

#[test]
fn well_formed_header_parses_end_to_end() {
    let data = sample_header();
    let h = Reader::read_header(&data).unwrap();
    assert_eq!(h.patient_info.trim_end(), "PAT1");
    assert_eq!(h.recording_id.trim_end(), "REC1");
    assert_eq!(h.start_datetime.date, Date::new(1995, 3, 2));
    assert_eq!(h.start_datetime.time, Time::new(10, 0, 0));
    assert_eq!(h.size, 256);
    assert_eq!(h.reserved.trim_end(), "");
    assert_eq!(h.records_len, None);
    assert_eq!(h.duration, 1);
    assert_eq!(h.signals_len, 4);
}

#[test]
fn known_record_count_comes_through() {
    let mut data = sample_header();
    data[236..239].copy_from_slice(b"150");
    let h = Reader::read_header(&data).unwrap();
    assert_eq!(h.records_len, Some(150));
}

#[test]
fn extra_bytes_after_the_prefix_are_ignored() {
    let mut data = sample_header();
    data.extend_from_slice(&[0u8; 64]);
    let h = Reader::read_header(&data).unwrap();
    assert_eq!(h.signals_len, 4);
}

#[test]
fn empty_input_fails_at_the_version_field() {
    let data: Vec<u8> = Vec::new();
    assert_eq!(
        Reader::read_header(&data).unwrap_err(),
        Error::new(ErrorKind::Io { offset: 0 })
    );
}

#[test]
fn input_cut_after_the_version_fails_at_the_patient_field() {
    let data = sample_header()[..8].to_vec();
    assert_eq!(
        Reader::read_header(&data).unwrap_err(),
        Error::new(ErrorKind::Io { offset: 8 })
    );
}

#[test]
fn truncation_is_reported_at_the_first_missing_field() {
    // Each prefix length up to the full width fails at the field that starts
    // at or before that length but does not fit in it.
    let full = sample_header();
    let cases = [
        (7, 0),
        (87, 8),
        (100, 88),
        (170, 168),
        (180, 176),
        (190, 184),
        (200, 192),
        (240, 236),
        (250, 244),
        (255, 252),
    ];
    for (len, offset) in cases {
        let data = full[..len].to_vec();
        assert_eq!(
            Reader::read_header(&data).unwrap_err(),
            Error::new(ErrorKind::Io { offset }),
            "prefix of {} bytes",
            len
        );
    }
}

#[test]
fn a_failed_field_abandons_the_parse() {
    // The version is checked before anything later is looked at.
    let mut data = sample_header()[..8].to_vec();
    data[0] = b'1';
    assert_eq!(
        Reader::read_header(&data).unwrap_err(),
        Error::new(ErrorKind::Header(HeaderError::InvalidVersion))
    );
    // A bad date is reported even though the record count is also bad.
    let mut data = sample_header();
    data[168..176].copy_from_slice(b"99.99.99");
    data[236..244].copy_from_slice(b"0       ");
    assert_eq!(
        Reader::read_header(&data).unwrap_err(),
        Error::new(ErrorKind::Header(HeaderError::InvalidDate))
    );
}

#[test]
fn error_kind_is_exposed_for_callers() {
    let e = Error::new(ErrorKind::Header(HeaderError::InvalidVersion));
    assert_eq!(e.kind(), ErrorKind::Header(HeaderError::InvalidVersion));
}
