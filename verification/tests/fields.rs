//! Field decoders, each on its own byte range of a built-up input.

use edf::error::{Error, ErrorKind, HeaderError};
use edf::reader::{Reader, Time};

/// A 256-byte buffer that parses cleanly, for tests to vary one field of.
fn base_header() -> Vec<u8> {
    let mut data = Vec::new();
    push_field(&mut data, "0", 8);
    push_field(&mut data, "PAT1", 80);
    push_field(&mut data, "REC1", 80);
    push_field(&mut data, "02.03.95", 8);
    push_field(&mut data, "10.00.00", 8);
    push_field(&mut data, "256", 8);
    push_field(&mut data, "", 44);
    push_field(&mut data, "-1", 8);
    push_field(&mut data, "1", 8);
    push_field(&mut data, "4", 4);
    data
}

fn push_field(data: &mut Vec<u8>, text: &str, width: usize) {
    assert!(text.len() <= width);
    data.extend_from_slice(text.as_bytes());
    for _ in text.len()..width {
        data.push(b' ');
    }
}

fn set_field(data: &mut [u8], offset: usize, text: &str) {
    data[offset..offset + text.len()].copy_from_slice(text.as_bytes());
}

fn header_err(h: HeaderError) -> Error {
    Error::new(ErrorKind::Header(h))
}

#[test]
fn version_accepts_only_zero_then_spaces() {
    let mut data = base_header();
    assert_eq!(Reader::read_version(&data), Ok(()));
    // Any other first byte is rejected.
    set_field(&mut data, 0, "1");
    assert_eq!(
        Reader::read_version(&data),
        Err(header_err(HeaderError::InvalidVersion))
    );
    // Any non-space trailing byte is rejected.
    let mut data = base_header();
    data[7] = b'x';
    assert_eq!(
        Reader::read_version(&data),
        Err(header_err(HeaderError::InvalidVersion))
    );
    let mut data = base_header();
    set_field(&mut data, 0, "00000000");
    assert_eq!(
        Reader::read_version(&data),
        Err(header_err(HeaderError::InvalidVersion))
    );
}

#[test]
fn patient_info_keeps_trailing_content() {
    let data = base_header();
    let s = Reader::read_patient_info(&data).unwrap();
    assert_eq!(s.len(), 80);
    assert_eq!(s.trim_end(), "PAT1");
}

#[test]
fn patient_info_decodes_multibyte_text() {
    let mut data = base_header();
    // "Pé" in UTF-8: the decoded text is shorter than the 80-byte field.
    data[8] = b'P';
    data[9] = 0xC3;
    data[10] = 0xA9;
    data[11] = b' ';
    let s = Reader::read_patient_info(&data).unwrap();
    assert_eq!(s.chars().count(), 79);
    assert_eq!(s.trim_end(), "P\u{e9}");
}

#[test]
fn patient_info_rejects_bytes_that_are_not_text() {
    let mut data = base_header();
    data[10] = 0xFF;
    assert_eq!(
        Reader::read_patient_info(&data),
        Err(Error::new(ErrorKind::Utf8 { offset: 8 }))
    );
}

#[test]
fn recording_id_reads_its_own_range() {
    let data = base_header();
    let s = Reader::read_recording_id(&data).unwrap();
    assert_eq!(s.trim_end(), "REC1");
}

#[test]
fn reserved_is_passed_through() {
    let mut data = base_header();
    set_field(&mut data, 192, "opaque");
    let s = Reader::read_reserved(&data).unwrap();
    assert_eq!(s.len(), 44);
    assert_eq!(s.trim_end(), "opaque");
}

#[test]
fn start_time_accepts_a_time_of_day() {
    let data = base_header();
    assert_eq!(Reader::read_start_time(&data), Ok(Time::new(10, 0, 0)));
    let mut data = base_header();
    set_field(&mut data, 176, "23.59.59");
    assert_eq!(Reader::read_start_time(&data), Ok(Time::new(23, 59, 59)));
}

#[test]
fn start_time_rejects_out_of_range_parts() {
    for bad in ["24.00.00", "10.60.00", "10.00.60", "10:00:00", "10.00.0x"] {
        let mut data = base_header();
        set_field(&mut data, 176, bad);
        assert_eq!(
            Reader::read_start_time(&data),
            Err(header_err(HeaderError::InvalidTime))
        );
    }
}

#[test]
fn header_size_is_a_trimmed_decimal() {
    let data = base_header();
    assert_eq!(Reader::read_header_size(&data), Ok(256));
    let mut data = base_header();
    set_field(&mut data, 184, "99999999");
    assert_eq!(Reader::read_header_size(&data), Ok(99999999));
    let mut data = base_header();
    set_field(&mut data, 184, "12ab    ");
    assert_eq!(
        Reader::read_header_size(&data),
        Err(header_err(HeaderError::InvalidSize))
    );
    let mut data = base_header();
    set_field(&mut data, 184, "        ");
    assert_eq!(
        Reader::read_header_size(&data),
        Err(header_err(HeaderError::InvalidSize))
    );
}

#[test]
fn records_len_reads_the_sentinel_as_unknown() {
    let data = base_header();
    assert_eq!(Reader::read_records_len(&data), Ok(None));
}

#[test]
fn records_len_reads_a_positive_count() {
    let mut data = base_header();
    set_field(&mut data, 236, "150     ");
    assert_eq!(Reader::read_records_len(&data), Ok(Some(150)));
}

#[test]
fn records_len_rejects_zero_and_other_negatives() {
    let mut data = base_header();
    set_field(&mut data, 236, "0       ");
    assert_eq!(
        Reader::read_records_len(&data),
        Err(header_err(HeaderError::RecordsLenOutOfRange))
    );
    let mut data = base_header();
    set_field(&mut data, 236, "-5      ");
    assert_eq!(
        Reader::read_records_len(&data),
        Err(header_err(HeaderError::RecordsLenOutOfRange))
    );
}

#[test]
fn records_len_rejects_text_that_is_no_integer() {
    let mut data = base_header();
    set_field(&mut data, 236, "abc     ");
    assert_eq!(
        Reader::read_records_len(&data),
        Err(header_err(HeaderError::InvalidRecordsLen))
    );
    let mut data = base_header();
    set_field(&mut data, 236, "-       ");
    assert_eq!(
        Reader::read_records_len(&data),
        Err(header_err(HeaderError::InvalidRecordsLen))
    );
}

#[test]
fn duration_reads_a_whole_number() {
    let data = base_header();
    assert_eq!(Reader::read_duration(&data), Ok(1));
    let mut data = base_header();
    set_field(&mut data, 244, "30      ");
    assert_eq!(Reader::read_duration(&data), Ok(30));
}

#[test]
fn duration_accepts_a_zero_fraction() {
    let mut data = base_header();
    set_field(&mut data, 244, "1.0     ");
    assert_eq!(Reader::read_duration(&data), Ok(1));
    let mut data = base_header();
    set_field(&mut data, 244, "2.000   ");
    assert_eq!(Reader::read_duration(&data), Ok(2));
}

#[test]
fn duration_rejects_a_non_zero_fraction_as_unsupported() {
    let mut data = base_header();
    set_field(&mut data, 244, "1.5     ");
    assert_eq!(
        Reader::read_duration(&data),
        Err(header_err(HeaderError::NonZeroDurationFraction))
    );
}

#[test]
fn duration_rejects_fractions_that_no_byte_holds() {
    // The fractional part must read as an unsigned 8-bit integer.
    let mut data = base_header();
    set_field(&mut data, 244, "1.256   ");
    assert_eq!(
        Reader::read_duration(&data),
        Err(header_err(HeaderError::InvalidDuration))
    );
    let mut data = base_header();
    set_field(&mut data, 244, "1.x     ");
    assert_eq!(
        Reader::read_duration(&data),
        Err(header_err(HeaderError::InvalidDuration))
    );
    let mut data = base_header();
    set_field(&mut data, 244, "1.      ");
    assert_eq!(
        Reader::read_duration(&data),
        Err(header_err(HeaderError::InvalidDuration))
    );
}

#[test]
fn duration_rejects_an_empty_or_malformed_whole_part() {
    let mut data = base_header();
    set_field(&mut data, 244, ".0      ");
    assert_eq!(
        Reader::read_duration(&data),
        Err(header_err(HeaderError::InvalidDuration))
    );
    let mut data = base_header();
    set_field(&mut data, 244, "        ");
    assert_eq!(
        Reader::read_duration(&data),
        Err(header_err(HeaderError::InvalidDuration))
    );
}

#[test]
fn signals_len_is_a_trimmed_decimal() {
    let data = base_header();
    assert_eq!(Reader::read_signals_len(&data), Ok(4));
    let mut data = base_header();
    set_field(&mut data, 252, "9999");
    assert_eq!(Reader::read_signals_len(&data), Ok(9999));
    let mut data = base_header();
    set_field(&mut data, 252, "    ");
    assert_eq!(
        Reader::read_signals_len(&data),
        Err(header_err(HeaderError::InvalidSignalsLen))
    );
}
