//! Decoding of the fixed-width EDF header fields.
//!
//! An EDF header is a fixed sequence of fixed-width ASCII/Latin-1 text fields
//! starting at byte 0 of the file.  [`Reader::read_header`] decodes the whole
//! 256-byte prefix into a [`Header`]; each field also has a decoder of its
//! own.  The functional behaviour of every decoder is pinned down by the
//! `spec_read_*` functions over the raw byte sequence.

use vstd::prelude::*;
use vstd::slice::slice_subrange;
use vstd::slice::slice_to_vec;
use vstd::string::StrSliceExecFns;
use vstd::utf8::decode_utf8;
use vstd::utf8::valid_first_scalar;
use vstd::utf8::valid_utf8;

use crate::error::Error;
use crate::error::ErrorKind;
use crate::error::HeaderError;

verus! {

// ---------------------------------------------------------------------------
// Header layout: byte offset and width of each field.
// ---------------------------------------------------------------------------

pub const VERSION_OFFSET: usize = 0;

pub const VERSION_WIDTH: usize = 8;

pub const PATIENT_INFO_OFFSET: usize = 8;

pub const PATIENT_INFO_WIDTH: usize = 80;

pub const RECORDING_ID_OFFSET: usize = 88;

pub const RECORDING_ID_WIDTH: usize = 80;

pub const START_DATE_OFFSET: usize = 168;

pub const START_DATE_WIDTH: usize = 8;

pub const START_TIME_OFFSET: usize = 176;

pub const START_TIME_WIDTH: usize = 8;

pub const SIZE_OFFSET: usize = 184;

pub const SIZE_WIDTH: usize = 8;

pub const RESERVED_OFFSET: usize = 192;

pub const RESERVED_WIDTH: usize = 44;

pub const RECORDS_LEN_OFFSET: usize = 236;

pub const RECORDS_LEN_WIDTH: usize = 8;

pub const DURATION_OFFSET: usize = 244;

pub const DURATION_WIDTH: usize = 8;

pub const SIGNALS_LEN_OFFSET: usize = 252;

pub const SIGNALS_LEN_WIDTH: usize = 4;

/// The number of bytes the header decoder consumes.
pub const HEADER_PREFIX_LEN: usize = 256;

// ---------------------------------------------------------------------------
// Dates and times, as plain numbers.
// ---------------------------------------------------------------------------

/// A calendar date on the proleptic Gregorian calendar, held as plain numbers.
#[derive(Debug, Clone, Copy, PartialEq, Eq, Structural)]
pub struct Date {
    pub year: i32,
    pub month: u32,
    pub day: u32,
}

/// A time of day with one-second resolution.
#[derive(Debug, Clone, Copy, PartialEq, Eq, Structural)]
pub struct Time {
    pub hour: u32,
    pub minute: u32,
    pub second: u32,
}

/// A calendar date combined with a time of day.
#[derive(Debug, Clone, Copy, PartialEq, Eq, Structural)]
pub struct DateTime {
    pub date: Date,
    pub time: Time,
}

/// True when `year` has 366 days on the proleptic Gregorian calendar.
pub open spec fn is_leap_year(year: int) -> bool {
    (year % 4 == 0 && year % 100 != 0) || year % 400 == 0
}

/// The number of days of `month` (1 to 12) in `year`.
pub open spec fn days_in_month(year: int, month: int) -> int {
    if month == 2 {
        if is_leap_year(year) {
            29
        } else {
            28
        }
    } else if month == 4 || month == 6 || month == 9 || month == 11 {
        30
    } else {
        31
    }
}

/// True when year, month and day name a day of the proleptic Gregorian
/// calendar.
pub open spec fn valid_date(year: int, month: int, day: int) -> bool {
    &&& 1 <= month <= 12
    &&& 1 <= day <= days_in_month(year, month)
}

/// True when hour, minute and second name a time of day.
pub open spec fn valid_time(hour: int, minute: int, second: int) -> bool {
    &&& 0 <= hour < 24
    &&& 0 <= minute < 60
    &&& 0 <= second < 60
}

impl Date {
    /// Bundles a year, month and day; no validity check is made here.
    pub fn new(year: i32, month: u32, day: u32) -> (r: Date)
        ensures
            r == (Date { year, month, day }),
    {
        Date { year, month, day }
    }

    /// True when the fields name a day of the calendar.
    pub open spec fn wf(self) -> bool {
        valid_date(self.year as int, self.month as int, self.day as int)
    }
}

impl Time {
    /// Bundles an hour, minute and second; no validity check is made here.
    pub fn new(hour: u32, minute: u32, second: u32) -> (r: Time)
        ensures
            r == (Time { hour, minute, second }),
    {
        Time { hour, minute, second }
    }

    /// True when the fields name a time of day.
    pub open spec fn wf(self) -> bool {
        valid_time(self.hour as int, self.minute as int, self.second as int)
    }
}

impl DateTime {
    /// True when both halves are well formed.
    pub open spec fn wf(self) -> bool {
        self.date.wf() && self.time.wf()
    }
}

// ---------------------------------------------------------------------------
// Text to numbers: the shared shapes of the numeric fields.
// ---------------------------------------------------------------------------

/// True when `c` is an ASCII decimal digit.
pub open spec fn is_dec_digit(c: char) -> bool {
    '0' <= c && c <= '9'
}

/// The numeric value of the decimal digit `c`.
pub open spec fn digit_value(c: char) -> int {
    c as int - '0' as int
}

/// True when every character of `s` is a decimal digit.
pub open spec fn all_dec_digits(s: Seq<char>) -> bool {
    forall|i: int| 0 <= i < s.len() ==> is_dec_digit(#[trigger] s[i])
}

/// The value of `s` read as decimal digits, most significant first.
pub open spec fn dec_value(s: Seq<char>) -> int
    decreases s.len(),
{
    if s.len() == 0 {
        0
    } else {
        dec_value(s.drop_last()) * 10 + digit_value(s.last())
    }
}

/// Ten to the power `n`.
pub open spec fn pow10(n: nat) -> int
    decreases n,
{
    if n == 0 {
        1
    } else {
        10 * pow10((n - 1) as nat)
    }
}

/// `s` with every trailing space removed.
pub open spec fn trim_end_spaces(s: Seq<char>) -> Seq<char>
    decreases s.len(),
{
    if s.len() > 0 && s.last() == ' ' {
        trim_end_spaces(s.drop_last())
    } else {
        s
    }
}

/// The digits of an unsigned decimal: `t` stripped of one leading `'+'`.
pub open spec fn unsigned_digits(t: Seq<char>) -> Seq<char> {
    if t.len() > 0 && t[0] == '+' {
        t.subrange(1, t.len() as int)
    } else {
        t
    }
}

/// The value of the field text `s`, trailing spaces ignored, read as an
/// unsigned decimal integer with an optional leading `'+'`; `None` when it is
/// not one.
pub open spec fn spec_parse_unsigned(s: Seq<char>) -> Option<int> {
    let d = unsigned_digits(trim_end_spaces(s));
    if d.len() > 0 && all_dec_digits(d) {
        Some(dec_value(d))
    } else {
        None
    }
}

/// The value of the field text `s`, trailing spaces ignored, read as a signed
/// decimal integer with an optional leading sign; `None` when it is not one.
pub open spec fn spec_parse_signed(s: Seq<char>) -> Option<int> {
    let t = trim_end_spaces(s);
    if t.len() > 0 && t[0] == '-' {
        let d = t.subrange(1, t.len() as int);
        if d.len() > 0 && all_dec_digits(d) {
            Some(-dec_value(d))
        } else {
            None
        }
    } else {
        spec_parse_unsigned(s)
    }
}

/// The index of the first occurrence of `c` in `s`, if any.
pub open spec fn find_char(s: Seq<char>, c: char) -> Option<int>
    decreases s.len(),
{
    if s.len() == 0 {
        None
    } else if s[0] == c {
        Some(0)
    } else {
        match find_char(s.drop_first(), c) {
            Some(i) => Some(i + 1),
            None => None,
        }
    }
}

/// A string of digits is never negative and is bounded by ten to its length.
pub proof fn lemma_dec_value_bound(s: Seq<char>)
    requires
        all_dec_digits(s),
    ensures
        0 <= dec_value(s) < pow10(s.len()),
    decreases s.len(),
{
    if s.len() > 0 {
        assert(all_dec_digits(s.drop_last()));
        lemma_dec_value_bound(s.drop_last());
        assert(is_dec_digit(s.last()));
        assert(0 <= digit_value(s.last()) <= 9);
    }
}

/// Ten to the power is nondecreasing.
pub proof fn lemma_pow10_nondecreasing(a: nat, b: nat)
    requires
        a <= b,
    ensures
        pow10(a) <= pow10(b),
    decreases b,
{
    if a < b {
        lemma_pow10_nondecreasing(a, (b - 1) as nat);
        assert(pow10((b - 1) as nat) >= 1) by {
            lemma_pow10_nondecreasing(0, (b - 1) as nat);
        }
    }
}

/// Trimming trailing spaces never lengthens a string.
pub proof fn lemma_trim_end_spaces_len(s: Seq<char>)
    ensures
        trim_end_spaces(s).len() <= s.len(),
    decreases s.len(),
{
    if s.len() > 0 && s.last() == ' ' {
        lemma_trim_end_spaces_len(s.drop_last());
    }
}

/// A parsed unsigned field value is bounded by ten to the field's length.
pub proof fn lemma_parse_unsigned_bound(s: Seq<char>)
    ensures
        spec_parse_unsigned(s) matches Some(n) ==> 0 <= n < pow10(s.len()),
{
    let d = unsigned_digits(trim_end_spaces(s));
    if spec_parse_unsigned(s) is Some {
        lemma_dec_value_bound(d);
        lemma_trim_end_spaces_len(s);
        lemma_pow10_nondecreasing(d.len(), s.len());
    }
}

/// Where `c` first occurs in `s`, `find_char` points at that occurrence.
pub proof fn lemma_find_char_present(s: Seq<char>, c: char, i: int)
    requires
        0 <= i < s.len(),
        s[i] == c,
        forall|j: int| 0 <= j < i ==> s[j] != c,
    ensures
        find_char(s, c) == Some(i),
    decreases i,
{
    if i > 0 {
        lemma_find_char_present(s.drop_first(), c, i - 1);
    }
}

/// Where `c` does not occur in `s`, `find_char` finds nothing.
pub proof fn lemma_find_char_absent(s: Seq<char>, c: char)
    requires
        forall|j: int| 0 <= j < s.len() ==> s[j] != c,
    ensures
        find_char(s, c) is None,
    decreases s.len(),
{
    if s.len() > 0 {
        lemma_find_char_absent(s.drop_first(), c);
    }
}

// ---------------------------------------------------------------------------
// The field formats, over decoded text.
// ---------------------------------------------------------------------------

/// True when `s` is two digits, a dot, two digits, a dot and two digits, the
/// shared shape of the `DD.MM.YY` date and `HH.MM.SS` time fields.
pub open spec fn dotted_pairs(s: Seq<char>) -> bool {
    &&& s.len() == 8
    &&& is_dec_digit(s[0])
    &&& is_dec_digit(s[1])
    &&& s[2] == '.'
    &&& is_dec_digit(s[3])
    &&& is_dec_digit(s[4])
    &&& s[5] == '.'
    &&& is_dec_digit(s[6])
    &&& is_dec_digit(s[7])
}

/// The value of the two digits of `s` at positions `i` and `i + 1`.
pub open spec fn pair_value(s: Seq<char>, i: int) -> int {
    10 * digit_value(s[i]) + digit_value(s[i + 1])
}

/// The full year for the two-digit year `yy`: years before 85 belong to the
/// 2000s, years from 85 on to the 1900s.
pub open spec fn clipped_year(yy: int) -> int {
    if yy >= 85 {
        1900 + yy
    } else {
        2000 + yy
    }
}

/// The date the text `s` names in the `DD.MM.YY` format, with the two-digit
/// year expanded by [`clipped_year`]; `None` when the text is malformed or
/// names no calendar day.
pub open spec fn spec_parse_start_date(s: Seq<char>) -> Option<Date> {
    if dotted_pairs(s) {
        let day = pair_value(s, 0);
        let month = pair_value(s, 3);
        let year = clipped_year(pair_value(s, 6));
        if valid_date(year, month, day) {
            Some(Date { year: year as i32, month: month as u32, day: day as u32 })
        } else {
            None
        }
    } else {
        None
    }
}

/// The time of day the text `s` names in the `HH.MM.SS` format; `None` when
/// the text is malformed or names no time of day.
pub open spec fn spec_parse_start_time(s: Seq<char>) -> Option<Time> {
    if dotted_pairs(s) {
        let hour = pair_value(s, 0);
        let minute = pair_value(s, 3);
        let second = pair_value(s, 6);
        if valid_time(hour, minute, second) {
            Some(Time { hour: hour as u32, minute: minute as u32, second: second as u32 })
        } else {
            None
        }
    } else {
        None
    }
}

/// The record duration the text `s` names: an unsigned decimal, optionally
/// followed by one point and a fractional part that must read as an unsigned
/// 8-bit integer equal to zero.  A non-zero fraction is rejected as
/// unsupported rather than rounded.
pub open spec fn spec_parse_duration(s: Seq<char>) -> Result<int, HeaderError> {
    let t = trim_end_spaces(s);
    match find_char(t, '.') {
        None => {
            let d = unsigned_digits(t);
            if d.len() > 0 && all_dec_digits(d) {
                Ok(dec_value(d))
            } else {
                Err(HeaderError::InvalidDuration)
            }
        },
        Some(i) => {
            let m = unsigned_digits(t.subrange(i + 1, t.len() as int));
            if !(m.len() > 0 && all_dec_digits(m) && dec_value(m) <= 255) {
                Err(HeaderError::InvalidDuration)
            } else if dec_value(m) != 0 {
                Err(HeaderError::NonZeroDurationFraction)
            } else {
                let d = unsigned_digits(t.subrange(0, i));
                if d.len() > 0 && all_dec_digits(d) {
                    Ok(dec_value(d))
                } else {
                    Err(HeaderError::InvalidDuration)
                }
            }
        },
    }
}

// ---------------------------------------------------------------------------
// The fields, over the raw bytes of the input.
// ---------------------------------------------------------------------------

/// The bytes of the field at `offset` of width `width`.
pub open spec fn spec_field(data: Seq<u8>, offset: int, width: int) -> Seq<u8> {
    data.subrange(offset, offset + width)
}

/// True when the version field is ASCII `'0'` followed by seven spaces.
pub open spec fn version_field_ok(f: Seq<u8>) -> bool {
    &&& f.len() == 8
    &&& f[0] == 48u8
    &&& forall|i: int| 1 <= i < 8 ==> f[i] == 32u8
}

/// The version check over the raw input: the field must be there and must be
/// the fixed version pattern.
pub open spec fn spec_read_version(data: Seq<u8>) -> Result<(), ErrorKind> {
    if data.len() < VERSION_WIDTH {
        Err(ErrorKind::Io { offset: VERSION_OFFSET })
    } else if version_field_ok(spec_field(data, 0, VERSION_WIDTH as int)) {
        Ok(())
    } else {
        Err(ErrorKind::Header(HeaderError::InvalidVersion))
    }
}

/// The text of the field at `offset` of width `width`: the input must reach
/// past the field, and the field's bytes must be valid UTF-8.
pub open spec fn spec_read_text(data: Seq<u8>, offset: int, width: int) -> Result<
    Seq<char>,
    ErrorKind,
> {
    if data.len() < offset + width {
        Err(ErrorKind::Io { offset: offset as usize })
    } else if !valid_utf8(spec_field(data, offset, width)) {
        Err(ErrorKind::Utf8 { offset: offset as usize })
    } else {
        Ok(decode_utf8(spec_field(data, offset, width)))
    }
}

/// The start date the input names.
pub open spec fn spec_read_start_date(data: Seq<u8>) -> Result<Date, ErrorKind> {
    match spec_read_text(data, START_DATE_OFFSET as int, START_DATE_WIDTH as int) {
        Err(e) => Err(e),
        Ok(chars) => match spec_parse_start_date(chars) {
            Some(d) => Ok(d),
            None => Err(ErrorKind::Header(HeaderError::InvalidDate)),
        },
    }
}

/// The start time the input names.
pub open spec fn spec_read_start_time(data: Seq<u8>) -> Result<Time, ErrorKind> {
    match spec_read_text(data, START_TIME_OFFSET as int, START_TIME_WIDTH as int) {
        Err(e) => Err(e),
        Ok(chars) => match spec_parse_start_time(chars) {
            Some(t) => Ok(t),
            None => Err(ErrorKind::Header(HeaderError::InvalidTime)),
        },
    }
}

/// The declared header size the input names.
pub open spec fn spec_read_header_size(data: Seq<u8>) -> Result<usize, ErrorKind> {
    match spec_read_text(data, SIZE_OFFSET as int, SIZE_WIDTH as int) {
        Err(e) => Err(e),
        Ok(chars) => match spec_parse_unsigned(chars) {
            Some(n) => Ok(n as usize),
            None => Err(ErrorKind::Header(HeaderError::InvalidSize)),
        },
    }
}

/// The record count the input names: `-1` is the "unknown" sentinel, a
/// positive count stands for itself, and anything else is rejected.
pub open spec fn spec_read_records_len(data: Seq<u8>) -> Result<Option<usize>, ErrorKind> {
    match spec_read_text(data, RECORDS_LEN_OFFSET as int, RECORDS_LEN_WIDTH as int) {
        Err(e) => Err(e),
        Ok(chars) => match spec_parse_signed(chars) {
            None => Err(ErrorKind::Header(HeaderError::InvalidRecordsLen)),
            Some(n) => if n == -1 {
                Ok(None)
            } else if n > 0 {
                Ok(Some(n as usize))
            } else {
                Err(ErrorKind::Header(HeaderError::RecordsLenOutOfRange))
            },
        },
    }
}

/// The record duration the input names.
pub open spec fn spec_read_duration(data: Seq<u8>) -> Result<usize, ErrorKind> {
    match spec_read_text(data, DURATION_OFFSET as int, DURATION_WIDTH as int) {
        Err(e) => Err(e),
        Ok(chars) => match spec_parse_duration(chars) {
            Ok(n) => Ok(n as usize),
            Err(h) => Err(ErrorKind::Header(h)),
        },
    }
}

/// The signal count the input names.
pub open spec fn spec_read_signals_len(data: Seq<u8>) -> Result<u32, ErrorKind> {
    match spec_read_text(data, SIGNALS_LEN_OFFSET as int, SIGNALS_LEN_WIDTH as int) {
        Err(e) => Err(e),
        Ok(chars) => match spec_parse_unsigned(chars) {
            Some(n) => Ok(n as u32),
            None => Err(ErrorKind::Header(HeaderError::InvalidSignalsLen)),
        },
    }
}

// ---------------------------------------------------------------------------
// The header value.
// ---------------------------------------------------------------------------

/// The decoded header, produced once per parse and never mutated after.
#[derive(Debug)]
pub struct Header {
    pub patient_info: String,
    pub recording_id: String,
    /// The start date and time of the recording.
    pub start_datetime: DateTime,
    /// The number of bytes in the header as the file declares it.
    pub size: usize,
    pub reserved: String,
    /// The number of records; `None` where the file declares it unknown.
    pub records_len: Option<usize>,
    /// The duration of a record in whole seconds.
    pub duration: usize,
    /// The number of signals in a record.
    pub signals_len: u32,
}

/// The mathematical image of a [`Header`]: its text fields as character
/// sequences, everything else as it stands.
#[verifier::ext_equal]
pub ghost struct HeaderView {
    pub patient_info: Seq<char>,
    pub recording_id: Seq<char>,
    pub start_datetime: DateTime,
    pub size: usize,
    pub reserved: Seq<char>,
    pub records_len: Option<usize>,
    pub duration: usize,
    pub signals_len: u32,
}

impl View for Header {
    type V = HeaderView;

    open spec fn view(&self) -> HeaderView {
        HeaderView {
            patient_info: self.patient_info@,
            recording_id: self.recording_id@,
            start_datetime: self.start_datetime,
            size: self.size,
            reserved: self.reserved@,
            records_len: self.records_len,
            duration: self.duration,
            signals_len: self.signals_len,
        }
    }
}

impl Header {
    /// Assembles a header from its decoded fields, combining the start date
    /// and time into one instant.
    pub fn new(
        patient_info: String,
        recording_id: String,
        start_date: Date,
        start_time: Time,
        size: usize,
        reserved: String,
        records_len: Option<usize>,
        duration: usize,
        signals_len: u32,
    ) -> (r: Header)
        ensures
            r@ == (HeaderView {
                patient_info: patient_info@,
                recording_id: recording_id@,
                start_datetime: DateTime { date: start_date, time: start_time },
                size,
                reserved: reserved@,
                records_len,
                duration,
                signals_len,
            }),
    {
        let start_datetime = DateTime { date: start_date, time: start_time };
        Header {
            patient_info,
            recording_id,
            start_datetime,
            size,
            reserved,
            records_len,
            duration,
            signals_len,
        }
    }
}

/// The whole header the input names: the fields in their fixed order, each
/// read from its own byte range, the first failure abandoning the parse.
pub open spec fn spec_read_header(data: Seq<u8>) -> Result<HeaderView, ErrorKind> {
    match spec_read_version(data) {
        Err(e) => Err(e),
        Ok(_) => match spec_read_text(data, PATIENT_INFO_OFFSET as int, PATIENT_INFO_WIDTH as int) {
            Err(e) => Err(e),
            Ok(patient_info) => match spec_read_text(
                data,
                RECORDING_ID_OFFSET as int,
                RECORDING_ID_WIDTH as int,
            ) {
                Err(e) => Err(e),
                Ok(recording_id) => match spec_read_start_date(data) {
                    Err(e) => Err(e),
                    Ok(date) => match spec_read_start_time(data) {
                        Err(e) => Err(e),
                        Ok(time) => match spec_read_header_size(data) {
                            Err(e) => Err(e),
                            Ok(size) => match spec_read_text(
                                data,
                                RESERVED_OFFSET as int,
                                RESERVED_WIDTH as int,
                            ) {
                                Err(e) => Err(e),
                                Ok(reserved) => match spec_read_records_len(data) {
                                    Err(e) => Err(e),
                                    Ok(records_len) => match spec_read_duration(data) {
                                        Err(e) => Err(e),
                                        Ok(duration) => match spec_read_signals_len(data) {
                                            Err(e) => Err(e),
                                            Ok(signals_len) => Ok(
                                                HeaderView {
                                                    patient_info,
                                                    recording_id,
                                                    start_datetime: DateTime { date, time },
                                                    size,
                                                    reserved,
                                                    records_len,
                                                    duration,
                                                    signals_len,
                                                },
                                            ),
                                        },
                                    },
                                },
                            },
                        },
                    },
                },
            },
        },
    }
}

/// A parsed signed field value is bounded by ten to the field's length.
pub proof fn lemma_parse_signed_bound(s: Seq<char>)
    ensures
        spec_parse_signed(s) matches Some(n) ==> -pow10(s.len()) < n < pow10(s.len()),
{
    let t = trim_end_spaces(s);
    lemma_trim_end_spaces_len(s);
    if t.len() > 0 && t[0] == '-' {
        let d = t.subrange(1, t.len() as int);
        if d.len() > 0 && all_dec_digits(d) {
            lemma_dec_value_bound(d);
            lemma_pow10_nondecreasing(d.len(), s.len());
        }
    } else {
        lemma_parse_unsigned_bound(s);
        if spec_parse_unsigned(s) is Some {
            lemma_pow10_nondecreasing(0, s.len());
        }
    }
}

/// Decoding UTF-8 yields at most one character per byte.
pub proof fn lemma_decode_utf8_len(bytes: Seq<u8>)
    requires
        valid_utf8(bytes),
    ensures
        decode_utf8(bytes).len() <= bytes.len(),
    decreases bytes.len(),
{
    if bytes.len() != 0 {
        assert(valid_first_scalar(bytes));
        assert(vstd::utf8::length_of_first_scalar(bytes) >= 1);
        lemma_decode_utf8_len(vstd::utf8::pop_first_scalar(bytes));
    }
}

// ---------------------------------------------------------------------------
// Laws of the decoder.
// ---------------------------------------------------------------------------

/// Every date text that parses with a two-digit year of 85 or more lands in
/// the 1900s: the parsed year is `1900 + YY`.
pub proof fn lemma_year_clip_1900s(s: Seq<char>)
    requires
        spec_parse_start_date(s) is Some,
        pair_value(s, 6) >= 85,
    ensures
        spec_parse_start_date(s) matches Some(d) && d.year == 1900 + pair_value(s, 6),
{
}

/// Every date text that parses with a two-digit year below 85 lands in the
/// 2000s: the parsed year is `2000 + YY`.
pub proof fn lemma_year_clip_2000s(s: Seq<char>)
    requires
        spec_parse_start_date(s) is Some,
        pair_value(s, 6) < 85,
    ensures
        spec_parse_start_date(s) matches Some(d) && d.year == 2000 + pair_value(s, 6),
{
}

/// The clip boundary belongs to the 1900s: a two-digit year of exactly 85
/// parses to 1985.
pub proof fn lemma_year_clip_boundary_1985(s: Seq<char>)
    requires
        spec_parse_start_date(s) is Some,
        pair_value(s, 6) == 85,
    ensures
        spec_parse_start_date(s) matches Some(d) && d.year == 1985,
{
    lemma_year_clip_1900s(s);
}

/// Just below the clip boundary the 2000s win: a two-digit year of 84 parses
/// to 2084.
pub proof fn lemma_year_clip_boundary_2084(s: Seq<char>)
    requires
        spec_parse_start_date(s) is Some,
        pair_value(s, 6) == 84,
    ensures
        spec_parse_start_date(s) matches Some(d) && d.year == 2084,
{
    lemma_year_clip_2000s(s);
}

/// Every header that parses satisfies the data-model invariants: its start
/// instant is a day of the calendar and a time of day, the year lies between
/// 1985 and 2084, and a known record count is strictly positive.
pub proof fn lemma_header_invariants(data: Seq<u8>)
    ensures
        spec_read_header(data) matches Ok(h) ==> {
            &&& h.start_datetime.wf()
            &&& 1985 <= h.start_datetime.date.year <= 2084
            &&& (h.records_len matches Some(n) ==> n > 0)
        },
{
    if spec_read_header(data) is Ok {
        let date = spec_read_start_date(data)->Ok_0;
        let chars = spec_read_text(data, START_DATE_OFFSET as int, START_DATE_WIDTH as int)->Ok_0;
        assert(spec_parse_start_date(chars) == Some(date));
        assert(is_dec_digit(chars[6]) && is_dec_digit(chars[7]));
        assert(0 <= pair_value(chars, 6) <= 99);
        let rchars = spec_read_text(
            data,
            RECORDS_LEN_OFFSET as int,
            RECORDS_LEN_WIDTH as int,
        )->Ok_0;
        lemma_decode_utf8_len(
            spec_field(data, RECORDS_LEN_OFFSET as int, RECORDS_LEN_WIDTH as int),
        );
        lemma_parse_signed_bound(rchars);
        lemma_pow10_nondecreasing(rchars.len(), 8);
        assert(pow10(8) == 100000000) by {
            reveal_with_fuel(pow10, 9);
        }
    }
}

/// The byte offset of the first header field that an input of `len` bytes
/// cannot supply in full.
pub open spec fn spec_first_short_offset(len: int) -> usize {
    if len < 8 {
        VERSION_OFFSET
    } else if len < 88 {
        PATIENT_INFO_OFFSET
    } else if len < 168 {
        RECORDING_ID_OFFSET
    } else if len < 176 {
        START_DATE_OFFSET
    } else if len < 184 {
        START_TIME_OFFSET
    } else if len < 192 {
        SIZE_OFFSET
    } else if len < 236 {
        RESERVED_OFFSET
    } else if len < 244 {
        RECORDS_LEN_OFFSET
    } else if len < 252 {
        DURATION_OFFSET
    } else {
        SIGNALS_LEN_OFFSET
    }
}

/// An input shorter than the fixed header prefix never parses, and when it is
/// the input's end that stops the parse, the error names the first field the
/// input cannot supply, never a later one.
pub proof fn lemma_short_input_fails(data: Seq<u8>)
    requires
        data.len() < HEADER_PREFIX_LEN,
    ensures
        spec_read_header(data) is Err,
        match spec_read_header(data) {
            Err(ErrorKind::Io { offset }) => offset == spec_first_short_offset(data.len() as int),
            Err(_) => true,
            Ok(_) => false,
        },
{
}

/// A header only ever parses out of an input that supplies the whole fixed
/// prefix.
pub proof fn lemma_success_needs_prefix(data: Seq<u8>)
    requires
        spec_read_header(data) is Ok,
    ensures
        data.len() >= HEADER_PREFIX_LEN,
{
}

/// A short input whose complete fields are all well formed fails with the
/// input-too-short error of exactly the first field that does not fit, never
/// of a later one.  (A malformed complete field fails first with its own
/// error; [`lemma_short_input_fails`] covers every short input.)
pub proof fn lemma_short_input_io_offset(data: Seq<u8>)
    requires
        data.len() < HEADER_PREFIX_LEN,
        data.len() >= 8 ==> spec_read_version(data) is Ok,
        data.len() >= 88 ==> spec_read_text(
            data,
            PATIENT_INFO_OFFSET as int,
            PATIENT_INFO_WIDTH as int,
        ) is Ok,
        data.len() >= 168 ==> spec_read_text(
            data,
            RECORDING_ID_OFFSET as int,
            RECORDING_ID_WIDTH as int,
        ) is Ok,
        data.len() >= 176 ==> spec_read_start_date(data) is Ok,
        data.len() >= 184 ==> spec_read_start_time(data) is Ok,
        data.len() >= 192 ==> spec_read_header_size(data) is Ok,
        data.len() >= 236 ==> spec_read_text(data, RESERVED_OFFSET as int, RESERVED_WIDTH as int)
            is Ok,
        data.len() >= 244 ==> spec_read_records_len(data) is Ok,
        data.len() >= 252 ==> spec_read_duration(data) is Ok,
    ensures
        spec_read_header(data) == Err::<HeaderView, ErrorKind>(
            ErrorKind::Io { offset: spec_first_short_offset(data.len() as int) },
        ),
{
}

// ---------------------------------------------------------------------------
// Calls into the outside world, taken on trust.
// ---------------------------------------------------------------------------

/// Relies on `String::from_utf8`: it succeeds exactly on valid UTF-8 input,
/// and then returns the bytes decoded as UTF-8 text.
#[verifier::external_body]
fn utf8_to_string(bytes: Vec<u8>) -> (r: Option<String>)
    ensures
        r is Some <==> valid_utf8(bytes@),
        r matches Some(s) ==> s@ == decode_utf8(bytes@),
{
    String::from_utf8(bytes).ok()
}

/// Relies on `chrono::NaiveDate::from_ymd_opt`: within `NaiveDate`'s year
/// range it returns `Some` exactly for a day of the proleptic Gregorian
/// calendar (month 1 to 12, day within that month, February 29 only in leap
/// years).
#[verifier::external_body]
fn chrono_date_exists(year: i32, month: u32, day: u32) -> (r: bool)
    requires
        1 <= year <= 9999,
    ensures
        r == valid_date(year as int, month as int, day as int),
{
    chrono::NaiveDate::from_ymd_opt(year, month, day).is_some()
}

/// Relies on `chrono::NaiveTime::from_hms_opt`: it returns `Some` exactly
/// when the hour is below 24 and the minute and second are below 60.
#[verifier::external_body]
fn chrono_time_exists(hour: u32, minute: u32, second: u32) -> (r: bool)
    ensures
        r == valid_time(hour as int, minute as int, second as int),
{
    chrono::NaiveTime::from_hms_opt(hour, minute, second).is_some()
}

// ---------------------------------------------------------------------------
// Verified parsing helpers.
// ---------------------------------------------------------------------------

/// The length of `s` once its trailing spaces are dropped.
fn trim_end_len(s: &str) -> (e: usize)
    ensures
        e <= s@.len(),
        trim_end_spaces(s@) == s@.subrange(0, e as int),
{
    let n = s.unicode_len();
    let mut e: usize = 0;
    let mut i: usize = 0;
    while i < n
        invariant
            i <= n,
            n == s@.len(),
            e <= i,
            trim_end_spaces(s@.subrange(0, i as int)) == s@.subrange(0, e as int),
        decreases n - i,
    {
        let c = s.get_char(i);
        proof {
            assert(s@.subrange(0, i as int + 1).drop_last() =~= s@.subrange(0, i as int));
            assert(s@.subrange(0, i as int + 1).last() == c);
        }
        if c as u32 != 32 {
            e = i + 1;
        }
        i = i + 1;
    }
    proof {
        assert(s@.subrange(0, n as int) =~= s@);
    }
    e
}

/// Reads `s[start..end]` as decimal digits; `None` when the range is empty or
/// holds anything but digits.
fn parse_digits(s: &str, start: usize, end: usize) -> (r: Option<u64>)
    requires
        start <= end <= s@.len(),
        end - start <= 8,
    ensures
        ({
            let d = s@.subrange(start as int, end as int);
            match r {
                Some(v) => d.len() > 0 && all_dec_digits(d) && v as int == dec_value(d),
                None => !(d.len() > 0 && all_dec_digits(d)),
            }
        }),
{
    if start == end {
        return None;
    }
    let ghost d = s@.subrange(start as int, end as int);
    let mut acc: u64 = 0;
    let mut i: usize = start;
    while i < end
        invariant
            start <= i <= end <= s@.len(),
            end - start <= 8,
            d == s@.subrange(start as int, end as int),
            all_dec_digits(s@.subrange(start as int, i as int)),
            acc as int == dec_value(s@.subrange(start as int, i as int)),
        decreases end - i,
    {
        let c = s.get_char(i);
        let v = c as u32;
        if v < 48 || v > 57 {
            proof {
                assert(d[i - start as int] == s@[i as int]);
                assert(!is_dec_digit(d[i - start as int]));
            }
            return None;
        }
        proof {
            let p = s@.subrange(start as int, i as int);
            lemma_dec_value_bound(p);
            lemma_pow10_nondecreasing(p.len(), 7);
            assert(pow10(7) == 10000000) by {
                reveal_with_fuel(pow10, 8);
            }
            assert(s@.subrange(start as int, i as int + 1).drop_last() =~= p);
            assert(s@.subrange(start as int, i as int + 1).last() == c);
        }
        acc = acc * 10 + ((v - 48) as u64);
        i = i + 1;
    }
    Some(acc)
}

/// Reads the whole of `s`, trailing spaces ignored, as an unsigned decimal
/// with an optional leading `'+'`.
fn parse_unsigned_field(s: &str) -> (r: Option<u64>)
    requires
        s@.len() <= 8,
    ensures
        match r {
            Some(v) => spec_parse_unsigned(s@) == Some(v as int),
            None => spec_parse_unsigned(s@) is None,
        },
{
    let e = trim_end_len(s);
    let start: usize = if e > 0 && s.get_char(0) as u32 == 43 {
        1
    } else {
        0
    };
    let r = parse_digits(s, start, e);
    proof {
        let t = trim_end_spaces(s@);
        if t.len() > 0 && t[0] == '+' {
            assert(unsigned_digits(t) =~= s@.subrange(1, e as int));
        } else {
            assert(unsigned_digits(t) =~= s@.subrange(0, e as int));
        }
    }
    r
}

/// Reads the whole of `s`, trailing spaces ignored, as a signed decimal with
/// an optional leading sign.
fn parse_signed_field(s: &str) -> (r: Option<i64>)
    requires
        s@.len() <= 8,
    ensures
        match r {
            Some(v) => spec_parse_signed(s@) == Some(v as int),
            None => spec_parse_signed(s@) is None,
        },
{
    let e = trim_end_len(s);
    if e > 0 && s.get_char(0) as u32 == 45 {
        let r = parse_digits(s, 1, e);
        proof {
            let t = trim_end_spaces(s@);
            assert(t.subrange(1, t.len() as int) =~= s@.subrange(1, e as int));
        }
        match r {
            Some(v) => {
                proof {
                    lemma_dec_value_bound(s@.subrange(1, e as int));
                    lemma_pow10_nondecreasing(s@.subrange(1, e as int).len(), 8);
                    assert(pow10(8) == 100000000) by {
                        reveal_with_fuel(pow10, 9);
                    }
                }
                Some(-(v as i64))
            },
            None => None,
        }
    } else {
        proof {
            let t = trim_end_spaces(s@);
            assert(!(t.len() > 0 && t[0] == '-'));
        }
        match parse_unsigned_field(s) {
            Some(v) => {
                proof {
                    lemma_parse_unsigned_bound(s@);
                    lemma_pow10_nondecreasing(s@.len(), 8);
                    assert(pow10(8) == 100000000) by {
                        reveal_with_fuel(pow10, 9);
                    }
                }
                Some(v as i64)
            },
            None => None,
        }
    }
}

/// Reads the three two-digit numbers of an eight-character `NN.NN.NN` field;
/// `None` when `s` has any other shape.
fn dotted_triplet(s: &str) -> (r: Option<(u32, u32, u32)>)
    ensures
        match r {
            Some(p) => dotted_pairs(s@) && p.0 as int == pair_value(s@, 0) && p.1 as int
                == pair_value(s@, 3) && p.2 as int == pair_value(s@, 6),
            None => !dotted_pairs(s@),
        },
{
    let n = s.unicode_len();
    if n != 8 {
        return None;
    }
    let c0 = s.get_char(0) as u32;
    let c1 = s.get_char(1) as u32;
    let c2 = s.get_char(2) as u32;
    let c3 = s.get_char(3) as u32;
    let c4 = s.get_char(4) as u32;
    let c5 = s.get_char(5) as u32;
    let c6 = s.get_char(6) as u32;
    let c7 = s.get_char(7) as u32;
    if c2 != 46 || c5 != 46 {
        return None;
    }
    if c0 < 48 || c0 > 57 || c1 < 48 || c1 > 57 || c3 < 48 || c3 > 57 || c4 < 48 || c4 > 57 || c6
        < 48 || c6 > 57 || c7 < 48 || c7 > 57 {
        return None;
    }
    Some((10 * (c0 - 48) + (c1 - 48), 10 * (c3 - 48) + (c4 - 48), 10 * (c6 - 48) + (c7 - 48)))
}

/// The index of the first `'.'` among the first `e` characters of `s`.
fn find_dot(s: &str, e: usize) -> (r: Option<usize>)
    requires
        e as int <= s@.len(),
    ensures
        ({
            let t = s@.subrange(0, e as int);
            match r {
                Some(i) => i < e && t[i as int] == '.' && (forall|j: int| 0 <= j < i ==> t[j] != '.'),
                None => forall|j: int| 0 <= j < e ==> t[j] != '.',
            }
        }),
{
    let mut i: usize = 0;
    while i < e
        invariant
            i <= e,
            e as int <= s@.len(),
            forall|j: int| 0 <= j < i ==> s@[j] != '.',
        decreases e - i,
    {
        let c = s.get_char(i);
        if c as u32 == 46 {
            return Some(i);
        }
        i = i + 1;
    }
    None
}

/// Reads the text of the field at `offset` of width `width` out of the whole
/// input, reporting a short input or bytes that are not UTF-8.
fn read_text_field(data: &[u8], offset: usize, width: usize) -> (r: Result<String, Error>)
    requires
        offset + width <= usize::MAX,
    ensures
        match r {
            Ok(s) => spec_read_text(data@, offset as int, width as int) == Ok::<
                Seq<char>,
                ErrorKind,
            >(s@) && s@.len() <= width,
            Err(e) => spec_read_text(data@, offset as int, width as int) == Err::<
                Seq<char>,
                ErrorKind,
            >(e@),
        },
{
    if data.len() < offset + width {
        return Err(Error::new(ErrorKind::Io { offset }));
    }
    let field = slice_subrange(data, offset, offset + width);
    let bytes = slice_to_vec(field);
    match utf8_to_string(bytes) {
        Some(s) => {
            proof {
                lemma_decode_utf8_len(spec_field(data@, offset as int, width as int));
            }
            Ok(s)
        },
        None => Err(Error::new(ErrorKind::Utf8 { offset })),
    }
}

/// The time of day an eight-character `HH.MM.SS` text names.
fn parse_time_text(s: &str) -> (r: Result<Time, Error>)
    ensures
        match spec_parse_start_time(s@) {
            Some(t) => r == Ok::<Time, Error>(t),
            None => r matches Err(e) && e@ == ErrorKind::Header(HeaderError::InvalidTime),
        },
{
    match dotted_triplet(s) {
        None => Err(Error::new(ErrorKind::Header(HeaderError::InvalidTime))),
        Some((hour, minute, second)) => {
            if chrono_time_exists(hour, minute, second) {
                Ok(Time::new(hour, minute, second))
            } else {
                Err(Error::new(ErrorKind::Header(HeaderError::InvalidTime)))
            }
        },
    }
}

// ---------------------------------------------------------------------------
// The reader.
// ---------------------------------------------------------------------------

/// Decodes EDF headers out of in-memory bytes.
pub struct Reader;

impl Reader {
    /// Reads and validates the version field: ASCII `'0'` and seven spaces.
    pub fn read_version(data: &[u8]) -> (r: Result<(), Error>)
        ensures
            match r {
                Ok(_) => spec_read_version(data@) == Ok::<(), ErrorKind>(()),
                Err(e) => spec_read_version(data@) == Err::<(), ErrorKind>(e@),
            },
    {
        if data.len() < VERSION_WIDTH {
            return Err(Error::new(ErrorKind::Io { offset: VERSION_OFFSET }));
        }
        let ghost f = spec_field(data@, 0, VERSION_WIDTH as int);
        if *vstd::slice::slice_index_get(data, 0) != 48 {
            proof {
                assert(f[0] == data@[0]);
            }
            return Err(Error::new(ErrorKind::Header(HeaderError::InvalidVersion)));
        }
        let mut i: usize = 1;
        while i < VERSION_WIDTH
            invariant
                1 <= i <= VERSION_WIDTH,
                data@.len() >= VERSION_WIDTH,
                f == spec_field(data@, 0, VERSION_WIDTH as int),
                forall|j: int| 1 <= j < i ==> f[j] == 32u8,
            decreases VERSION_WIDTH - i,
        {
            if *vstd::slice::slice_index_get(data, i) != 32 {
                proof {
                    assert(f[i as int] == data@[i as int]);
                }
                return Err(Error::new(ErrorKind::Header(HeaderError::InvalidVersion)));
            }
            proof {
                assert(f[i as int] == data@[i as int]);
            }
            i = i + 1;
        }
        Ok(())
    }

    /// Reads the patient information field as text.
    pub fn read_patient_info(data: &[u8]) -> (r: Result<String, Error>)
        ensures
            match r {
                Ok(s) => spec_read_text(
                    data@,
                    PATIENT_INFO_OFFSET as int,
                    PATIENT_INFO_WIDTH as int,
                ) == Ok::<Seq<char>, ErrorKind>(s@),
                Err(e) => spec_read_text(
                    data@,
                    PATIENT_INFO_OFFSET as int,
                    PATIENT_INFO_WIDTH as int,
                ) == Err::<Seq<char>, ErrorKind>(e@),
            },
    {
        read_text_field(data, PATIENT_INFO_OFFSET, PATIENT_INFO_WIDTH)
    }

    /// Reads the recording identification field as text.
    pub fn read_recording_id(data: &[u8]) -> (r: Result<String, Error>)
        ensures
            match r {
                Ok(s) => spec_read_text(
                    data@,
                    RECORDING_ID_OFFSET as int,
                    RECORDING_ID_WIDTH as int,
                ) == Ok::<Seq<char>, ErrorKind>(s@),
                Err(e) => spec_read_text(
                    data@,
                    RECORDING_ID_OFFSET as int,
                    RECORDING_ID_WIDTH as int,
                ) == Err::<Seq<char>, ErrorKind>(e@),
            },
    {
        read_text_field(data, RECORDING_ID_OFFSET, RECORDING_ID_WIDTH)
    }

    /// Reads the reserved block as opaque text.
    pub fn read_reserved(data: &[u8]) -> (r: Result<String, Error>)
        ensures
            match r {
                Ok(s) => spec_read_text(data@, RESERVED_OFFSET as int, RESERVED_WIDTH as int)
                    == Ok::<Seq<char>, ErrorKind>(s@),
                Err(e) => spec_read_text(data@, RESERVED_OFFSET as int, RESERVED_WIDTH as int)
                    == Err::<Seq<char>, ErrorKind>(e@),
            },
    {
        read_text_field(data, RESERVED_OFFSET, RESERVED_WIDTH)
    }

    /// Parses a start date written `DD.MM.YY`, expanding the two-digit year:
    /// a year that would land before 1985 is read as 20YY, any other as 19YY.
    pub fn parse_start_date(s: String) -> (r: Result<Date, Error>)
        ensures
            match spec_parse_start_date(s@) {
                Some(d) => r == Ok::<Date, Error>(d),
                None => r matches Err(e) && e@ == ErrorKind::Header(HeaderError::InvalidDate),
            },
    {
        match dotted_triplet(s.as_str()) {
            None => Err(Error::new(ErrorKind::Header(HeaderError::InvalidDate))),
            Some((day, month, yy)) => {
                let year: i32 = if yy >= 85 {
                    1900 + yy as i32
                } else {
                    2000 + yy as i32
                };
                if chrono_date_exists(year, month, day) {
                    Ok(Date::new(year, month, day))
                } else {
                    Err(Error::new(ErrorKind::Header(HeaderError::InvalidDate)))
                }
            },
        }
    }

    /// Reads the start date field.
    pub fn read_start_date(data: &[u8]) -> (r: Result<Date, Error>)
        ensures
            match r {
                Ok(d) => spec_read_start_date(data@) == Ok::<Date, ErrorKind>(d),
                Err(e) => spec_read_start_date(data@) == Err::<Date, ErrorKind>(e@),
            },
    {
        match read_text_field(data, START_DATE_OFFSET, START_DATE_WIDTH) {
            Err(e) => Err(e),
            Ok(s) => Reader::parse_start_date(s),
        }
    }

    /// Reads the start time field, written `HH.MM.SS`.
    pub fn read_start_time(data: &[u8]) -> (r: Result<Time, Error>)
        ensures
            match r {
                Ok(t) => spec_read_start_time(data@) == Ok::<Time, ErrorKind>(t),
                Err(e) => spec_read_start_time(data@) == Err::<Time, ErrorKind>(e@),
            },
    {
        match read_text_field(data, START_TIME_OFFSET, START_TIME_WIDTH) {
            Err(e) => Err(e),
            Ok(s) => parse_time_text(s.as_str()),
        }
    }

    /// Reads the declared header size in bytes.
    pub fn read_header_size(data: &[u8]) -> (r: Result<usize, Error>)
        ensures
            match r {
                Ok(n) => spec_read_header_size(data@) == Ok::<usize, ErrorKind>(n),
                Err(e) => spec_read_header_size(data@) == Err::<usize, ErrorKind>(e@),
            },
    {
        match read_text_field(data, SIZE_OFFSET, SIZE_WIDTH) {
            Err(e) => Err(e),
            Ok(s) => match parse_unsigned_field(s.as_str()) {
                Some(v) => {
                    proof {
                        lemma_parse_unsigned_bound(s@);
                        lemma_pow10_nondecreasing(s@.len(), 8);
                        assert(pow10(8) == 100000000) by {
                            reveal_with_fuel(pow10, 9);
                        }
                    }
                    Ok(v as usize)
                },
                None => Err(Error::new(ErrorKind::Header(HeaderError::InvalidSize))),
            },
        }
    }

    /// Reads the record count: `-1` stands for "unknown" and becomes `None`,
    /// a positive count stands for itself, and anything else is rejected.
    pub fn read_records_len(data: &[u8]) -> (r: Result<Option<usize>, Error>)
        ensures
            match r {
                Ok(n) => spec_read_records_len(data@) == Ok::<Option<usize>, ErrorKind>(n),
                Err(e) => spec_read_records_len(data@) == Err::<Option<usize>, ErrorKind>(e@),
            },
    {
        match read_text_field(data, RECORDS_LEN_OFFSET, RECORDS_LEN_WIDTH) {
            Err(e) => Err(e),
            Ok(s) => match parse_signed_field(s.as_str()) {
                None => Err(Error::new(ErrorKind::Header(HeaderError::InvalidRecordsLen))),
                Some(n) => {
                    if n == -1 {
                        Ok(None)
                    } else if n > 0 {
                        proof {
                            lemma_parse_signed_bound(s@);
                            lemma_pow10_nondecreasing(s@.len(), 8);
                            assert(pow10(8) == 100000000) by {
                                reveal_with_fuel(pow10, 9);
                            }
                        }
                        Ok(Some(n as usize))
                    } else {
                        Err(Error::new(ErrorKind::Header(HeaderError::RecordsLenOutOfRange)))
                    }
                },
            },
        }
    }

    /// Reads the duration of a data record in whole seconds.  A fractional
    /// part is accepted only when it reads as the 8-bit integer zero; any
    /// other fraction is rejected as unsupported rather than rounded.
    pub fn read_duration(data: &[u8]) -> (r: Result<usize, Error>)
        ensures
            match r {
                Ok(n) => spec_read_duration(data@) == Ok::<usize, ErrorKind>(n),
                Err(e) => spec_read_duration(data@) == Err::<usize, ErrorKind>(e@),
            },
    {
        let s = match read_text_field(data, DURATION_OFFSET, DURATION_WIDTH) {
            Err(e) => {
                return Err(e);
            },
            Ok(s) => s,
        };
        let st = s.as_str();
        let e = trim_end_len(st);
        let ghost t = trim_end_spaces(st@);
        match find_dot(st, e) {
            None => {
                proof {
                    lemma_find_char_absent(t, '.');
                }
                match parse_unsigned_field(st) {
                    Some(v) => {
                        proof {
                            lemma_parse_unsigned_bound(st@);
                            lemma_pow10_nondecreasing(st@.len(), 8);
                            assert(pow10(8) == 100000000) by {
                                reveal_with_fuel(pow10, 9);
                            }
                        }
                        Ok(v as usize)
                    },
                    None => Err(Error::new(ErrorKind::Header(HeaderError::InvalidDuration))),
                }
            },
            Some(i) => {
                proof {
                    lemma_find_char_present(t, '.', i as int);
                }
                let mstart: usize = if i + 1 < e && st.get_char(i + 1) as u32 == 43 {
                    i + 2
                } else {
                    i + 1
                };
                proof {
                    let m = t.subrange(i as int + 1, t.len() as int);
                    assert(unsigned_digits(m) =~= st@.subrange(mstart as int, e as int));
                }
                match parse_digits(st, mstart, e) {
                    None => Err(Error::new(ErrorKind::Header(HeaderError::InvalidDuration))),
                    Some(m) => {
                        if m > 255 {
                            Err(Error::new(ErrorKind::Header(HeaderError::InvalidDuration)))
                        } else if m != 0 {
                            Err(Error::new(ErrorKind::Header(HeaderError::NonZeroDurationFraction)))
                        } else {
                            let cstart: usize = if 0 < i && st.get_char(0) as u32 == 43 {
                                1
                            } else {
                                0
                            };
                            proof {
                                let c = t.subrange(0, i as int);
                                assert(unsigned_digits(c) =~= st@.subrange(
                                    cstart as int,
                                    i as int,
                                ));
                            }
                            match parse_digits(st, cstart, i) {
                                Some(v) => {
                                    proof {
                                        lemma_dec_value_bound(st@.subrange(cstart as int, i as int));
                                        lemma_pow10_nondecreasing(
                                            st@.subrange(cstart as int, i as int).len(),
                                            8,
                                        );
                                        assert(pow10(8) == 100000000) by {
                                            reveal_with_fuel(pow10, 9);
                                        }
                                    }
                                    Ok(v as usize)
                                },
                                None => Err(
                                    Error::new(ErrorKind::Header(HeaderError::InvalidDuration)),
                                ),
                            }
                        }
                    },
                }
            },
        }
    }

    /// Reads the number of signals in a data record.
    pub fn read_signals_len(data: &[u8]) -> (r: Result<u32, Error>)
        ensures
            match r {
                Ok(n) => spec_read_signals_len(data@) == Ok::<u32, ErrorKind>(n),
                Err(e) => spec_read_signals_len(data@) == Err::<u32, ErrorKind>(e@),
            },
    {
        match read_text_field(data, SIGNALS_LEN_OFFSET, SIGNALS_LEN_WIDTH) {
            Err(e) => Err(e),
            Ok(s) => match parse_unsigned_field(s.as_str()) {
                Some(v) => {
                    proof {
                        lemma_parse_unsigned_bound(s@);
                        lemma_pow10_nondecreasing(s@.len(), 4);
                        assert(pow10(4) == 10000) by {
                            reveal_with_fuel(pow10, 5);
                        }
                    }
                    Ok(v as u32)
                },
                None => Err(Error::new(ErrorKind::Header(HeaderError::InvalidSignalsLen))),
            },
        }
    }

    /// Reads and validates the whole header: every field in its fixed order,
    /// the first failure abandoning the parse with its error.
    pub fn read_header(data: &[u8]) -> (r: Result<Header, Error>)
        ensures
            match r {
                Ok(h) => spec_read_header(data@) == Ok::<HeaderView, ErrorKind>(h@),
                Err(e) => spec_read_header(data@) == Err::<HeaderView, ErrorKind>(e@),
            },
    {
        match Reader::read_version(data) {
            Err(e) => {
                return Err(e);
            },
            Ok(_) => {},
        }
        let patient_info = match Reader::read_patient_info(data) {
            Err(e) => {
                return Err(e);
            },
            Ok(v) => v,
        };
        let recording_id = match Reader::read_recording_id(data) {
            Err(e) => {
                return Err(e);
            },
            Ok(v) => v,
        };
        let start_date = match Reader::read_start_date(data) {
            Err(e) => {
                return Err(e);
            },
            Ok(v) => v,
        };
        let start_time = match Reader::read_start_time(data) {
            Err(e) => {
                return Err(e);
            },
            Ok(v) => v,
        };
        let size = match Reader::read_header_size(data) {
            Err(e) => {
                return Err(e);
            },
            Ok(v) => v,
        };
        let reserved = match Reader::read_reserved(data) {
            Err(e) => {
                return Err(e);
            },
            Ok(v) => v,
        };
        let records_len = match Reader::read_records_len(data) {
            Err(e) => {
                return Err(e);
            },
            Ok(v) => v,
        };
        let duration = match Reader::read_duration(data) {
            Err(e) => {
                return Err(e);
            },
            Ok(v) => v,
        };
        let signals_len = match Reader::read_signals_len(data) {
            Err(e) => {
                return Err(e);
            },
            Ok(v) => v,
        };
        let h = Header::new(
            patient_info,
            recording_id,
            start_date,
            start_time,
            size,
            reserved,
            records_len,
            duration,
            signals_len,
        );
        proof {
            assert(spec_read_header(data@) == Ok::<HeaderView, ErrorKind>(h@)) by {
                assert(h@ =~= (HeaderView {
                    patient_info: h@.patient_info,
                    recording_id: h@.recording_id,
                    start_datetime: DateTime { date: start_date, time: start_time },
                    size,
                    reserved: h@.reserved,
                    records_len,
                    duration,
                    signals_len,
                }));
            }
        }
        Ok(h)
    }
}

} // verus!
