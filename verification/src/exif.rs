//! What the embedded metadata of a media file says of its capture time and
//! of the way it has to be turned.
use vstd::prelude::*;

verus! {

/// A turn of the picture, clockwise.
#[derive(Debug, Clone, Copy, PartialEq, Eq, Structural)]
pub enum Rotation {
    D0,
    D90,
    D180,
    D270,
}

/// How a picture has to be turned and mirrored to stand upright.
#[derive(Debug, Clone, Copy, PartialEq, Eq, Structural)]
pub struct Orientation {
    pub rotation: Rotation,
    pub mirror: bool,
}

/// The orientation that the value `v` of the orientation tag stands for:
/// the values 1 to 8 in pairs for a turn of 0, 180, 90 and 270 degrees,
/// mirrored for 2, 4, 5 and 7.
pub open spec fn orientation_of(v: u32) -> Option<Orientation> {
    if 1 <= v <= 8 {
        Some(
            Orientation {
                rotation: if v <= 2 {
                    Rotation::D0
                } else if v <= 4 {
                    Rotation::D180
                } else if v <= 6 {
                    Rotation::D90
                } else {
                    Rotation::D270
                },
                mirror: v == 2 || v == 4 || v == 5 || v == 7,
            },
        )
    } else {
        None
    }
}

impl Orientation {
    /// The orientation that the value `v` of the orientation tag stands for.
    pub fn from_exif_value(v: u32) -> (r: Option<Self>)
        ensures
            r == orientation_of(v),
    {
        let rotation = match v {
            1..=2 => Rotation::D0,
            3..=4 => Rotation::D180,
            5..=6 => Rotation::D90,
            7..=8 => Rotation::D270,
            _ => {
                return None;
            },
        };
        let mirror = match v {
            2 | 4 | 5 | 7 => true,
            _ => false,
        };
        Some(Orientation { rotation, mirror })
    }
}

/// What is kept of a file's embedded metadata.
#[derive(Debug, PartialEq)]
pub struct Exif {
    /// The capture time in seconds since the epoch.
    pub date_time_original: Option<i64>,
    pub orientation: Option<Orientation>,
}

/// A date and time that does not exist.
#[derive(Debug, PartialEq, Eq, Structural)]
pub struct ExifDateTimeError;

/// Why a field gave no time.
#[derive(Debug, PartialEq, Eq, Structural)]
pub enum ExifFieldError {
    /// The text is blank or is not of the form `YYYY:MM:DD HH:MM:SS`.
    Format,
    /// The text names a date or a time that does not exist.
    DateTime(ExifDateTimeError),
}

/// A date and time as the metadata holds it: civil fields, the nanoseconds
/// where a sub-second field was found, and the time zone's offset in
/// minutes where one was found.
#[derive(Debug, Clone, Copy, PartialEq, Eq, Structural)]
pub struct DateTime {
    pub year: u16,
    pub month: u8,
    pub day: u8,
    pub hour: u8,
    pub minute: u8,
    pub second: u8,
    pub nanosecond: Option<u32>,
    pub offset: Option<i16>,
}

/// A point in time in UTC: seconds since the epoch, and nanoseconds.
#[derive(Debug, Clone, Copy, PartialEq, Eq, Structural)]
pub struct UtcDateTime {
    pub secs: i64,
    pub nanos: u32,
}

/// The value of a metadata field, as far as it is read here.
#[derive(Debug)]
pub enum Value {
    /// Texts of 7-bit characters.
    Ascii(Vec<Vec<u8>>),
    /// 8-bit unsigned integers.
    Byte(Vec<u8>),
    /// 16-bit unsigned integers.
    Short(Vec<u16>),
    /// 32-bit unsigned integers.
    Long(Vec<u32>),
    /// A value of another type.
    Other,
}

/// A metadata field.
#[derive(Debug)]
pub struct Field {
    pub value: Value,
}

/// The unsigned integer at `index` of `value`, where it holds unsigned
/// integers and that many of them.
pub open spec fn uint_at(value: Value, index: int) -> Option<u32> {
    match value {
        Value::Byte(v) => if 0 <= index < v.len() {
            Some(v[index] as u32)
        } else {
            None
        },
        Value::Short(v) => if 0 <= index < v.len() {
            Some(v[index] as u32)
        } else {
            None
        },
        Value::Long(v) => if 0 <= index < v.len() {
            Some(v[index])
        } else {
            None
        },
        _ => None,
    }
}

impl Value {
    /// The unsigned integer at `index`, if there is one.
    pub fn get_uint(&self, index: usize) -> (r: Option<u32>)
        ensures
            r == uint_at(*self, index as int),
    {
        match self {
            Value::Byte(v) => if index < v.len() {
                Some(v[index] as u32)
            } else {
                None
            },
            Value::Short(v) => if index < v.len() {
                Some(v[index] as u32)
            } else {
                None
            },
            Value::Long(v) => if index < v.len() {
                Some(v[index])
            } else {
                None
            },
            _ => None,
        }
    }
}

/// Whether `year` is a leap year of the Gregorian calendar.
pub open spec fn is_leap_year(year: int) -> bool {
    year % 4 == 0 && (year % 100 != 0 || year % 400 == 0)
}

/// The number of days of the month `month` of `year`.
pub open spec fn days_in_month(year: int, month: int) -> int {
    if month == 2 {
        if is_leap_year(year) {
            29
        } else {
            28
        }
    } else if month == 4 || month == 6 || month == 9 || month == 11 {
        30
    } else {
        31
    }
}

/// Whether the calendar holds the day `day` of the month `month` of `year`.
pub open spec fn valid_date(year: int, month: int, day: int) -> bool {
    1 <= month <= 12 && 1 <= day <= days_in_month(year, month)
}

/// Whether a day holds the time `hour:minute:second` with `nano`
/// nanoseconds; a billion nanoseconds and more stand for a leap second and
/// go with second 59 only.
pub open spec fn valid_time(hour: int, minute: int, second: int, nano: int) -> bool {
    hour < 24 && minute < 60 && second < 60 && nano < 2_000_000_000 && (nano < 1_000_000_000
        || second == 59)
}

/// Whether a time zone may lie `secs` seconds east of UTC: less than a day
/// either way.
pub open spec fn valid_offset(secs: int) -> bool {
    -86_400 < secs < 86_400
}

/// The number of leap years from the year 1 up to, and without, `year`; for
/// a year before the year 1, less the leap years from it up to the year 1.
pub open spec fn leap_years_before(year: int) -> int {
    (year - 1) / 4 - (year - 1) / 100 + (year - 1) / 400
}

/// The number of days from the first day of the year 1 to the first day of
/// `year` in the Gregorian calendar, carried on before its introduction.
pub open spec fn days_before_year(year: int) -> int {
    365 * (year - 1) + leap_years_before(year)
}

/// The number of days of `year` that lie before its month `month`.
pub open spec fn days_before_month(year: int, month: int) -> int
    decreases month,
{
    if month <= 1 {
        0
    } else {
        days_before_month(year, month - 1) + days_in_month(year, month - 1)
    }
}

/// The number of days from the first day of 1970 to the given day.
pub open spec fn days_since_epoch(year: int, month: int, day: int) -> int {
    days_before_year(year) + days_before_month(year, month) + (day - 1) - days_before_year(1970)
}

/// The seconds since the epoch at which a clock `offset_secs` seconds east
/// of UTC shows the given date and time; every day has 86 400 of them.
pub open spec fn utc_seconds(
    year: int,
    month: int,
    day: int,
    hour: int,
    minute: int,
    second: int,
    offset_secs: int,
) -> int {
    days_since_epoch(year, month, day) * 86_400 + hour * 3_600 + minute * 60 + second
        - offset_secs
}

/// `FixedOffset::east_opt` of chrono: there is such an offset exactly for
/// less than a day either way.
#[verifier::external_body]
fn offset_exists(secs: i32) -> (r: bool)
    ensures
        r == valid_offset(secs as int),
{
    chrono::FixedOffset::east_opt(secs).is_some()
}

/// Whether the date and the time exist.
pub open spec fn civil_exists(
    year: u16,
    month: u8,
    day: u8,
    hour: u8,
    minute: u8,
    second: u8,
    nano: u32,
) -> bool {
    valid_date(year as int, month as int, day as int) && valid_time(
        hour as int,
        minute as int,
        second as int,
        nano as int,
    )
}

/// `NaiveDate::from_ymd_opt`, `NaiveDate::and_hms_nano_opt`, the
/// subtraction of a `FixedOffset` and `DateTime::timestamp` of chrono. There
/// is a result exactly where the date and the time exist; it is the
/// timestamp of that local time at the given offset: the seconds, without
/// leap seconds, since the first of January 1970 at 0:00 UTC.
#[verifier::external_body]
fn timestamp_at(
    year: u16,
    month: u8,
    day: u8,
    hour: u8,
    minute: u8,
    second: u8,
    nano: u32,
    offset_secs: i32,
) -> (r: Option<i64>)
    requires
        valid_offset(offset_secs as int),
    ensures
        r is Some <==> civil_exists(year, month, day, hour, minute, second, nano),
        r is Some ==> r->0 == utc_seconds(year as int, month as int, day as int, hour as int, minute as int, second as int, offset_secs as int),
{
    let tz = chrono::FixedOffset::east_opt(offset_secs)?;
    let date = chrono::NaiveDate::from_ymd_opt(year as i32, month as u32, day as u32)?;
    let local = date.and_hms_nano_opt(hour as u32, minute as u32, second as u32, nano)?;
    Some((local.and_utc() - tz).timestamp())
}

/// The nanoseconds of `dt`, 0 where it holds none.
pub open spec fn nanos_of(dt: DateTime) -> u32 {
    match dt.nanosecond {
        Some(n) => n,
        None => 0,
    }
}

/// The offset of `dt` in seconds, 0 where it holds none.
pub open spec fn offset_secs_of(dt: DateTime) -> int {
    match dt.offset {
        Some(minutes) => minutes * 60,
        None => 0,
    }
}

/// Whether `dt` names a point in time: its offset is less than a day, and
/// its date and its time exist.
pub open spec fn exists_in_time(dt: DateTime) -> bool {
    &&& valid_offset(offset_secs_of(dt))
    &&& valid_date(dt.year as int, dt.month as int, dt.day as int)
    &&& valid_time(dt.hour as int, dt.minute as int, dt.second as int, nanos_of(dt) as int)
}

/// The point in time that `dt` names.
pub open spec fn utc_of(dt: DateTime) -> Result<UtcDateTime, ExifDateTimeError> {
    if exists_in_time(dt) {
        Ok(
            UtcDateTime {
                secs: utc_seconds(
                    dt.year as int,
                    dt.month as int,
                    dt.day as int,
                    dt.hour as int,
                    dt.minute as int,
                    dt.second as int,
                    offset_secs_of(dt),
                ) as i64,
                nanos: nanos_of(dt),
            },
        )
    } else {
        Err(ExifDateTimeError)
    }
}

/// The point in time that `dt` names, or an error where its offset, its
/// date or its time does not exist.
pub fn exif_to_datetime(dt: &DateTime) -> (r: Result<UtcDateTime, ExifDateTimeError>)
    ensures
        r == utc_of(*dt),
{
    let minutes: i32 = match dt.offset {
        Some(m) => m as i32,
        None => 0,
    };
    let offset_secs: i32 = minutes * 60;
    if !offset_exists(offset_secs) {
        return Err(ExifDateTimeError);
    }
    let nanos: u32 = match dt.nanosecond {
        Some(n) => n,
        None => 0,
    };
    match timestamp_at(
        dt.year,
        dt.month,
        dt.day,
        dt.hour,
        dt.minute,
        dt.second,
        nanos,
        offset_secs,
    ) {
        Some(secs) => Ok(UtcDateTime { secs, nanos }),
        None => Err(ExifDateTimeError),
    }
}

/// The length of the text `YYYY:MM:DD HH:MM:SS`.
pub const DATE_TIME_LEN: usize = 19;

/// `value` cut or filled up with the digit 0 to the length of a date and
/// time.
pub open spec fn padded(value: Seq<u8>) -> Seq<u8> {
    Seq::new(
        19,
        |i: int|
            if i < value.len() {
                value[i]
            } else {
                48u8
            },
    )
}

/// Cuts `value` to the length of a date and time, or fills it up with the
/// digit 0: some writers leave out the last digit.
pub fn pad_date_time(value: &[u8]) -> (r: Vec<u8>)
    ensures
        r@ == padded(value@),
{
    let mut buf: Vec<u8> = Vec::new();
    let mut i: usize = 0;
    while i < DATE_TIME_LEN
        invariant
            i <= 19,
            buf@.len() == i,
            forall|k: int| 0 <= k < i ==> buf@[k] == padded(value@)[k],
        decreases 19 - i,
    {
        if i < value.len() {
            buf.push(value[i]);
        } else {
            buf.push(48u8);
        }
        i += 1;
    }
    assert(buf@ =~= padded(value@));
    buf
}

/// Whether `b` is a decimal digit.
pub open spec fn is_digit(b: u8) -> bool {
    48 <= b <= 57
}

/// The number that the decimal digits `s` write, if `s` is not empty and
/// holds digits only.
pub open spec fn number(s: Seq<u8>) -> Option<int>
    decreases s.len(),
{
    if s.len() == 0 {
        None
    } else if s.len() == 1 {
        if is_digit(s[0]) {
            Some(s[0] - 48)
        } else {
            None
        }
    } else {
        match number(s.drop_last()) {
            Some(n) => if is_digit(s.last()) {
                Some(n * 10 + (s.last() - 48))
            } else {
                None
            },
            None => None,
        }
    }
}

/// Whether the 19 bytes `data` are blank: spaces throughout, or spaces
/// with the four colons of a date and time in place.
pub open spec fn blank(data: Seq<u8>) -> bool {
    ||| forall|i: int| 0 <= i < 19 ==> #[trigger] data[i] == 32
    ||| forall|i: int|
        0 <= i < 19 ==> #[trigger] data[i] == (if i == 4 || i == 7 || i == 13 || i == 16 {
            58u8
        } else {
            32u8
        })
}

/// The date and time that the 19 bytes `data` write in the form
/// `YYYY:MM:DD HH:MM:SS`. The numbers are taken as they stand: a month 13 is
/// read as 13.
pub open spec fn parsed(data: Seq<u8>) -> Option<DateTime> {
    if blank(data) || !(data[4] == 58 && data[7] == 58 && data[10] == 32 && data[13] == 58
        && data[16] == 58) {
        None
    } else {
        match (
            number(data.subrange(0, 4)),
            number(data.subrange(5, 7)),
            number(data.subrange(8, 10)),
            number(data.subrange(11, 13)),
            number(data.subrange(14, 16)),
            number(data.subrange(17, 19)),
        ) {
            (Some(year), Some(month), Some(day), Some(hour), Some(minute), Some(second)) => Some(
                DateTime {
                    year: year as u16,
                    month: month as u8,
                    day: day as u8,
                    hour: hour as u8,
                    minute: minute as u8,
                    second: second as u8,
                    nanosecond: None,
                    offset: None,
                },
            ),
            _ => None,
        }
    }
}

/// `DateTime::from_ascii` of the exif crate, on 19 bytes: the date and time
/// that they write, or nothing where they are blank, lack a delimiter or
/// hold something else than digits in a number's place.
#[verifier::external_body]
fn from_ascii(data: &[u8]) -> (r: Option<DateTime>)
    requires
        data@.len() == 19,
    ensures
        r == parsed(data@),
{
    let d = ::exif::DateTime::from_ascii(data).ok()?;
    Some(
        DateTime {
            year: d.year,
            month: d.month,
            day: d.day,
            hour: d.hour,
            minute: d.minute,
            second: d.second,
            nanosecond: d.nanosecond,
            offset: d.offset,
        },
    )
}

/// The point in time that the text `value` of a field names.
pub open spec fn text_utc(value: Seq<u8>) -> Result<UtcDateTime, ExifFieldError> {
    match parsed(padded(value)) {
        None => Err(ExifFieldError::Format),
        Some(dt) => match utc_of(dt) {
            Ok(t) => Ok(t),
            Err(e) => Err(ExifFieldError::DateTime(e)),
        },
    }
}

/// The text of a date-and-time field: the first of its texts, where it
/// holds text and at least one.
pub open spec fn date_text(value: Value) -> Option<Seq<u8>> {
    match value {
        Value::Ascii(texts) => if texts.len() > 0 {
            Some(texts[0]@)
        } else {
            None
        },
        _ => None,
    }
}

/// The point in time that a date-and-time field names; a field without
/// text names none.
pub open spec fn field_utc(field: Field) -> Result<UtcDateTime, ExifFieldError> {
    match date_text(field.value) {
        Some(text) => text_utc(text),
        None => Err(ExifFieldError::Format),
    }
}

/// The point in time that a date-and-time field names. Of a field that
/// holds texts the first counts; a field that holds none, or a value of
/// another type, is answered like a text of another form.
pub fn exif_field_to_datetime(field: &Field) -> (r: Result<UtcDateTime, ExifFieldError>)
    ensures
        r == field_utc(*field),
{
    match &field.value {
        Value::Ascii(texts) => {
            if texts.len() == 0 {
                return Err(ExifFieldError::Format);
            }
            let buf = pad_date_time(texts[0].as_slice());
            match from_ascii(buf.as_slice()) {
                None => Err(ExifFieldError::Format),
                Some(dt) => match exif_to_datetime(&dt) {
                    Ok(t) => Ok(t),
                    Err(e) => Err(ExifFieldError::DateTime(e)),
                },
            }
        },
        _ => Err(ExifFieldError::Format),
    }
}

/// The capture time, in seconds, that a date-and-time field gives: none
/// where the field is missing or names no point in time.
pub open spec fn capture_seconds(field: Option<Field>) -> Option<i64> {
    match field {
        Some(f) => match field_utc(f) {
            Ok(t) => Some(t.secs),
            Err(_) => None,
        },
        None => None,
    }
}

/// The orientation that an orientation field gives.
pub open spec fn field_orientation(field: Option<Field>) -> Option<Orientation> {
    match field {
        Some(f) => match uint_at(f.value, 0) {
            Some(v) => orientation_of(v),
            None => None,
        },
        None => None,
    }
}

impl Exif {
    /// What the two fields of a file say: the field of the original date
    /// and time, and the orientation field. A field that is missing, or
    /// whose value cannot be used, leaves its part empty.
    pub fn from_fields(date_time_original: Option<&Field>, orientation: Option<&Field>) -> (r:
        Exif)
        ensures
            r.date_time_original == capture_seconds(
                match date_time_original {
                    Some(f) => Some(*f),
                    None => None,
                },
            ),
            r.orientation == field_orientation(
                match orientation {
                    Some(f) => Some(*f),
                    None => None,
                },
            ),
    {
        let date_time_original = match date_time_original {
            Some(field) => match exif_field_to_datetime(field) {
                Ok(dt) => Some(dt.secs),
                Err(_) => None,
            },
            None => None,
        };
        let orientation = match orientation {
            Some(field) => match field.value.get_uint(0) {
                Some(v) => Orientation::from_exif_value(v),
                None => None,
            },
            None => None,
        };
        Exif { date_time_original, orientation }
    }
}

} // verus!
