use gallerina::exif::{
    exif_field_to_datetime, exif_to_datetime, pad_date_time, DateTime, Exif, ExifDateTimeError,
    ExifFieldError, Field, Orientation, Rotation, UtcDateTime, Value,
};

fn shown(dt: UtcDateTime) -> String {
    let t = chrono::DateTime::from_timestamp(dt.secs, dt.nanos).expect("a time in range");
    format!("{:?}", t)
}

fn date(year: u16, month: u8, day: u8, hour: u8, minute: u8, second: u8) -> DateTime {
    DateTime { year, month, day, hour, minute, second, nanosecond: None, offset: None }
}

fn text_field(text: &[u8]) -> Field {
    Field { value: Value::Ascii(vec![text.to_vec()]) }
}

#[test]
fn test_exif_to_datetime() {
    let exif_dt = DateTime {
        year: 2021,
        month: 09,
        day: 19,
        hour: 14,
        minute: 05,
        second: 40,
        nanosecond: None,
        offset: Some(2 * 60),
    };
    let dt = exif_to_datetime(&exif_dt).expect("exif to datetime");
    assert_eq!(shown(dt), "2021-09-19T12:05:40Z");
}

#[test]
fn a_time_without_offset_is_taken_as_utc() {
    let dt = exif_to_datetime(&date(2008, 5, 30, 15, 56, 1)).expect("a time");
    assert_eq!(dt, UtcDateTime { secs: 1212162961, nanos: 0 });
    let epoch = exif_to_datetime(&date(1970, 1, 1, 0, 0, 0)).expect("a time");
    assert_eq!(epoch, UtcDateTime { secs: 0, nanos: 0 });
}

#[test]
fn an_offset_to_the_west_moves_the_time_forward() {
    let mut d = date(2021, 12, 31, 23, 30, 0);
    d.offset = Some(-60);
    assert_eq!(shown(exif_to_datetime(&d).expect("a time")), "2022-01-01T00:30:00Z");
}

#[test]
fn nanoseconds_are_kept() {
    let mut d = date(2021, 9, 19, 14, 5, 40);
    d.nanosecond = Some(250_000_000);
    let dt = exif_to_datetime(&d).expect("a time");
    assert_eq!(dt.nanos, 250_000_000);
    assert_eq!(shown(dt), "2021-09-19T14:05:40.250Z");
}

#[test]
fn a_day_that_the_calendar_lacks_is_an_error() {
    assert_eq!(exif_to_datetime(&date(2021, 2, 29, 0, 0, 0)), Err(ExifDateTimeError));
    assert_eq!(exif_to_datetime(&date(2021, 4, 31, 0, 0, 0)), Err(ExifDateTimeError));
    assert_eq!(exif_to_datetime(&date(2021, 0, 1, 0, 0, 0)), Err(ExifDateTimeError));
    assert_eq!(exif_to_datetime(&date(2021, 13, 1, 0, 0, 0)), Err(ExifDateTimeError));
    assert_eq!(exif_to_datetime(&date(2021, 1, 0, 0, 0, 0)), Err(ExifDateTimeError));
    assert_eq!(exif_to_datetime(&date(1900, 2, 29, 0, 0, 0)), Err(ExifDateTimeError));
}

#[test]
fn leap_days_exist() {
    assert!(exif_to_datetime(&date(2020, 2, 29, 0, 0, 0)).is_ok());
    assert!(exif_to_datetime(&date(2000, 2, 29, 0, 0, 0)).is_ok());
    assert!(exif_to_datetime(&date(0, 2, 29, 0, 0, 0)).is_ok());
    assert!(exif_to_datetime(&date(65535, 12, 31, 23, 59, 59)).is_ok());
}

#[test]
fn a_time_that_the_day_lacks_is_an_error() {
    assert_eq!(exif_to_datetime(&date(2021, 1, 1, 24, 0, 0)), Err(ExifDateTimeError));
    assert_eq!(exif_to_datetime(&date(2021, 1, 1, 0, 60, 0)), Err(ExifDateTimeError));
    assert_eq!(exif_to_datetime(&date(2021, 1, 1, 0, 0, 60)), Err(ExifDateTimeError));
    let mut d = date(2021, 1, 1, 0, 0, 58);
    d.nanosecond = Some(1_000_000_000);
    assert_eq!(exif_to_datetime(&d), Err(ExifDateTimeError));
    d.nanosecond = Some(999_999_999);
    assert!(exif_to_datetime(&d).is_ok());
    d.second = 59;
    d.nanosecond = Some(1_999_999_999);
    assert!(exif_to_datetime(&d).is_ok());
    d.nanosecond = Some(2_000_000_000);
    assert_eq!(exif_to_datetime(&d), Err(ExifDateTimeError));
}

#[test]
fn an_offset_of_a_day_or_more_is_an_error() {
    let mut d = date(2021, 1, 1, 0, 0, 0);
    d.offset = Some(24 * 60);
    assert_eq!(exif_to_datetime(&d), Err(ExifDateTimeError));
    d.offset = Some(-24 * 60);
    assert_eq!(exif_to_datetime(&d), Err(ExifDateTimeError));
    d.offset = Some(24 * 60 - 1);
    assert!(exif_to_datetime(&d).is_ok());
    d.offset = Some(-24 * 60 + 1);
    assert!(exif_to_datetime(&d).is_ok());
    d.offset = Some(i16::MAX);
    assert_eq!(exif_to_datetime(&d), Err(ExifDateTimeError));
    d.offset = Some(i16::MIN);
    assert_eq!(exif_to_datetime(&d), Err(ExifDateTimeError));
}

#[test]
fn a_field_is_read_as_date_and_time() {
    let dt = exif_field_to_datetime(&text_field(b"2008:05:30 15:56:01")).expect("a time");
    assert_eq!(dt, UtcDateTime { secs: 1212162961, nanos: 0 });
}

#[test]
fn a_field_that_is_too_short_is_filled_up_with_zeros() {
    let dt = exif_field_to_datetime(&text_field(b"2013:07:04 21:02:5")).expect("a time");
    assert_eq!(shown(dt), "2013-07-04T21:02:50Z");
}

#[test]
fn a_field_that_is_too_long_is_cut() {
    let dt = exif_field_to_datetime(&text_field(b"2013:07:04 21:02:59.123")).expect("a time");
    assert_eq!(shown(dt), "2013-07-04T21:02:59Z");
}

#[test]
fn only_the_first_text_of_a_field_counts() {
    let field = Field {
        value: Value::Ascii(vec![b"2013:07:04 21:02:59".to_vec(), b"junk".to_vec()]),
    };
    assert_eq!(shown(exif_field_to_datetime(&field).expect("a time")), "2013-07-04T21:02:59Z");
}

#[test]
fn a_field_of_another_form_is_a_format_error() {
    for text in [
        &b"                   "[..],
        &b"    :  :     :  :  "[..],
        &b"2013-07-04 21:02:59"[..],
        &b"2013:07:04T21:02:59"[..],
        &b"2013:07:04 21:02:5x"[..],
        &b"20x3:07:04 21:02:59"[..],
        &b"2013:07:04 21 02:59"[..],
        &b""[..],
        &b"2013"[..],
    ] {
        assert_eq!(exif_field_to_datetime(&text_field(text)), Err(ExifFieldError::Format));
    }
}

#[test]
fn a_field_with_numbers_out_of_range_is_a_date_error() {
    assert_eq!(
        exif_field_to_datetime(&text_field(b"2013:13:04 21:02:59")),
        Err(ExifFieldError::DateTime(ExifDateTimeError))
    );
    assert_eq!(
        exif_field_to_datetime(&text_field(b"2013:02:30 21:02:59")),
        Err(ExifFieldError::DateTime(ExifDateTimeError))
    );
    assert_eq!(
        exif_field_to_datetime(&text_field(b"2013:07:04 25:02:59")),
        Err(ExifFieldError::DateTime(ExifDateTimeError))
    );
}

#[test]
fn padding_gives_nineteen_bytes() {
    assert_eq!(pad_date_time(b""), b"0000000000000000000".to_vec());
    assert_eq!(pad_date_time(b"2013:07:04 21:02:5"), b"2013:07:04 21:02:50".to_vec());
    assert_eq!(pad_date_time(b"2013:07:04 21:02:59"), b"2013:07:04 21:02:59".to_vec());
    assert_eq!(pad_date_time(b"2013:07:04 21:02:59+01:00"), b"2013:07:04 21:02:59".to_vec());
}

#[test]
fn the_orientation_tag_has_eight_values() {
    let o = |rotation, mirror| Some(Orientation { rotation, mirror });
    assert_eq!(Orientation::from_exif_value(0), None);
    assert_eq!(Orientation::from_exif_value(1), o(Rotation::D0, false));
    assert_eq!(Orientation::from_exif_value(2), o(Rotation::D0, true));
    assert_eq!(Orientation::from_exif_value(3), o(Rotation::D180, false));
    assert_eq!(Orientation::from_exif_value(4), o(Rotation::D180, true));
    assert_eq!(Orientation::from_exif_value(5), o(Rotation::D90, true));
    assert_eq!(Orientation::from_exif_value(6), o(Rotation::D90, false));
    assert_eq!(Orientation::from_exif_value(7), o(Rotation::D270, true));
    assert_eq!(Orientation::from_exif_value(8), o(Rotation::D270, false));
    assert_eq!(Orientation::from_exif_value(9), None);
    assert_eq!(Orientation::from_exif_value(u32::MAX), None);
}

#[test]
fn unsigned_values_are_read_by_position() {
    assert_eq!(Value::Byte(vec![7, 8]).get_uint(1), Some(8));
    assert_eq!(Value::Short(vec![6]).get_uint(0), Some(6));
    assert_eq!(Value::Long(vec![70000]).get_uint(0), Some(70000));
    assert_eq!(Value::Short(vec![6]).get_uint(1), None);
    assert_eq!(Value::Short(vec![]).get_uint(0), None);
    assert_eq!(Value::Ascii(vec![b"6".to_vec()]).get_uint(0), None);
    assert_eq!(Value::Other.get_uint(0), None);
}

#[test]
fn the_two_fields_make_the_metadata() {
    let date = text_field(b"2008:05:30 15:56:01");
    let turn = Field { value: Value::Short(vec![6]) };
    assert_eq!(
        Exif::from_fields(Some(&date), Some(&turn)),
        Exif {
            date_time_original: Some(1212162961),
            orientation: Some(Orientation { rotation: Rotation::D90, mirror: false }),
        }
    );
    assert_eq!(
        Exif::from_fields(Some(&date), None),
        Exif { date_time_original: Some(1212162961), orientation: None }
    );
    assert_eq!(
        Exif::from_fields(None, None),
        Exif { date_time_original: None, orientation: None }
    );
}

#[test]
fn a_field_that_cannot_be_used_leaves_its_part_empty() {
    let date = text_field(b"2008:15:30 15:56:01");
    let turn = Field { value: Value::Short(vec![9]) };
    assert_eq!(
        Exif::from_fields(Some(&date), Some(&turn)),
        Exif { date_time_original: None, orientation: None }
    );
    let text = Field { value: Value::Ascii(vec![b"6".to_vec()]) };
    assert_eq!(Exif::from_fields(None, Some(&text)).orientation, None);
}

#[test]
fn a_date_field_without_text_gives_no_time() {
    let empty = Field { value: Value::Ascii(vec![]) };
    let number = Field { value: Value::Long(vec![20080530]) };
    let other = Field { value: Value::Other };
    assert_eq!(exif_field_to_datetime(&empty), Err(ExifFieldError::Format));
    assert_eq!(exif_field_to_datetime(&number), Err(ExifFieldError::Format));
    assert_eq!(exif_field_to_datetime(&other), Err(ExifFieldError::Format));
    let turn = Field { value: Value::Short(vec![3]) };
    assert_eq!(
        Exif::from_fields(Some(&empty), Some(&turn)),
        Exif {
            date_time_original: None,
            orientation: Some(Orientation { rotation: Rotation::D180, mirror: false }),
        }
    );
    assert_eq!(Exif::from_fields(Some(&number), None).date_time_original, None);
    assert_eq!(Exif::from_fields(Some(&other), None).date_time_original, None);
}
