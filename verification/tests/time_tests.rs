use x509_der::calendar::{days_in_month, time_from_ymdhms_utc, Time};
use x509_der::reader::Reader;
use x509_der::time::time_choice;
use x509_der::Error;

fn utc_time(body: &[u8]) -> Vec<u8> {
    let mut buf = vec![0x17u8, body.len() as u8];
    buf.extend_from_slice(body);
    buf
}

fn generalized_time(body: &[u8]) -> Vec<u8> {
    let mut buf = vec![0x18u8, body.len() as u8];
    buf.extend_from_slice(body);
    buf
}

#[test]
fn utc_time_end_of_1999() {
    // 1999-12-31T23:59:59Z is one second before 2000-01-01T00:00:00Z,
    // which is 946684800 seconds after the Unix epoch.
    let buf = utc_time(b"991231235959Z");
    let mut r = Reader::new(&buf);
    let t = time_choice(&mut r).unwrap();
    assert_eq!(t.seconds_since_unix_epoch(), 946684799);
    assert_eq!(t, Time::from_seconds_since_unix_epoch(946684799));
}

#[test]
fn generalized_time_leap_day_2000_is_accepted() {
    let buf = generalized_time(b"20000229000000Z");
    let mut r = Reader::new(&buf);
    let t = time_choice(&mut r).unwrap();
    // 31 (January) + 28 (February) = 59 days into the year 2000.
    assert_eq!(t.seconds_since_unix_epoch(), 946684800 + 59 * 86400);
}

#[test]
fn non_leap_year_february_29_is_rejected() {
    let buf = generalized_time(b"20010229000000Z");
    let mut r = Reader::new(&buf);
    assert_eq!(time_choice(&mut r), Err(Error::BadDERTime));
}

#[test]
fn missing_zone_suffix_is_rejected() {
    let buf = utc_time(b"991231235959X");
    let mut r = Reader::new(&buf);
    assert_eq!(time_choice(&mut r), Err(Error::BadDERTime));

    let buf = utc_time(b"991231235959");
    let mut r = Reader::new(&buf);
    assert_eq!(time_choice(&mut r), Err(Error::BadDERTime));
}

#[test]
fn non_digit_in_a_digit_slot_is_rejected() {
    let buf = utc_time(b"9912a1235959Z");
    let mut r = Reader::new(&buf);
    assert_eq!(time_choice(&mut r), Err(Error::BadDERTime));
}

#[test]
fn out_of_range_fields_are_rejected() {
    for body in [
        b"991331235959Z", // month 13
        b"991200235959Z", // day 0
        b"990230235959Z", // February 30
        b"991231245959Z", // hour 24
        b"991231236059Z", // minute 60
        b"991231235960Z", // second 60
    ] {
        let buf = utc_time(body);
        let mut r = Reader::new(&buf);
        assert_eq!(time_choice(&mut r), Err(Error::BadDERTime));
    }
}

#[test]
fn trailing_byte_after_valid_time_is_bad_der() {
    let mut body = b"991231235959Z".to_vec();
    body.push(0x00);
    let buf = utc_time(&body);
    let mut r = Reader::new(&buf);
    assert_eq!(time_choice(&mut r), Err(Error::BadDER));
}

#[test]
fn wrong_tag_is_bad_der() {
    // Anything but UTCTime is framed as GeneralizedTime; another tag fails.
    let mut buf = utc_time(b"991231235959Z");
    buf[0] = 0x16;
    let mut r = Reader::new(&buf);
    assert_eq!(time_choice(&mut r), Err(Error::BadDER));
}

#[test]
fn utc_century_inference_splits_at_50() {
    // 50 and above mean 19xx: 1950-01-01T00:00:00Z precedes the Unix
    // epoch, which the calendar does not represent.
    let buf = utc_time(b"500101000000Z");
    let mut r = Reader::new(&buf);
    assert_eq!(time_choice(&mut r), Err(Error::BadDERTime));

    // 49 and below mean 20xx.
    let buf = utc_time(b"490101000000Z");
    let mut r = Reader::new(&buf);
    assert!(time_choice(&mut r).is_ok());
}

#[test]
fn days_in_month_is_leap_aware() {
    assert_eq!(days_in_month(2000, 2), 29); // divisible by 400
    assert_eq!(days_in_month(1900, 2), 28); // divisible by 100 only
    assert_eq!(days_in_month(1996, 2), 29); // divisible by 4
    assert_eq!(days_in_month(1999, 2), 28);
    assert_eq!(days_in_month(1999, 1), 31);
    assert_eq!(days_in_month(1999, 4), 30);
    assert_eq!(days_in_month(1999, 12), 31);
}

#[test]
fn ymdhms_conversion_exact_values() {
    let t = time_from_ymdhms_utc(1970, 1, 1, 0, 0, 0).unwrap();
    assert_eq!(t.seconds_since_unix_epoch(), 0);

    let t = time_from_ymdhms_utc(1999, 12, 31, 23, 59, 59).unwrap();
    assert_eq!(t.seconds_since_unix_epoch(), 946684799);

    let t = time_from_ymdhms_utc(1970, 1, 2, 0, 0, 1).unwrap();
    assert_eq!(t.seconds_since_unix_epoch(), 86401);
}

#[test]
fn ymdhms_conversion_rejects_invalid_dates() {
    assert_eq!(
        time_from_ymdhms_utc(1999, 2, 29, 0, 0, 0),
        Err(Error::BadDERTime)
    );
    assert_eq!(
        time_from_ymdhms_utc(1999, 13, 1, 0, 0, 0),
        Err(Error::BadDERTime)
    );
    assert_eq!(
        time_from_ymdhms_utc(1999, 1, 1, 24, 0, 0),
        Err(Error::BadDERTime)
    );
    // Before the Unix epoch: not representable.
    assert_eq!(
        time_from_ymdhms_utc(1969, 12, 31, 23, 59, 59),
        Err(Error::BadDERTime)
    );
}
