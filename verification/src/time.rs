//! The UTCTime / GeneralizedTime decoder.
//!
//! The next tag discriminates the two grammars: UTCTime carries a two-digit
//! year (50 through 99 mean 19xx, 00 through 49 mean 20xx), GeneralizedTime
//! a four-digit year. Both then carry `MMDDhhmmss` as fixed-width decimal
//! digit groups and end with the literal byte `'Z'`; nothing else (no
//! fractional seconds, no other zone designators) is accepted.

use vstd::prelude::*;

use crate::calendar;
use crate::calendar::Time;
use crate::der::{expect_tag_and_get_value, spec_after_tlv, tlv_parse, Tag};
use crate::reader::Reader;
use crate::Error;

verus! {

/// Whether `b` is an ASCII decimal digit.
pub open spec fn is_digit(b: u8) -> bool {
    0x30 <= b && b <= 0x39
}

/// The numeric value of the ASCII digit `b`.
pub open spec fn digit_val(b: u8) -> int {
    b as int - 0x30
}

/// The value of the two-digit decimal group at offset `i` of `v`.
pub open spec fn two_digit_val(v: Seq<u8>, i: int) -> int {
    digit_val(v[i]) * 10 + digit_val(v[i + 1])
}

/// How many bytes a time value of the given flavor occupies.
pub open spec fn spec_time_len(utc: bool) -> int {
    if utc {
        13
    } else {
        15
    }
}

/// Where the `MMDDhhmmss` digit groups start.
pub open spec fn spec_date_off(utc: bool) -> int {
    if utc {
        2
    } else {
        4
    }
}

/// The year denoted by the year digits, with the UTCTime century rule.
pub open spec fn spec_year_of(utc: bool, v: Seq<u8>) -> int {
    if utc {
        let yy = two_digit_val(v, 0);
        if yy >= 50 {
            1900 + yy
        } else {
            2000 + yy
        }
    } else {
        two_digit_val(v, 0) * 100 + two_digit_val(v, 2)
    }
}

/// The month digits' value.
pub open spec fn spec_month_of(utc: bool, v: Seq<u8>) -> int {
    two_digit_val(v, spec_date_off(utc))
}

/// The day-of-month digits' value.
pub open spec fn spec_day_of(utc: bool, v: Seq<u8>) -> int {
    two_digit_val(v, spec_date_off(utc) + 2)
}

/// The hour digits' value.
pub open spec fn spec_hours_of(utc: bool, v: Seq<u8>) -> int {
    two_digit_val(v, spec_date_off(utc) + 4)
}

/// The minute digits' value.
pub open spec fn spec_minutes_of(utc: bool, v: Seq<u8>) -> int {
    two_digit_val(v, spec_date_off(utc) + 6)
}

/// The second digits' value.
pub open spec fn spec_seconds_of(utc: bool, v: Seq<u8>) -> int {
    two_digit_val(v, spec_date_off(utc) + 8)
}

/// Whether `v` starts with a well-formed time body of the given flavor:
/// digits in every digit slot, in-range fields (day of month checked
/// against the leap-aware month length) and the `'Z'` suffix.
pub open spec fn spec_time_fields_ok(utc: bool, v: Seq<u8>) -> bool {
    &&& v.len() >= spec_time_len(utc)
    &&& (forall|i: int| 0 <= i < spec_time_len(utc) - 1 ==> is_digit(#[trigger] v[i]))
    &&& v[spec_time_len(utc) - 1] == 0x5a
    &&& 1 <= spec_month_of(utc, v) <= 12
    &&& 1 <= spec_day_of(utc, v) <= calendar::spec_days_in_month(
        spec_year_of(utc, v),
        spec_month_of(utc, v),
    )
    &&& 0 <= spec_hours_of(utc, v) <= 23
    &&& 0 <= spec_minutes_of(utc, v) <= 59
    &&& 0 <= spec_seconds_of(utc, v) <= 59
}

/// Whether `v` is exactly a well-formed time body whose instant lies in
/// the calendar's supported range.
pub open spec fn spec_time_value_ok(utc: bool, v: Seq<u8>) -> bool {
    &&& spec_time_fields_ok(utc, v)
    &&& calendar::spec_ymdhms_valid(
        spec_year_of(utc, v),
        spec_month_of(utc, v),
        spec_day_of(utc, v),
        spec_hours_of(utc, v),
        spec_minutes_of(utc, v),
        spec_seconds_of(utc, v),
    )
}

/// The instant a well-formed time body denotes, in seconds since the Unix
/// epoch.
pub open spec fn spec_time_value(utc: bool, v: Seq<u8>) -> int {
    calendar::spec_time_seconds(
        spec_year_of(utc, v),
        spec_month_of(utc, v),
        spec_day_of(utc, v),
        spec_hours_of(utc, v),
        spec_minutes_of(utc, v),
        spec_seconds_of(utc, v),
    )
}

fn read_digit(inner: &mut Reader<'_>) -> (res: Result<u64, Error>)
    requires
        old(inner).wf(),
    ensures
        final(inner).wf(),
        final(inner).all_bytes() == old(inner).all_bytes(),
        final(inner).pos_spec() >= old(inner).pos_spec(),
        ({
            let rem = old(inner).remaining();
            if rem.len() > 0 && is_digit(rem[0]) {
                &&& res matches Ok(d) && d == digit_val(rem[0])
                &&& final(inner).remaining() == rem.skip(1)
            } else {
                res matches Err(e) && e == Error::BadDERTime
            }
        }),
{
    let b = match inner.read_byte() {
        Some(b) => b,
        None => {
            return Err(Error::BadDERTime);
        },
    };
    if b < 0x30 || b > 0x39 {
        return Err(Error::BadDERTime);
    }
    Ok((b - 0x30) as u64)
}

fn read_two_digits(inner: &mut Reader<'_>, min: u64, max: u64) -> (res: Result<u64, Error>)
    requires
        old(inner).wf(),
        max <= 99,
    ensures
        final(inner).wf(),
        final(inner).all_bytes() == old(inner).all_bytes(),
        final(inner).pos_spec() >= old(inner).pos_spec(),
        ({
            let rem = old(inner).remaining();
            if rem.len() >= 2 && is_digit(rem[0]) && is_digit(rem[1]) && min <= two_digit_val(
                rem,
                0,
            ) <= max {
                &&& res matches Ok(d) && d == two_digit_val(rem, 0)
                &&& final(inner).remaining() == rem.skip(2)
            } else {
                res matches Err(e) && e == Error::BadDERTime
            }
        }),
{
    let ghost rem = old(inner).remaining();
    let hi = match read_digit(inner) {
        Ok(d) => d,
        Err(e) => {
            return Err(e);
        },
    };
    let lo = match read_digit(inner) {
        Ok(d) => d,
        Err(e) => {
            return Err(e);
        },
    };
    proof {
        assert(inner.remaining() =~= rem.skip(2));
    }
    let value = hi * 10 + lo;
    if value < min || value > max {
        return Err(Error::BadDERTime);
    }
    Ok(value)
}

/// Decodes a UTCTime or GeneralizedTime value, discriminated by the next
/// tag, into an absolute [`Time`].
///
/// A framing failure (wrong tag, bad length, trailing bytes after a fully
/// valid time body) is `BadDER`; every violation of the time grammar
/// itself, including calendar-impossible dates and instants the calendar
/// does not support, is `BadDERTime`.
#[verifier::rlimit(100)]
pub fn time_choice(input: &mut Reader<'_>) -> (res: Result<Time, Error>)
    requires
        old(input).wf(),
    ensures
        final(input).wf(),
        final(input).all_bytes() == old(input).all_bytes(),
        final(input).pos_spec() >= old(input).pos_spec(),
        final(input).remaining() == spec_after_tlv(old(input).remaining()),
        ({
            let rem = old(input).remaining();
            let utc = rem.len() > 0 && rem[0] == Tag::UTCTime.spec_byte();
            let tagb: u8 = if utc {
                Tag::UTCTime.spec_byte()
            } else {
                Tag::GeneralizedTime.spec_byte()
            };
            match tlv_parse(rem) {
                Some(tvc) => {
                    if tvc.0 == tagb {
                        if spec_time_value_ok(utc, tvc.1) {
                            if tvc.1.len() == spec_time_len(utc) {
                                &&& res matches Ok(t) && t.spec_seconds() == spec_time_value(
                                    utc,
                                    tvc.1,
                                )
                                &&& final(input).remaining() == rem.skip(tvc.2)
                            } else {
                                res matches Err(e) && e == Error::BadDER
                            }
                        } else {
                            res matches Err(e) && e == Error::BadDERTime
                        }
                    } else {
                        res matches Err(e) && e == Error::BadDER
                    }
                },
                None => res matches Err(e) && e == Error::BadDER,
            }
        }),
{
    let is_utc_time = input.peek(Tag::UTCTime.byte());
    let expected_tag = if is_utc_time {
        Tag::UTCTime
    } else {
        Tag::GeneralizedTime
    };
    let v = match expect_tag_and_get_value(input, expected_tag) {
        Ok(v) => v,
        Err(e) => {
            return Err(e);
        },
    };
    let ghost utc = is_utc_time;
    let mut value = Reader::new(v);
    let year: u64;
    if is_utc_time {
        let lo = match read_two_digits(&mut value, 0, 99) {
            Ok(d) => d,
            Err(e) => {
                return Err(e);
            },
        };
        let hi: u64 = if lo >= 50 {
            19
        } else {
            20
        };
        year = hi * 100 + lo;
    } else {
        let hi = match read_two_digits(&mut value, 0, 99) {
            Ok(d) => d,
            Err(e) => {
                return Err(e);
            },
        };
        let lo = match read_two_digits(&mut value, 0, 99) {
            Ok(d) => d,
            Err(e) => {
                return Err(e);
            },
        };
        proof {
            assert(value.remaining() =~= v@.skip(4));
        }
        year = hi * 100 + lo;
    }
    proof {
        assert(value.remaining() =~= v@.skip(spec_date_off(utc)));
        assert(year == spec_year_of(utc, v@));
    }
    let month = match read_two_digits(&mut value, 1, 12) {
        Ok(d) => d,
        Err(e) => {
            return Err(e);
        },
    };
    proof {
        assert(value.remaining() =~= v@.skip(spec_date_off(utc) + 2));
    }
    let days_in_month = calendar::days_in_month(year, month);
    let day_of_month = match read_two_digits(&mut value, 1, days_in_month) {
        Ok(d) => d,
        Err(e) => {
            return Err(e);
        },
    };
    proof {
        assert(value.remaining() =~= v@.skip(spec_date_off(utc) + 4));
    }
    let hours = match read_two_digits(&mut value, 0, 23) {
        Ok(d) => d,
        Err(e) => {
            return Err(e);
        },
    };
    proof {
        assert(value.remaining() =~= v@.skip(spec_date_off(utc) + 6));
    }
    let minutes = match read_two_digits(&mut value, 0, 59) {
        Ok(d) => d,
        Err(e) => {
            return Err(e);
        },
    };
    proof {
        assert(value.remaining() =~= v@.skip(spec_date_off(utc) + 8));
    }
    let seconds = match read_two_digits(&mut value, 0, 59) {
        Ok(d) => d,
        Err(e) => {
            return Err(e);
        },
    };
    proof {
        assert(value.remaining() =~= v@.skip(spec_date_off(utc) + 10));
    }
    let time_zone = match value.read_byte() {
        Some(b) => b,
        None => {
            return Err(Error::BadDERTime);
        },
    };
    if time_zone != 0x5a {
        return Err(Error::BadDERTime);
    }
    proof {
        assert(month == spec_month_of(utc, v@));
        assert(day_of_month == spec_day_of(utc, v@));
        assert(hours == spec_hours_of(utc, v@));
        assert(minutes == spec_minutes_of(utc, v@));
        assert(seconds == spec_seconds_of(utc, v@));
        assert(v@[spec_time_len(utc) - 1] == 0x5a);
        assert(spec_time_fields_ok(utc, v@));
    }
    let t = match calendar::time_from_ymdhms_utc(year, month, day_of_month, hours, minutes,
        seconds) {
        Ok(t) => t,
        Err(e) => {
            return Err(e);
        },
    };
    if !value.at_end() {
        return Err(Error::BadDER);
    }
    proof {
        assert(value.remaining() =~= v@.skip(spec_time_len(utc)));
        assert(v@.len() == spec_time_len(utc));
    }
    Ok(t)
}

} // verus!
