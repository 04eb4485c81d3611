use x509_der::der::{
    bit_string_with_no_unused_bits, expect_tag_and_get_value, nested, nested_mut, nested_of_mut,
    optional_boolean, positive_integer, read_tag_and_get_value, small_nonnegative_integer, Tag,
};
use x509_der::reader::Reader;
use x509_der::Error;

#[test]
fn boolean_absent_tag_is_false_and_consumes_nothing() {
    let buf = [0x30u8, 0x00];
    let mut r = Reader::new(&buf);
    assert_eq!(optional_boolean(&mut r), Ok(false));
    // The sequence that follows is still readable: nothing was consumed.
    let tv = read_tag_and_get_value(&mut r).unwrap();
    assert_eq!(tv.0, 0x30);
    assert_eq!(tv.1, &[] as &[u8]);
}

#[test]
fn boolean_true_and_false_payloads() {
    let buf = [0x01u8, 0x01, 0xff];
    let mut r = Reader::new(&buf);
    assert_eq!(optional_boolean(&mut r), Ok(true));

    let buf = [0x01u8, 0x01, 0x00];
    let mut r = Reader::new(&buf);
    assert_eq!(optional_boolean(&mut r), Ok(false));
}

#[test]
fn boolean_other_payload_byte_is_bad_der() {
    let buf = [0x01u8, 0x01, 0x01];
    let mut r = Reader::new(&buf);
    assert_eq!(optional_boolean(&mut r), Err(Error::BadDER));
}

#[test]
fn boolean_wrong_payload_length_is_bad_der() {
    let buf = [0x01u8, 0x00];
    let mut r = Reader::new(&buf);
    assert_eq!(optional_boolean(&mut r), Err(Error::BadDER));

    let buf = [0x01u8, 0x02, 0xff, 0xff];
    let mut r = Reader::new(&buf);
    assert_eq!(optional_boolean(&mut r), Err(Error::BadDER));
}

#[test]
fn read_tag_short_form_length() {
    let buf = [0x04u8, 0x03, 0xaa, 0xbb, 0xcc, 0xdd];
    let mut r = Reader::new(&buf);
    let (tag, value) = read_tag_and_get_value(&mut r).unwrap();
    assert_eq!(tag, 0x04);
    assert_eq!(value, &[0xaa, 0xbb, 0xcc]);
}

#[test]
fn read_tag_long_form_one_byte_length() {
    let mut buf = vec![0x30u8, 0x81, 0x80];
    buf.extend(std::iter::repeat(0x07).take(0x80));
    let mut r = Reader::new(&buf);
    let (tag, value) = read_tag_and_get_value(&mut r).unwrap();
    assert_eq!(tag, 0x30);
    assert_eq!(value.len(), 0x80);
}

#[test]
fn read_tag_long_form_non_minimal_is_bad_der() {
    // 0x81 with a length below 0x80 must use the short form instead.
    let mut buf = vec![0x30u8, 0x81, 0x7f];
    buf.extend(std::iter::repeat(0x07).take(0x7f));
    let mut r = Reader::new(&buf);
    assert_eq!(read_tag_and_get_value(&mut r), Err(Error::BadDER));
}

#[test]
fn read_tag_two_byte_length() {
    let mut buf = vec![0x30u8, 0x82, 0x01, 0x00];
    buf.extend(std::iter::repeat(0x07).take(0x100));
    let mut r = Reader::new(&buf);
    let (_, value) = read_tag_and_get_value(&mut r).unwrap();
    assert_eq!(value.len(), 0x100);

    // A two-byte length below 0x100 is non-minimal.
    let mut buf = vec![0x30u8, 0x82, 0x00, 0xff];
    buf.extend(std::iter::repeat(0x07).take(0xff));
    let mut r = Reader::new(&buf);
    assert_eq!(read_tag_and_get_value(&mut r), Err(Error::BadDER));
}

#[test]
fn read_tag_rejects_high_tag_numbers_and_truncation() {
    let buf = [0x1fu8, 0x01, 0x00];
    let mut r = Reader::new(&buf);
    assert_eq!(read_tag_and_get_value(&mut r), Err(Error::BadDER));

    // Declared length longer than the buffer.
    let buf = [0x30u8, 0x05, 0x01, 0x02];
    let mut r = Reader::new(&buf);
    assert_eq!(read_tag_and_get_value(&mut r), Err(Error::BadDER));

    let buf: [u8; 0] = [];
    let mut r = Reader::new(&buf);
    assert_eq!(read_tag_and_get_value(&mut r), Err(Error::BadDER));
}

#[test]
fn expect_tag_rejects_other_tags() {
    let buf = [0x30u8, 0x00];
    let mut r = Reader::new(&buf);
    assert_eq!(
        expect_tag_and_get_value(&mut r, Tag::Integer),
        Err(Error::BadDER)
    );

    let buf = [0x30u8, 0x00];
    let mut r = Reader::new(&buf);
    assert_eq!(expect_tag_and_get_value(&mut r, Tag::Sequence), Ok(&[] as &[u8]));
}

#[test]
fn positive_integer_accepts_minimal_positive_values() {
    let buf = [0x02u8, 0x01, 0x01];
    let mut r = Reader::new(&buf);
    assert_eq!(positive_integer(&mut r), Ok(&[0x01u8] as &[u8]));

    // A leading zero is stripped when the high bit of the next byte is set.
    let buf = [0x02u8, 0x02, 0x00, 0x85];
    let mut r = Reader::new(&buf);
    assert_eq!(positive_integer(&mut r), Ok(&[0x85u8] as &[u8]));
}

#[test]
fn positive_integer_rejects_zero_negative_and_non_minimal() {
    for content in [
        &[0x02u8, 0x01, 0x00] as &[u8], // zero
        &[0x02, 0x01, 0x80],            // negative
        &[0x02, 0x02, 0x00, 0x01],      // non-minimal leading zero
        &[0x02, 0x00],                  // empty
    ] {
        let mut r = Reader::new(content);
        assert_eq!(positive_integer(&mut r), Err(Error::BadDER));
    }
}

#[test]
fn small_nonnegative_integer_full_range() {
    let cases: [(&[u8], u8); 4] = [
        (&[0x02, 0x01, 0x00], 0),
        (&[0x02, 0x01, 0x7f], 127),
        (&[0x02, 0x02, 0x00, 0x80], 128),
        (&[0x02, 0x02, 0x00, 0xff], 255),
    ];
    for (content, expected) in cases {
        let mut r = Reader::new(content);
        assert_eq!(small_nonnegative_integer(&mut r), Ok(expected));
    }
}

#[test]
fn small_nonnegative_integer_rejects_wide_values() {
    for content in [
        &[0x02u8, 0x01, 0x80] as &[u8], // negative
        &[0x02, 0x02, 0x01, 0x02],      // two bytes without leading zero
        &[0x02, 0x02, 0x00, 0x01],      // non-minimal
        &[0x02, 0x00],                  // empty
    ] {
        let mut r = Reader::new(content);
        assert_eq!(small_nonnegative_integer(&mut r), Err(Error::BadDER));
    }
}

#[test]
fn bit_string_strips_zero_unused_bits_byte() {
    let buf = [0x03u8, 0x03, 0x00, 0xaa, 0xbb];
    let mut r = Reader::new(&buf);
    assert_eq!(
        bit_string_with_no_unused_bits(&mut r),
        Ok(&[0xaau8, 0xbb] as &[u8])
    );
}

#[test]
fn bit_string_rejects_unused_bits_and_empty_value() {
    let buf = [0x03u8, 0x03, 0x01, 0xaa, 0xbb];
    let mut r = Reader::new(&buf);
    assert_eq!(bit_string_with_no_unused_bits(&mut r), Err(Error::BadDER));

    let buf = [0x03u8, 0x00];
    let mut r = Reader::new(&buf);
    assert_eq!(bit_string_with_no_unused_bits(&mut r), Err(Error::BadDER));
}

#[test]
fn nested_rejects_trailing_byte_after_inner_content() {
    // A Sequence whose inner content is fully parsed but leaves one extra
    // byte must fail, never silently ignore the byte.
    let buf = [0x30u8, 0x02, 0x05, 0x07];
    let mut r = Reader::new(&buf);
    let res: Result<u8, Error> = nested(&mut r, Tag::Sequence, Error::BadDER, |mut inner| {
        let b = inner.read_byte().ok_or(Error::BadDER)?;
        Ok((b, inner))
    });
    assert_eq!(res, Err(Error::BadDER));
}

#[test]
fn nested_accepts_exactly_consumed_content() {
    let buf = [0x30u8, 0x01, 0x05];
    let mut r = Reader::new(&buf);
    let res: Result<u8, Error> = nested(&mut r, Tag::Sequence, Error::BadDER, |mut inner| {
        let b = inner.read_byte().ok_or(Error::BadDER)?;
        Ok((b, inner))
    });
    assert_eq!(res, Ok(0x05));
}

#[test]
fn nested_mut_behaves_like_nested() {
    let buf = [0x30u8, 0x02, 0x05, 0x07];
    let mut r = Reader::new(&buf);
    let mut seen = Vec::new();
    let res: Result<(), Error> = nested_mut(&mut r, Tag::Sequence, Error::BadDER, |mut inner| {
        seen.push(inner.read_byte().ok_or(Error::BadDER)?);
        seen.push(inner.read_byte().ok_or(Error::BadDER)?);
        Ok(((), inner))
    });
    assert_eq!(res, Ok(()));
    assert_eq!(seen, vec![0x05, 0x07]);
}

#[test]
fn nested_of_mut_walks_every_inner_element() {
    // SEQUENCE of three INTEGERs.
    let buf = [
        0x30u8, 0x09, 0x02, 0x01, 0x01, 0x02, 0x01, 0x02, 0x02, 0x01, 0x03,
    ];
    let mut r = Reader::new(&buf);
    let res = nested_of_mut(&mut r, Tag::Sequence, Tag::Integer, Error::BadDER, |mut inner| {
        inner.read_byte().ok_or(Error::BadDER)?;
        Ok(inner)
    });
    assert_eq!(res, Ok(()));
}

#[test]
fn nested_of_mut_rejects_leftover_inner_content() {
    // The decoder reads one byte of a two-byte inner value: the leftover
    // byte must fail the whole decode.
    let buf = [0x30u8, 0x04, 0x02, 0x02, 0x01, 0x02];
    let mut r = Reader::new(&buf);
    let res = nested_of_mut(&mut r, Tag::Sequence, Tag::Integer, Error::BadDER, |mut inner| {
        inner.read_byte().ok_or(Error::BadDER)?;
        Ok(inner)
    });
    assert_eq!(res, Err(Error::BadDER));
}

#[test]
fn nested_of_mut_requires_at_least_one_element() {
    let buf = [0x30u8, 0x00];
    let mut r = Reader::new(&buf);
    let res = nested_of_mut(&mut r, Tag::Sequence, Tag::Integer, Error::BadDER, |inner| {
        Ok(inner)
    });
    assert_eq!(res, Err(Error::BadDER));
}

#[test]
fn tag_bytes_match_their_encodings() {
    assert_eq!(Tag::Boolean.byte(), 0x01);
    assert_eq!(Tag::Integer.byte(), 0x02);
    assert_eq!(Tag::BitString.byte(), 0x03);
    assert_eq!(Tag::OID.byte(), 0x06);
    assert_eq!(Tag::UTF8String.byte(), 0x0c);
    assert_eq!(Tag::PrintableString.byte(), 0x13);
    assert_eq!(Tag::TeletexString.byte(), 0x14);
    assert_eq!(Tag::UTCTime.byte(), 0x17);
    assert_eq!(Tag::GeneralizedTime.byte(), 0x18);
    assert_eq!(Tag::Sequence.byte(), 0x30);
    assert_eq!(Tag::SetOf.byte(), 0x31);
}
