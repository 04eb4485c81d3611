use x509_der::name::{parse_alt_name, parse_directory_string, parse_name};
use x509_der::oid::parse_oid;
use x509_der::reader::Reader;
use x509_der::Error;

fn tlv(tag: u8, value: &[u8]) -> Vec<u8> {
    assert!(value.len() < 0x80);
    let mut buf = vec![tag, value.len() as u8];
    buf.extend_from_slice(value);
    buf
}

/// One RDN: SET { SEQUENCE { OID, PrintableString } }.
fn rdn(oid: &[u8], value: &[u8]) -> Vec<u8> {
    let mut seq_content = tlv(0x06, oid);
    seq_content.extend(tlv(0x13, value));
    tlv(0x31, &tlv(0x30, &seq_content))
}

#[test]
fn oid_decodes_sha256_with_rsa() {
    let buf = tlv(
        0x06,
        &[0x2a, 0x86, 0x48, 0x86, 0xf7, 0x0d, 0x01, 0x01, 0x0b],
    );
    let mut r = Reader::new(&buf);
    assert_eq!(parse_oid(&mut r), Ok("1.2.840.113549.1.1.11".to_string()));
}

#[test]
fn oid_decodes_common_name_attribute() {
    let buf = tlv(0x06, &[0x55, 0x04, 0x03]);
    let mut r = Reader::new(&buf);
    assert_eq!(parse_oid(&mut r), Ok("2.5.4.3".to_string()));
}

#[test]
fn oid_first_byte_splits_into_two_arcs() {
    let buf = tlv(0x06, &[0x2a]);
    let mut r = Reader::new(&buf);
    assert_eq!(parse_oid(&mut r), Ok("1.2".to_string()));
}

#[test]
fn oid_rejects_empty_value_and_trailing_continuation() {
    let buf = tlv(0x06, &[]);
    let mut r = Reader::new(&buf);
    assert_eq!(parse_oid(&mut r), Err(Error::BadDER));

    // The value ends in the middle of a varint.
    let buf = tlv(0x06, &[0x55, 0x86]);
    let mut r = Reader::new(&buf);
    assert_eq!(parse_oid(&mut r), Err(Error::BadDER));
}

#[test]
fn oid_rejects_arcs_beyond_64_bits() {
    // Ten 0xff continuation bytes then a terminator encode an arc far
    // beyond what 64-bit accumulation can hold.
    let buf = tlv(
        0x06,
        &[0x2a, 0xff, 0xff, 0xff, 0xff, 0xff, 0xff, 0xff, 0xff, 0xff, 0xff, 0x7f],
    );
    let mut r = Reader::new(&buf);
    assert_eq!(parse_oid(&mut r), Err(Error::BadDER));
}

#[test]
fn oid_wrong_tag_is_bad_der() {
    let buf = tlv(0x04, &[0x55, 0x04, 0x03]);
    let mut r = Reader::new(&buf);
    assert_eq!(parse_oid(&mut r), Err(Error::BadDER));
}

#[test]
fn directory_string_decodes_utf8_under_any_tag() {
    let buf = tlv(0x13, b"abc");
    let mut r = Reader::new(&buf);
    assert_eq!(parse_directory_string(&mut r), Ok("abc".to_string()));

    let buf = tlv(0x0c, "zü".as_bytes());
    let mut r = Reader::new(&buf);
    assert_eq!(parse_directory_string(&mut r), Ok("zü".to_string()));
}

#[test]
fn directory_string_rejects_invalid_utf8() {
    let buf = tlv(0x13, &[0xff, 0xfe]);
    let mut r = Reader::new(&buf);
    assert_eq!(parse_directory_string(&mut r), Err(Error::BadDER));
}

#[test]
fn name_with_common_name_fills_only_that_slot() {
    let buf = rdn(&[0x55, 0x04, 0x03], b"example.com");
    let mut r = Reader::new(&buf);
    let name = parse_name(&mut r).unwrap();
    assert_eq!(name.common_name, Some("example.com".to_string()));
    assert_eq!(name.country_name, None);
    assert_eq!(name.locality_name, None);
    assert_eq!(name.state_or_province_name, None);
    assert_eq!(name.organization_name, None);
    assert_eq!(name.organizational_unit_name, None);
    assert_eq!(name.extra, None);
}

#[test]
fn name_fills_every_recognized_attribute() {
    let mut buf = rdn(&[0x55, 0x04, 0x03], b"host");
    buf.extend(rdn(&[0x55, 0x04, 0x06], b"NL"));
    buf.extend(rdn(&[0x55, 0x04, 0x07], b"Delft"));
    buf.extend(rdn(&[0x55, 0x04, 0x08], b"ZH"));
    buf.extend(rdn(&[0x55, 0x04, 0x0a], b"Acme"));
    buf.extend(rdn(&[0x55, 0x04, 0x0b], b"Ops"));
    let mut r = Reader::new(&buf);
    let name = parse_name(&mut r).unwrap();
    assert_eq!(name.common_name, Some("host".to_string()));
    assert_eq!(name.country_name, Some("NL".to_string()));
    assert_eq!(name.locality_name, Some("Delft".to_string()));
    assert_eq!(name.state_or_province_name, Some("ZH".to_string()));
    assert_eq!(name.organization_name, Some("Acme".to_string()));
    assert_eq!(name.organizational_unit_name, Some("Ops".to_string()));
    assert_eq!(name.extra, None);
}

#[test]
fn last_unrecognized_attribute_wins() {
    // 2.5.4.5 then 2.5.4.9: only the later OID survives in `extra`,
    // the earlier one is discarded. This is the documented behavior.
    let mut buf = rdn(&[0x55, 0x04, 0x05], b"12345");
    buf.extend(rdn(&[0x55, 0x04, 0x09], b"street"));
    let mut r = Reader::new(&buf);
    let name = parse_name(&mut r).unwrap();
    assert_eq!(name.extra, Some("2.5.4.9".to_string()));
    assert_eq!(name.common_name, None);
}

#[test]
fn unrecognized_attribute_keeps_recognized_slots() {
    let mut buf = rdn(&[0x55, 0x04, 0x03], b"example.com");
    buf.extend(rdn(&[0x55, 0x04, 0x05], b"12345"));
    let mut r = Reader::new(&buf);
    let name = parse_name(&mut r).unwrap();
    assert_eq!(name.common_name, Some("example.com".to_string()));
    assert_eq!(name.extra, Some("2.5.4.5".to_string()));
}

#[test]
fn name_on_empty_input_is_all_absent() {
    let buf: [u8; 0] = [];
    let mut r = Reader::new(&buf);
    let name = parse_name(&mut r).unwrap();
    assert_eq!(name.common_name, None);
    assert_eq!(name.extra, None);
}

#[test]
fn name_stops_quietly_at_a_component_that_is_no_rdn() {
    let mut buf = rdn(&[0x55, 0x04, 0x03], b"example.com");
    buf.extend(tlv(0x02, &[0x01]));
    let mut r = Reader::new(&buf);
    let name = parse_name(&mut r).unwrap();
    assert_eq!(name.common_name, Some("example.com".to_string()));
    assert_eq!(name.extra, None);
}

#[test]
fn trailing_bytes_inside_the_set_are_tolerated() {
    // The SET is framed but only its leading SEQUENCE is read; a stray
    // byte after the SEQUENCE does not end the decode.
    let mut seq_content = tlv(0x06, &[0x55, 0x04, 0x03]);
    seq_content.extend(tlv(0x13, b"example.com"));
    let mut set_content = tlv(0x30, &seq_content);
    set_content.push(0x00);
    let buf = tlv(0x31, &set_content);
    let mut r = Reader::new(&buf);
    let name = parse_name(&mut r).unwrap();
    assert_eq!(name.common_name, Some("example.com".to_string()));
}

#[test]
fn extra_element_inside_the_sequence_ends_the_loop() {
    // The SEQUENCE must hold exactly the OID and the string; a third
    // element makes the component no RDN, which ends decoding quietly.
    let mut buf = rdn(&[0x55, 0x04, 0x03], b"example.com");
    let mut seq_content = tlv(0x06, &[0x55, 0x04, 0x06]);
    seq_content.extend(tlv(0x13, b"NL"));
    seq_content.extend(tlv(0x02, &[0x01]));
    buf.extend(tlv(0x31, &tlv(0x30, &seq_content)));
    let mut r = Reader::new(&buf);
    let name = parse_name(&mut r).unwrap();
    assert_eq!(name.common_name, Some("example.com".to_string()));
    assert_eq!(name.country_name, None);
}

#[test]
fn alt_name_on_empty_input_is_an_empty_list() {
    let buf: [u8; 0] = [];
    let mut r = Reader::new(&buf);
    assert_eq!(parse_alt_name(&mut r), Ok(vec![]));
}

#[test]
fn alt_name_collects_values_in_encounter_order() {
    let mut buf = tlv(0x82, b"a.example");
    buf.extend(tlv(0x82, b"b.example"));
    buf.extend(tlv(0x82, b"a.example"));
    let mut r = Reader::new(&buf);
    assert_eq!(
        parse_alt_name(&mut r),
        Ok(vec![
            "a.example".to_string(),
            "b.example".to_string(),
            "a.example".to_string(),
        ])
    );
}

#[test]
fn alt_name_fails_whole_decode_on_late_invalid_utf8() {
    let mut buf = tlv(0x82, b"a.example");
    buf.extend(tlv(0x82, &[0xff, 0xfe]));
    let mut r = Reader::new(&buf);
    assert_eq!(parse_alt_name(&mut r), Err(Error::BadDER));
}
