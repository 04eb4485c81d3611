//! Tag/length framing and the primitive DER decoders.
//!
//! The grammar accepted here is the canonical DER subset: a one-byte tag
//! (high tag numbers are rejected), a minimally encoded short- or long-form
//! length of at most two length bytes, and exactly that many value bytes.
//! [`tlv_parse`] is the single specification of that framing; every framing
//! function is proved against it.

use vstd::prelude::*;
use vstd::slice::{slice_index_get, slice_subrange};

use crate::reader::Reader;
use crate::Error;

verus! {

/// The closed set of ASN.1 tags this decoder recognizes. An unrecognized
/// tag in the input is a framing error, never a new variant.
#[derive(Clone, Copy, Debug, PartialEq, Eq, Structural)]
pub enum Tag {
    Boolean,
    Integer,
    BitString,
    OID,
    UTF8String,
    PrintableString,
    TeletexString,
    UTCTime,
    GeneralizedTime,
    Sequence,
    SetOf,
}

impl Tag {
    /// The identifier octet that encodes this tag.
    pub open spec fn spec_byte(self) -> u8 {
        match self {
            Tag::Boolean => 0x01,
            Tag::Integer => 0x02,
            Tag::BitString => 0x03,
            Tag::OID => 0x06,
            Tag::UTF8String => 0x0c,
            Tag::PrintableString => 0x13,
            Tag::TeletexString => 0x14,
            Tag::UTCTime => 0x17,
            Tag::GeneralizedTime => 0x18,
            Tag::Sequence => 0x30,
            Tag::SetOf => 0x31,
        }
    }

    /// The identifier octet that encodes this tag.
    #[verifier::when_used_as_spec(spec_byte)]
    pub fn byte(self) -> (r: u8)
        ensures
            r == self.spec_byte(),
    {
        match self {
            Tag::Boolean => 0x01,
            Tag::Integer => 0x02,
            Tag::BitString => 0x03,
            Tag::OID => 0x06,
            Tag::UTF8String => 0x0c,
            Tag::PrintableString => 0x13,
            Tag::TeletexString => 0x14,
            Tag::UTCTime => 0x17,
            Tag::GeneralizedTime => 0x18,
            Tag::Sequence => 0x30,
            Tag::SetOf => 0x31,
        }
    }
}

/// The DER tag-length-value grammar at the head of `s`: the observed tag
/// octet, the value bytes, and how many bytes of `s` the whole element
/// occupies, or `None` when `s` does not start with a well-formed element.
///
/// Lengths must be minimal: the short form below 0x80, `0x81` only for
/// lengths of at least 0x80, `0x82` only for lengths of at least 0x100,
/// and nothing longer.
pub open spec fn tlv_parse(s: Seq<u8>) -> Option<(u8, Seq<u8>, int)> {
    if s.len() < 2 {
        None
    } else {
        let tag = s[0];
        if tag & 0x1f == 0x1f {
            None
        } else {
            let l0 = s[1];
            if l0 < 0x80 {
                let n = l0 as int;
                if s.len() >= 2 + n {
                    Some((tag, s.subrange(2, 2 + n), 2 + n))
                } else {
                    None
                }
            } else if l0 == 0x81 {
                if s.len() >= 3 {
                    let n = s[2] as int;
                    if n >= 0x80 && s.len() >= 3 + n {
                        Some((tag, s.subrange(3, 3 + n), 3 + n))
                    } else {
                        None
                    }
                } else {
                    None
                }
            } else if l0 == 0x82 {
                if s.len() >= 4 {
                    let n = (s[2] as int) * 256 + (s[3] as int);
                    if n >= 256 && s.len() >= 4 + n {
                        Some((tag, s.subrange(4, 4 + n), 4 + n))
                    } else {
                        None
                    }
                } else {
                    None
                }
            } else {
                None
            }
        }
    }
}

/// How many bytes the framing reader consumes before it gives up on a
/// malformed element: the tag octet and as much of the length as could be
/// read. With [`tlv_parse`] this pins the cursor's position after every
/// call, successful or not, so decoding is deterministic down to the
/// offset.
pub open spec fn spec_tlv_err_len(s: Seq<u8>) -> int {
    if s.len() == 0 {
        0
    } else if s[0] & 0x1f == 0x1f || s.len() == 1 {
        1
    } else {
        let l0 = s[1];
        if l0 < 0x80 {
            2
        } else if l0 == 0x81 {
            if s.len() >= 3 {
                3
            } else {
                2
            }
        } else if l0 == 0x82 {
            if s.len() >= 4 {
                4
            } else if s.len() == 3 {
                3
            } else {
                2
            }
        } else {
            2
        }
    }
}

/// Where the cursor stands after one framing attempt on `s`: past the
/// whole element when `s` starts with one, else past the bytes
/// [`spec_tlv_err_len`] counts.
pub open spec fn spec_after_tlv(s: Seq<u8>) -> Seq<u8> {
    match tlv_parse(s) {
        Some(tvc) => s.skip(tvc.2),
        None => s.skip(spec_tlv_err_len(s)),
    }
}

/// Reads one tag octet and a DER length and returns the observed tag with
/// the value bytes, for callers that must discriminate on the tag.
pub fn read_tag_and_get_value<'a>(input: &mut Reader<'a>) -> (res: Result<(u8, &'a [u8]), Error>)
    requires
        old(input).wf(),
    ensures
        final(input).wf(),
        final(input).all_bytes() == old(input).all_bytes(),
        final(input).pos_spec() >= old(input).pos_spec(),
        final(input).remaining() == spec_after_tlv(old(input).remaining()),
        match tlv_parse(old(input).remaining()) {
            Some(tvc) => res matches Ok(tv) && tv.0 == tvc.0 && tv.1@ == tvc.1,
            None => res matches Err(e) && e == Error::BadDER,
        },
{
    let ghost rem = old(input).remaining();
    let tag = match input.read_byte() {
        Some(b) => b,
        None => {
            return Err(Error::BadDER);
        },
    };
    if tag & 0x1f == 0x1f {
        return Err(Error::BadDER);
    }
    let l0 = match input.read_byte() {
        Some(b) => b,
        None => {
            return Err(Error::BadDER);
        },
    };
    proof {
        assert(input.remaining() =~= rem.skip(2));
    }
    let ghost header: int = 2;
    let length: usize = if l0 < 0x80 {
        l0 as usize
    } else if l0 == 0x81 {
        let b = match input.read_byte() {
            Some(b) => b,
            None => {
                return Err(Error::BadDER);
            },
        };
        proof {
            assert(input.remaining() =~= rem.skip(3));
        }
        if b < 0x80 {
            return Err(Error::BadDER);
        }
        proof {
            header = 3;
        }
        b as usize
    } else if l0 == 0x82 {
        let b1 = match input.read_byte() {
            Some(b) => b,
            None => {
                return Err(Error::BadDER);
            },
        };
        proof {
            assert(input.remaining() =~= rem.skip(3));
        }
        let b2 = match input.read_byte() {
            Some(b) => b,
            None => {
                return Err(Error::BadDER);
            },
        };
        proof {
            assert(input.remaining() =~= rem.skip(4));
        }
        let combined: usize = (b1 as usize) * 256 + (b2 as usize);
        if combined < 256 {
            return Err(Error::BadDER);
        }
        proof {
            header = 4;
        }
        combined
    } else {
        return Err(Error::BadDER);
    };
    proof {
        assert(input.remaining() =~= rem.skip(header));
    }
    match input.skip_and_get_input(length) {
        Some(v) => {
            proof {
                assert(v@ =~= rem.subrange(header, header + length));
                assert(input.remaining() =~= rem.skip(header + length));
            }
            Ok((tag, v))
        },
        None => Err(Error::BadDER),
    }
}

/// Reads one element and fails with `BadDER` unless its tag octet is
/// exactly `tag`; returns the value bytes.
pub fn expect_tag_and_get_value<'a>(input: &mut Reader<'a>, tag: Tag) -> (res: Result<
    &'a [u8],
    Error,
>)
    requires
        old(input).wf(),
    ensures
        final(input).wf(),
        final(input).all_bytes() == old(input).all_bytes(),
        final(input).pos_spec() >= old(input).pos_spec(),
        final(input).remaining() == spec_after_tlv(old(input).remaining()),
        match tlv_parse(old(input).remaining()) {
            Some(tvc) => {
                if tvc.0 == tag.spec_byte() {
                    &&& res matches Ok(v) && v@ == tvc.1
                    &&& final(input).remaining() == old(input).remaining().skip(tvc.2)
                } else {
                    res matches Err(e) && e == Error::BadDER
                }
            },
            None => res matches Err(e) && e == Error::BadDER,
        },
{
    match read_tag_and_get_value(input) {
        Ok((actual, v)) => {
            if actual == tag.byte() {
                Ok(v)
            } else {
                Err(Error::BadDER)
            }
        },
        Err(e) => Err(e),
    }
}

/// The payload a DER Boolean value must carry for `true`.
pub open spec fn spec_boolean_true() -> Seq<u8> {
    seq![0xffu8]
}

/// The payload a DER Boolean value must carry for `false`.
pub open spec fn spec_boolean_false() -> Seq<u8> {
    seq![0x00u8]
}

/// Decodes an optional DER Boolean with DEFAULT FALSE semantics: when the
/// next tag is not Boolean, returns `false` without consuming anything;
/// otherwise accepts exactly the payloads `0xff` (true) and `0x00` (false).
///
/// Accepting the explicitly encoded default value `0x00` is a deliberate
/// compatibility relaxation: strict DER would omit it, but real-world
/// certificates carry it, and both encodings mean `false`.
pub fn optional_boolean(input: &mut Reader<'_>) -> (res: Result<bool, Error>)
    requires
        old(input).wf(),
    ensures
        final(input).wf(),
        final(input).all_bytes() == old(input).all_bytes(),
        final(input).pos_spec() >= old(input).pos_spec(),
        (old(input).remaining().len() > 0 && old(input).remaining()[0]
            == Tag::Boolean.spec_byte()) ==> final(input).remaining() == spec_after_tlv(
            old(input).remaining(),
        ),
        ({
            let rem = old(input).remaining();
            if rem.len() == 0 || rem[0] != Tag::Boolean.spec_byte() {
                res matches Ok(b) && b == false && *final(input) == *old(input)
            } else {
                match tlv_parse(rem) {
                    Some(tvc) => {
                        if tvc.1 == spec_boolean_true() {
                            &&& res matches Ok(b) && b == true
                            &&& final(input).remaining() == rem.skip(tvc.2)
                        } else if tvc.1 == spec_boolean_false() {
                            &&& res matches Ok(b) && b == false
                            &&& final(input).remaining() == rem.skip(tvc.2)
                        } else {
                            res matches Err(e) && e == Error::BadDER
                        }
                    },
                    None => res matches Err(e) && e == Error::BadDER,
                }
            }
        }),
{
    if !input.peek(Tag::Boolean.byte()) {
        return Ok(false);
    }
    let v = match expect_tag_and_get_value(input, Tag::Boolean) {
        Ok(v) => v,
        Err(e) => {
            return Err(e);
        },
    };
    if v.len() != 1 {
        proof {
            if v@ == spec_boolean_true() {
                assert(v@.len() == 1);
            }
            if v@ == spec_boolean_false() {
                assert(v@.len() == 1);
            }
        }
        return Err(Error::BadDER);
    }
    let b = *slice_index_get(v, 0);
    if b == 0xff {
        proof {
            assert(v@ =~= spec_boolean_true());
        }
        Ok(true)
    } else if b == 0x00 {
        proof {
            assert(v@ =~= spec_boolean_false());
        }
        Ok(false)
    } else {
        proof {
            if v@ == spec_boolean_true() {
                assert(v@[0] == 0xff);
            }
            if v@ == spec_boolean_false() {
                assert(v@[0] == 0x00);
            }
        }
        Err(Error::BadDER)
    }
}

/// The bytes a well-formed DER INTEGER value must denote to be accepted as
/// a positive integer: non-empty, minimal (a leading zero only when the
/// following byte has its high bit set), non-negative and non-zero. The
/// result is the value with any single leading zero removed.
pub open spec fn spec_positive_integer(v: Seq<u8>) -> Option<Seq<u8>> {
    if v.len() == 0 {
        None
    } else if v[0] == 0 {
        if v.len() >= 2 && v[1] >= 0x80 {
            Some(v.skip(1))
        } else {
            None
        }
    } else if v[0] < 0x80 {
        Some(v)
    } else {
        None
    }
}

/// Decodes a DER INTEGER as the big-endian bytes of a positive integer of
/// unbounded width, rejecting zero, negative values and non-minimal
/// encodings.
pub fn positive_integer<'a>(input: &mut Reader<'a>) -> (res: Result<&'a [u8], Error>)
    requires
        old(input).wf(),
    ensures
        final(input).wf(),
        final(input).all_bytes() == old(input).all_bytes(),
        final(input).pos_spec() >= old(input).pos_spec(),
        final(input).remaining() == spec_after_tlv(old(input).remaining()),
        match tlv_parse(old(input).remaining()) {
            Some(tvc) => {
                if tvc.0 == Tag::Integer.spec_byte() {
                    match spec_positive_integer(tvc.1) {
                        Some(out) => {
                            &&& res matches Ok(r) && r@ == out
                            &&& final(input).remaining() == old(input).remaining().skip(tvc.2)
                        },
                        None => res matches Err(e) && e == Error::BadDER,
                    }
                } else {
                    res matches Err(e) && e == Error::BadDER
                }
            },
            None => res matches Err(e) && e == Error::BadDER,
        },
{
    let v = match expect_tag_and_get_value(input, Tag::Integer) {
        Ok(v) => v,
        Err(e) => {
            return Err(e);
        },
    };
    if v.len() == 0 {
        return Err(Error::BadDER);
    }
    let b0 = *slice_index_get(v, 0);
    if b0 == 0 {
        if v.len() >= 2 && *slice_index_get(v, 1) >= 0x80 {
            let out = slice_subrange(v, 1, v.len());
            proof {
                assert(out@ =~= v@.skip(1));
            }
            Ok(out)
        } else {
            Err(Error::BadDER)
        }
    } else if b0 < 0x80 {
        Ok(v)
    } else {
        Err(Error::BadDER)
    }
}

/// The one-byte value a DER INTEGER must denote to be accepted as a small
/// non-negative integer: either a single byte below 0x80, or a zero byte
/// followed by one byte with its high bit set.
pub open spec fn spec_small_nonnegative_integer(v: Seq<u8>) -> Option<u8> {
    if v.len() == 1 && v[0] < 0x80 {
        Some(v[0])
    } else if v.len() == 2 && v[0] == 0 && v[1] >= 0x80 {
        Some(v[1])
    } else {
        None
    }
}

/// Decodes a DER INTEGER that must fit one byte (0 through 255), used for
/// version-like fields; zero is allowed.
pub fn small_nonnegative_integer(input: &mut Reader<'_>) -> (res: Result<u8, Error>)
    requires
        old(input).wf(),
    ensures
        final(input).wf(),
        final(input).all_bytes() == old(input).all_bytes(),
        final(input).pos_spec() >= old(input).pos_spec(),
        final(input).remaining() == spec_after_tlv(old(input).remaining()),
        match tlv_parse(old(input).remaining()) {
            Some(tvc) => {
                if tvc.0 == Tag::Integer.spec_byte() {
                    match spec_small_nonnegative_integer(tvc.1) {
                        Some(out) => {
                            &&& res matches Ok(r) && r == out
                            &&& final(input).remaining() == old(input).remaining().skip(tvc.2)
                        },
                        None => res matches Err(e) && e == Error::BadDER,
                    }
                } else {
                    res matches Err(e) && e == Error::BadDER
                }
            },
            None => res matches Err(e) && e == Error::BadDER,
        },
{
    let v = match expect_tag_and_get_value(input, Tag::Integer) {
        Ok(v) => v,
        Err(e) => {
            return Err(e);
        },
    };
    if v.len() == 1 {
        let b = *slice_index_get(v, 0);
        if b < 0x80 {
            Ok(b)
        } else {
            Err(Error::BadDER)
        }
    } else if v.len() == 2 {
        let b0 = *slice_index_get(v, 0);
        let b1 = *slice_index_get(v, 1);
        if b0 == 0 && b1 >= 0x80 {
            Ok(b1)
        } else {
            Err(Error::BadDER)
        }
    } else {
        Err(Error::BadDER)
    }
}

/// Decodes a DER BIT STRING whose "unused bits" count must be zero and
/// returns the literal bit-string payload after that count byte.
pub fn bit_string_with_no_unused_bits<'a>(input: &mut Reader<'a>) -> (res: Result<
    &'a [u8],
    Error,
>)
    requires
        old(input).wf(),
    ensures
        final(input).wf(),
        final(input).all_bytes() == old(input).all_bytes(),
        final(input).pos_spec() >= old(input).pos_spec(),
        final(input).remaining() == spec_after_tlv(old(input).remaining()),
        match tlv_parse(old(input).remaining()) {
            Some(tvc) => {
                if tvc.0 == Tag::BitString.spec_byte() && tvc.1.len() >= 1 && tvc.1[0] == 0 {
                    &&& res matches Ok(r) && r@ == tvc.1.skip(1)
                    &&& final(input).remaining() == old(input).remaining().skip(tvc.2)
                } else {
                    res matches Err(e) && e == Error::BadDER
                }
            },
            None => res matches Err(e) && e == Error::BadDER,
        },
{
    let v = match expect_tag_and_get_value(input, Tag::BitString) {
        Ok(v) => v,
        Err(e) => {
            return Err(e);
        },
    };
    let mut value = Reader::new(v);
    let unused_bits_at_end = match value.read_byte() {
        Some(b) => b,
        None => {
            return Err(Error::BadDER);
        },
    };
    if unused_bits_at_end != 0 {
        return Err(Error::BadDER);
    }
    let rest = value.skip_to_end();
    proof {
        assert(rest@ =~= v@.skip(1));
    }
    Ok(rest)
}

/// Whether `decoder`, run on a fresh cursor over `v`, can return `x` with
/// the cursor at the exact end of `v`.
pub open spec fn spec_decoded_all<'a, R, E, F: FnOnce(Reader<'a>) -> Result<(R, Reader<'a>), E>>(
    decoder: F,
    v: Seq<u8>,
    x: R,
) -> bool {
    exists|r1: Reader<'a>, r2: Reader<'a>|
        {
            &&& r1.wf() && r1.pos_spec() == 0 && r1.all_bytes() == v
            &&& #[trigger] call_ensures(decoder, (r1,), Ok::<(R, Reader<'a>), E>((x, r2)))
            &&& r2.pos_spec() == r2.all_bytes().len()
        }
}

/// Whether `decoder`, run on a fresh cursor over `v`, can fail with `e`.
pub open spec fn spec_decoder_failed<'a, R, E, F: FnOnce(Reader<'a>) -> Result<(R, Reader<'a>), E>>(
    decoder: F,
    v: Seq<u8>,
    e: E,
) -> bool {
    exists|r1: Reader<'a>|
        {
            &&& r1.wf() && r1.pos_spec() == 0 && r1.all_bytes() == v
            &&& #[trigger] call_ensures(decoder, (r1,), Err::<(R, Reader<'a>), E>(e))
        }
}

/// Frames an element of the given tag and runs `decoder` on a fresh cursor
/// over its value; the decoder must consume that value to its exact end,
/// or the element is rejected with `error`. This read-all discipline is
/// the core anti-ambiguity invariant of DER: nested content is exactly as
/// long as declared, never more, never less.
///
/// A framing failure or unconsumed trailing content yields `error`; an
/// error of the decoder itself passes through unchanged.
pub fn nested<'a, R, E: Copy, F: FnOnce(Reader<'a>) -> Result<(R, Reader<'a>), E>>(
    input: &mut Reader<'a>,
    tag: Tag,
    error: E,
    decoder: F,
) -> (res: Result<R, E>)
    requires
        old(input).wf(),
        forall|r: Reader<'a>| r.wf() ==> call_requires(decoder, (r,)),
    ensures
        final(input).wf(),
        final(input).all_bytes() == old(input).all_bytes(),
        final(input).pos_spec() >= old(input).pos_spec(),
        final(input).remaining() == spec_after_tlv(old(input).remaining()),
        match tlv_parse(old(input).remaining()) {
            Some(tvc) => {
                if tvc.0 == tag.spec_byte() {
                    &&& (res matches Ok(x) ==> {
                        &&& spec_decoded_all(decoder, tvc.1, x)
                        &&& final(input).remaining() == old(input).remaining().skip(tvc.2)
                    })
                    &&& (res matches Err(e) ==> (e == error || spec_decoder_failed(
                        decoder,
                        tvc.1,
                        e,
                    )))
                } else {
                    res matches Err(e) && e == error
                }
            },
            None => res matches Err(e) && e == error,
        },
{
    let v = match expect_tag_and_get_value(input, tag) {
        Ok(v) => v,
        Err(_) => {
            return Err(error);
        },
    };
    let value = Reader::new(v);
    let ghost r1 = value;
    match decoder(value) {
        Ok((x, rest)) => {
            if rest.at_end() {
                proof {
                    assert(call_ensures(decoder, (r1,), Ok::<(R, Reader<'a>), E>((x, rest))));
                    assert(spec_decoded_all(decoder, v@, x));
                }
                Ok(x)
            } else {
                Err(error)
            }
        },
        Err(e) => {
            proof {
                assert(call_ensures(decoder, (r1,), Err::<(R, Reader<'a>), E>(e)));
                assert(spec_decoder_failed::<R, E, F>(decoder, v@, e));
            }
            Err(e)
        },
    }
}

/// [`nested`] for decoders that mutate captured state as they go; the
/// cursor over the value travels through the decoder by value.
pub fn nested_mut<'a, R, E: Copy, F: FnMut(Reader<'a>) -> Result<(R, Reader<'a>), E>>(
    input: &mut Reader<'a>,
    tag: Tag,
    error: E,
    decoder: F,
) -> (res: Result<R, E>)
    requires
        old(input).wf(),
        forall|r: Reader<'a>| r.wf() ==> call_requires(decoder, (r,)),
    ensures
        final(input).wf(),
        final(input).all_bytes() == old(input).all_bytes(),
        final(input).pos_spec() >= old(input).pos_spec(),
        final(input).remaining() == spec_after_tlv(old(input).remaining()),
        match tlv_parse(old(input).remaining()) {
            Some(tvc) => {
                if tvc.0 == tag.spec_byte() {
                    &&& (res matches Ok(x) ==> {
                        &&& spec_decoded_all(decoder, tvc.1, x)
                        &&& final(input).remaining() == old(input).remaining().skip(tvc.2)
                    })
                    &&& (res matches Err(e) ==> (e == error || spec_decoder_failed(
                        decoder,
                        tvc.1,
                        e,
                    )))
                } else {
                    res matches Err(e) && e == error
                }
            },
            None => res matches Err(e) && e == error,
        },
{
    let mut decoder = decoder;
    let v = match expect_tag_and_get_value(input, tag) {
        Ok(v) => v,
        Err(_) => {
            return Err(error);
        },
    };
    let value = Reader::new(v);
    let ghost r1 = value;
    match decoder(value) {
        Ok((x, rest)) => {
            if rest.at_end() {
                proof {
                    assert(call_ensures(decoder, (r1,), Ok::<(R, Reader<'a>), E>((x, rest))));
                    assert(spec_decoded_all(decoder, v@, x));
                }
                Ok(x)
            } else {
                Err(error)
            }
        },
        Err(e) => {
            proof {
                assert(call_ensures(decoder, (r1,), Err::<(R, Reader<'a>), E>(e)));
                assert(spec_decoder_failed::<R, E, F>(decoder, v@, e));
            }
            Err(e)
        },
    }
}

/// Whether `v` is tiled exactly by elements of `inner_tag`, each of whose
/// values the decoder accepts while consuming it completely; an empty `v`
/// does not qualify, so at least one element is required.
pub open spec fn spec_nested_of_ok<'a, E, F: Fn(Reader<'a>) -> Result<Reader<'a>, E>>(
    decoder: F,
    inner_tag: u8,
    v: Seq<u8>,
) -> bool
    decreases v.len(),
{
    match tlv_parse(v) {
        None => false,
        Some(tvc) => {
            &&& tvc.0 == inner_tag
            &&& (exists|r1: Reader<'a>, r2: Reader<'a>|
                {
                    &&& r1.wf() && r1.pos_spec() == 0 && r1.all_bytes() == tvc.1
                    &&& #[trigger] call_ensures(decoder, (r1,), Ok::<Reader<'a>, E>(r2))
                    &&& r2.pos_spec() == r2.all_bytes().len()
                })
            &&& if tvc.2 == v.len() {
                true
            } else if 2 <= tvc.2 < v.len() {
                spec_nested_of_ok(decoder, inner_tag, v.skip(tvc.2))
            } else {
                true
            }
        },
    }
}

/// Whether `v` begins with an element whose tag octet is `inner_tag`.
pub open spec fn spec_head_is_inner(v: Seq<u8>, inner_tag: u8) -> bool {
    tlv_parse(v) matches Some(tvc) && tvc.0 == inner_tag
}

/// Whether `e` is an error the decoder produced on the value of some
/// element of the inner-tag chain at the head of `v`.
pub open spec fn spec_inner_rejected<'a, E, F: Fn(Reader<'a>) -> Result<Reader<'a>, E>>(
    decoder: F,
    inner_tag: u8,
    v: Seq<u8>,
    e: E,
) -> bool
    decreases v.len(),
{
    match tlv_parse(v) {
        None => false,
        Some(tvc) => tvc.0 == inner_tag && ({
            ||| (exists|r1: Reader<'a>|
                {
                    &&& r1.wf() && r1.pos_spec() == 0 && r1.all_bytes() == tvc.1
                    &&& #[trigger] call_ensures(decoder, (r1,), Err::<Reader<'a>, E>(e))
                })
            ||| (2 <= tvc.2 < v.len() && spec_inner_rejected(decoder, inner_tag, v.skip(tvc.2), e))
        }),
    }
}

/// Frames `outer_tag`, then repeatedly frames `inner_tag` and runs
/// `decoder` on each inner value until the outer value is exhausted. Each
/// inner value must be consumed completely, and at least one inner element
/// is required: an outer value with zero elements fails with `error`, as
/// does one whose head is no inner-tag element. An error of the decoder
/// itself passes through unchanged. Once the outer element is framed, the
/// cursor ends past it on every outcome.
pub fn nested_of_mut<'a, E: Copy, F: Fn(Reader<'a>) -> Result<Reader<'a>, E>>(
    input: &mut Reader<'a>,
    outer_tag: Tag,
    inner_tag: Tag,
    error: E,
    decoder: F,
) -> (res: Result<(), E>)
    requires
        old(input).wf(),
        forall|r: Reader<'a>| r.wf() ==> call_requires(decoder, (r,)),
    ensures
        final(input).wf(),
        final(input).all_bytes() == old(input).all_bytes(),
        final(input).pos_spec() >= old(input).pos_spec(),
        match tlv_parse(old(input).remaining()) {
            Some(tvc) => {
                if tvc.0 == outer_tag.spec_byte() {
                    &&& final(input).remaining() == old(input).remaining().skip(tvc.2)
                    &&& (res is Ok ==> spec_nested_of_ok(decoder, inner_tag.spec_byte(), tvc.1))
                    &&& (res matches Err(e) ==> (e == error || spec_inner_rejected(
                        decoder,
                        inner_tag.spec_byte(),
                        tvc.1,
                        e,
                    )))
                    &&& (!spec_head_is_inner(tvc.1, inner_tag.spec_byte()) ==> (res matches Err(e)
                        && e == error))
                } else {
                    res matches Err(e) && e == error
                }
            },
            None => res matches Err(e) && e == error,
        },
{
    let outer_v = match expect_tag_and_get_value(input, outer_tag) {
        Ok(v) => v,
        Err(_) => {
            return Err(error);
        },
    };
    let mut outer_r = Reader::new(outer_v);
    let mut done = false;
    while !done
        invariant
            input.wf(),
            input.all_bytes() == old(input).all_bytes(),
            input.pos_spec() >= old(input).pos_spec(),
            match tlv_parse(old(input).remaining()) {
                Some(tvc) => {
                    &&& tvc.0 == outer_tag.spec_byte()
                    &&& tvc.1 == outer_v@
                    &&& input.remaining() == old(input).remaining().skip(tvc.2)
                },
                None => false,
            },
            outer_r.wf(),
            outer_r.all_bytes() == outer_v@,
            forall|r: Reader<'a>| r.wf() ==> call_requires(decoder, (r,)),
            !done ==> (spec_nested_of_ok(decoder, inner_tag.spec_byte(), outer_r.remaining())
                ==> spec_nested_of_ok(decoder, inner_tag.spec_byte(), outer_v@)),
            !done ==> (forall|e2: E|
                #[trigger] spec_inner_rejected(
                    decoder,
                    inner_tag.spec_byte(),
                    outer_r.remaining(),
                    e2,
                ) ==> spec_inner_rejected(decoder, inner_tag.spec_byte(), outer_v@, e2)),
            outer_r.pos_spec() > 0 ==> spec_head_is_inner(outer_v@, inner_tag.spec_byte()),
            done ==> spec_nested_of_ok(decoder, inner_tag.spec_byte(), outer_v@),
        decreases outer_r.all_bytes().len() - outer_r.pos_spec() + (if done {
            0int
        } else {
            1int
        }),
    {
        let ghost cur = outer_r.remaining();
        let ghost start_pos = outer_r.pos_spec();
        let inner_v = match expect_tag_and_get_value(&mut outer_r, inner_tag) {
            Ok(v) => v,
            Err(_) => {
                return Err(error);
            },
        };
        proof {
            if start_pos == 0 {
                assert(cur =~= outer_v@);
            }
            assert(spec_head_is_inner(outer_v@, inner_tag.spec_byte()));
        }
        let inner_r = Reader::new(inner_v);
        let ghost r1 = inner_r;
        match decoder(inner_r) {
            Ok(rest) => {
                if !rest.at_end() {
                    return Err(error);
                }
                if outer_r.at_end() {
                    done = true;
                }
                proof {
                    let tagb = inner_tag.spec_byte();
                    assert(call_ensures(decoder, (r1,), Ok::<Reader<'a>, E>(rest)));
                    match tlv_parse(cur) {
                        Some(tvc) => {
                            if done {
                                assert(tvc.2 == cur.len());
                                assert(spec_nested_of_ok(decoder, tagb, cur));
                            } else {
                                if spec_nested_of_ok(decoder, tagb, outer_r.remaining()) {
                                    assert(spec_nested_of_ok(decoder, tagb, cur));
                                }
                                assert forall|e2: E|
                                    #[trigger] spec_inner_rejected(
                                        decoder,
                                        tagb,
                                        outer_r.remaining(),
                                        e2,
                                    ) implies spec_inner_rejected(
                                    decoder,
                                    tagb,
                                    outer_v@,
                                    e2,
                                ) by {
                                    assert(spec_inner_rejected(decoder, tagb, cur, e2));
                                }
                            }
                        },
                        None => {
                            assert(false);
                        },
                    }
                }
            },
            Err(e) => {
                proof {
                    let tagb = inner_tag.spec_byte();
                    assert(call_ensures(decoder, (r1,), Err::<Reader<'a>, E>(e)));
                    assert(spec_inner_rejected(decoder, tagb, cur, e));
                    assert(spec_inner_rejected(decoder, tagb, outer_v@, e));
                }
                return Err(e);
            },
        }
    }
    proof {
        assert(spec_head_is_inner(outer_v@, inner_tag.spec_byte()));
    }
    Ok(())
}

} // verus!
