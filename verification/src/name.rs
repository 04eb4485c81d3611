//! The directory-string, distinguished-name and alternative-name decoders.
//!
//! A Name is a sequence of RDNs, each a SET containing a SEQUENCE of an
//! attribute-type OID and a string value. The decoder keeps the six
//! canonical attributes in their own slots; any other attribute type
//! overwrites the single `extra` slot, so only the last unrecognized
//! attribute survives. The loop ends quietly at the first component that
//! does not parse as an RDN; that is "no more RDNs", not an error.

use vstd::prelude::*;
use vstd::utf8::{decode_utf8, valid_utf8};

use crate::der::{expect_tag_and_get_value, read_tag_and_get_value, spec_after_tlv, tlv_parse, Tag};
use crate::oid::{arcs_int, spec_arcs_fit_u64, spec_dotted, spec_oid_arcs};
use crate::reader::Reader;
use crate::Error;

verus! {

/// Relies on `core::str::from_utf8`: it succeeds exactly on valid UTF-8
/// input and returns that input decoded to characters.
#[verifier::external_body]
fn bytes_as_utf8<'a>(v: &'a [u8]) -> (r: Option<&'a str>)
    ensures
        r is Some <==> valid_utf8(v@),
        r matches Some(s) ==> s@ == decode_utf8(v@),
{
    core::str::from_utf8(v).ok()
}

/// Decodes one tagged string value (the tag itself is not inspected; the
/// caller has already validated context) and requires its bytes to be
/// valid UTF-8.
pub fn parse_directory_string<'a>(input: &mut Reader<'a>) -> (res: Result<String, Error>)
    requires
        old(input).wf(),
    ensures
        final(input).wf(),
        final(input).all_bytes() == old(input).all_bytes(),
        final(input).pos_spec() >= old(input).pos_spec(),
        final(input).remaining() == spec_after_tlv(old(input).remaining()),
        match tlv_parse(old(input).remaining()) {
            Some(tvc) => {
                if valid_utf8(tvc.1) {
                    &&& res matches Ok(s) && s@ == decode_utf8(tvc.1)
                    &&& final(input).remaining() == old(input).remaining().skip(tvc.2)
                } else {
                    res matches Err(e) && e == Error::BadDER
                }
            },
            None => res matches Err(e) && e == Error::BadDER,
        },
{
    let v = match read_tag_and_get_value(input) {
        Ok(tv) => tv.1,
        Err(e) => {
            return Err(e);
        },
    };
    match bytes_as_utf8(v) {
        Some(s) => Ok(s.to_owned()),
        None => Err(Error::BadDER),
    }
}

/// The ghost shape of a [`Name`]: each attribute as decoded characters.
pub struct SpecName {
    pub common_name: Option<Seq<char>>,
    pub country_name: Option<Seq<char>>,
    pub locality_name: Option<Seq<char>>,
    pub state_or_province_name: Option<Seq<char>>,
    pub organization_name: Option<Seq<char>>,
    pub organizational_unit_name: Option<Seq<char>>,
    pub extra: Option<Seq<char>>,
}

/// The canonical attributes of an X.509 subject or issuer, each present
/// only when the Name carried it, plus the dotted OID of the last
/// unrecognized attribute seen.
#[derive(Debug)]
pub struct Name {
    pub common_name: Option<String>,
    pub country_name: Option<String>,
    pub locality_name: Option<String>,
    pub state_or_province_name: Option<String>,
    pub organization_name: Option<String>,
    pub organizational_unit_name: Option<String>,
    pub extra: Option<String>,
}

impl View for Name {
    type V = SpecName;

    open spec fn view(&self) -> SpecName {
        SpecName {
            common_name: self.common_name.deep_view(),
            country_name: self.country_name.deep_view(),
            locality_name: self.locality_name.deep_view(),
            state_or_province_name: self.state_or_province_name.deep_view(),
            organization_name: self.organization_name.deep_view(),
            organizational_unit_name: self.organizational_unit_name.deep_view(),
            extra: self.extra.deep_view(),
        }
    }
}

/// The all-absent Name every decode starts from.
pub open spec fn spec_name_empty() -> SpecName {
    SpecName {
        common_name: None,
        country_name: None,
        locality_name: None,
        state_or_province_name: None,
        organization_name: None,
        organizational_unit_name: None,
        extra: None,
    }
}

/// One RDN applied to an accumulated Name: the six recognized attribute
/// types fill their slots, anything else overwrites `extra` with its
/// dotted OID string.
pub open spec fn spec_name_update(n: SpecName, arcs: Seq<int>, value: Seq<char>) -> SpecName {
    if arcs == seq![2int, 5int, 4int, 3int] {
        SpecName { common_name: Some(value), ..n }
    } else if arcs == seq![2int, 5int, 4int, 6int] {
        SpecName { country_name: Some(value), ..n }
    } else if arcs == seq![2int, 5int, 4int, 7int] {
        SpecName { locality_name: Some(value), ..n }
    } else if arcs == seq![2int, 5int, 4int, 8int] {
        SpecName { state_or_province_name: Some(value), ..n }
    } else if arcs == seq![2int, 5int, 4int, 10int] {
        SpecName { organization_name: Some(value), ..n }
    } else if arcs == seq![2int, 5int, 4int, 11int] {
        SpecName { organizational_unit_name: Some(value), ..n }
    } else {
        SpecName { extra: Some(spec_dotted(arcs)), ..n }
    }
}

/// The RDN at the head of `s`: its attribute-type arcs, its decoded string
/// value and how many bytes it occupies. `None` when `s` does not start
/// with a Set holding a Sequence of exactly an OID and a UTF-8 string.
pub open spec fn spec_rdn_step(s: Seq<u8>) -> Option<(Seq<int>, Seq<char>, int)> {
    if s.len() == 0 || s[0] != Tag::SetOf.spec_byte() {
        None
    } else {
        match tlv_parse(s) {
            None => None,
            Some(set_tvc) => match tlv_parse(set_tvc.1) {
                None => None,
                Some(seq_tvc) => if seq_tvc.0 != Tag::Sequence.spec_byte() {
                    None
                } else {
                    match tlv_parse(seq_tvc.1) {
                        None => None,
                        Some(oid_tvc) => if oid_tvc.0 != Tag::OID.spec_byte() {
                            None
                        } else {
                            match spec_oid_arcs(oid_tvc.1) {
                                None => None,
                                Some(arcs) => if !spec_arcs_fit_u64(arcs) {
                                    None
                                } else {
                                    match tlv_parse(seq_tvc.1.skip(oid_tvc.2)) {
                                        None => None,
                                        Some(str_tvc) => if !valid_utf8(str_tvc.1) {
                                            None
                                        } else if oid_tvc.2 + str_tvc.2 != seq_tvc.1.len() {
                                            None
                                        } else {
                                            Some((arcs, decode_utf8(str_tvc.1), set_tvc.2))
                                        },
                                    }
                                },
                            }
                        },
                    }
                },
            },
        }
    }
}

/// A well-formed RDN occupies at least two bytes and at most all of `s`,
/// and its attribute type has at least the two arcs of the first byte.
pub proof fn lemma_rdn_step_bounds(s: Seq<u8>)
    ensures
        spec_rdn_step(s) matches Some(step) ==> 2 <= step.2 <= s.len() && step.0.len() >= 2,
{
}

/// The Name accumulated by consuming RDNs from the head of `s` until the
/// first component that is not a well-formed RDN.
pub open spec fn spec_name_fold(s: Seq<u8>, acc: SpecName) -> SpecName
    decreases s.len(),
{
    match spec_rdn_step(s) {
        None => acc,
        Some(step) => if 2 <= step.2 <= s.len() {
            spec_name_fold(s.skip(step.2), spec_name_update(acc, step.0, step.1))
        } else {
            acc
        },
    }
}

/// How many bytes the well-formed RDNs at the head of `s` occupy.
pub open spec fn spec_rdn_prefix_len(s: Seq<u8>) -> int
    decreases s.len(),
{
    match spec_rdn_step(s) {
        None => 0,
        Some(step) => if 2 <= step.2 <= s.len() {
            step.2 + spec_rdn_prefix_len(s.skip(step.2))
        } else {
            0
        },
    }
}

/// The RDN prefix never runs past the end of `s`.
pub proof fn lemma_rdn_prefix_len_bounds(s: Seq<u8>)
    ensures
        0 <= spec_rdn_prefix_len(s) <= s.len(),
    decreases s.len(),
{
    match spec_rdn_step(s) {
        None => {},
        Some(step) => {
            if 2 <= step.2 <= s.len() {
                lemma_rdn_prefix_len_bounds(s.skip(step.2));
            }
        },
    }
}

fn parse_one_name<'a>(input: &mut Reader<'a>) -> (res: Result<(Vec<u64>, String), Error>)
    requires
        old(input).wf(),
    ensures
        final(input).wf(),
        final(input).all_bytes() == old(input).all_bytes(),
        final(input).pos_spec() >= old(input).pos_spec(),
        (old(input).remaining().len() == 0 || old(input).remaining()[0]
            != Tag::SetOf.spec_byte()) ==> *final(input) == *old(input),
        match spec_rdn_step(old(input).remaining()) {
            Some(step) => {
                &&& res matches Ok(p) && arcs_int(p.0@) == step.0 && p.1@ == step.1 && p.0@.len()
                    >= 2
                &&& final(input).remaining() == old(input).remaining().skip(step.2)
                &&& final(input).pos_spec() > old(input).pos_spec()
            },
            None => res matches Err(e) && e == Error::BadDER,
        },
{
    if !input.peek(Tag::SetOf.byte()) {
        return Err(Error::BadDER);
    }
    let set_v = match read_tag_and_get_value(input) {
        Ok(tv) => tv.1,
        Err(e) => {
            return Err(e);
        },
    };
    let mut set_r = Reader::new(set_v);
    let seq_v = match expect_tag_and_get_value(&mut set_r, Tag::Sequence) {
        Ok(v) => v,
        Err(e) => {
            return Err(e);
        },
    };
    let mut seq_r = Reader::new(seq_v);
    let oid_v = match expect_tag_and_get_value(&mut seq_r, Tag::OID) {
        Ok(v) => v,
        Err(e) => {
            return Err(e);
        },
    };
    let arcs = match crate::oid::oid_arcs_from(oid_v) {
        Ok(a) => a,
        Err(e) => {
            return Err(e);
        },
    };
    let value = match parse_directory_string(&mut seq_r) {
        Ok(s) => s,
        Err(e) => {
            return Err(e);
        },
    };
    proof {
        match tlv_parse(seq_v@) {
            Some(oid_tvc) => {
                match tlv_parse(seq_v@.skip(oid_tvc.2)) {
                    Some(str_tvc) => {
                        assert(seq_v@.skip(oid_tvc.2).skip(str_tvc.2) =~= seq_v@.skip(
                            oid_tvc.2 + str_tvc.2,
                        ));
                    },
                    None => {},
                }
            },
            None => {},
        }
    }
    if !seq_r.at_end() {
        return Err(Error::BadDER);
    }
    proof {
        match spec_rdn_step(old(input).remaining()) {
            Some(step) => {
                assert(arcs_int(arcs@) =~= step.0);
            },
            None => {},
        }
    }
    Ok((arcs, value))
}

fn apply_rdn(n: &mut Name, arcs: &Vec<u64>, value: String)
    requires
        arcs@.len() >= 1,
    ensures
        final(n)@ == spec_name_update(old(n)@, arcs_int(arcs@), value@),
{
    let ghost a = arcs_int(arcs@);
    proof {
        assert(a.len() == arcs@.len());
        if a == seq![2int, 5int, 4int, 3int] {
            assert(a[0] == 2 && a[1] == 5 && a[2] == 4 && a[3] == 3);
        }
        if a == seq![2int, 5int, 4int, 6int] {
            assert(a[0] == 2 && a[1] == 5 && a[2] == 4 && a[3] == 6);
        }
        if a == seq![2int, 5int, 4int, 7int] {
            assert(a[0] == 2 && a[1] == 5 && a[2] == 4 && a[3] == 7);
        }
        if a == seq![2int, 5int, 4int, 8int] {
            assert(a[0] == 2 && a[1] == 5 && a[2] == 4 && a[3] == 8);
        }
        if a == seq![2int, 5int, 4int, 10int] {
            assert(a[0] == 2 && a[1] == 5 && a[2] == 4 && a[3] == 10);
        }
        if a == seq![2int, 5int, 4int, 11int] {
            assert(a[0] == 2 && a[1] == 5 && a[2] == 4 && a[3] == 11);
        }
    }
    let under_attrs = arcs.len() == 4 && arcs[0] == 2 && arcs[1] == 5 && arcs[2] == 4;
    if under_attrs && arcs[3] == 3 {
        proof {
            assert(a =~= seq![2int, 5int, 4int, 3int]);
        }
        n.common_name = Some(value);
    } else if under_attrs && arcs[3] == 6 {
        proof {
            assert(a =~= seq![2int, 5int, 4int, 6int]);
        }
        n.country_name = Some(value);
    } else if under_attrs && arcs[3] == 7 {
        proof {
            assert(a =~= seq![2int, 5int, 4int, 7int]);
        }
        n.locality_name = Some(value);
    } else if under_attrs && arcs[3] == 8 {
        proof {
            assert(a =~= seq![2int, 5int, 4int, 8int]);
        }
        n.state_or_province_name = Some(value);
    } else if under_attrs && arcs[3] == 10 {
        proof {
            assert(a =~= seq![2int, 5int, 4int, 10int]);
        }
        n.organization_name = Some(value);
    } else if under_attrs && arcs[3] == 11 {
        proof {
            assert(a =~= seq![2int, 5int, 4int, 11int]);
        }
        n.organizational_unit_name = Some(value);
    } else {
        let dotted = crate::oid::dotted_string(arcs);
        n.extra = Some(dotted);
    }
}

/// Decodes a sequence of RDNs into a [`Name`]. The loop ends at the first
/// component that does not parse as an RDN, so this never fails: an input
/// with no RDNs at its head yields the all-absent Name.
pub fn parse_name<'a>(input: &mut Reader<'a>) -> (res: Result<Name, Error>)
    requires
        old(input).wf(),
    ensures
        final(input).wf(),
        final(input).all_bytes() == old(input).all_bytes(),
        final(input).pos_spec() >= old(input).pos_spec(),
        res matches Ok(n) && n@ == spec_name_fold(old(input).remaining(), spec_name_empty()),
        ({
            let rest = old(input).remaining().skip(spec_rdn_prefix_len(old(input).remaining()));
            (rest.len() == 0 || rest[0] != Tag::SetOf.spec_byte()) ==> final(input).remaining()
                == rest
        }),
{
    let mut full_name = Name {
        common_name: None,
        country_name: None,
        locality_name: None,
        state_or_province_name: None,
        organization_name: None,
        organizational_unit_name: None,
        extra: None,
    };
    let ghost rem0 = old(input).remaining();
    let mut done = false;
    while !done
        invariant
            input.wf(),
            input.all_bytes() == old(input).all_bytes(),
            input.pos_spec() >= old(input).pos_spec(),
            !done ==> spec_name_fold(rem0, spec_name_empty()) == spec_name_fold(
                input.remaining(),
                full_name@,
            ),
            done ==> spec_name_fold(rem0, spec_name_empty()) == full_name@,
            !done ==> rem0.skip(spec_rdn_prefix_len(rem0)) == input.remaining().skip(
                spec_rdn_prefix_len(input.remaining()),
            ),
            done ==> ({
                let rest = rem0.skip(spec_rdn_prefix_len(rem0));
                (rest.len() == 0 || rest[0] != Tag::SetOf.spec_byte()) ==> input.remaining()
                    == rest
            }),
            rem0 == old(input).remaining(),
        decreases input.all_bytes().len() - input.pos_spec() + (if done {
            0int
        } else {
            1int
        }),
    {
        let ghost cur = input.remaining();
        match parse_one_name(input) {
            Ok((arcs, value)) => {
                proof {
                    lemma_rdn_step_bounds(cur);
                    match spec_rdn_step(cur) {
                        Some(step) => {
                            lemma_rdn_prefix_len_bounds(cur.skip(step.2));
                            assert(cur.skip(
                                step.2 + spec_rdn_prefix_len(cur.skip(step.2)),
                            ) =~= cur.skip(step.2).skip(spec_rdn_prefix_len(cur.skip(step.2))));
                        },
                        None => {},
                    }
                }
                apply_rdn(&mut full_name, &arcs, value);
            },
            Err(_) => {
                proof {
                    assert(cur.skip(0) =~= cur);
                }
                done = true;
            },
        }
    }
    Ok(full_name)
}

/// The UTF-8 strings of the tag-value pairs at the head of `s`, up to the
/// first position where no pair can be read; `None` when a pair carries
/// bytes that are not valid UTF-8.
pub open spec fn spec_alt_names(s: Seq<u8>) -> Option<Seq<Seq<char>>>
    decreases s.len(),
{
    match tlv_parse(s) {
        None => Some(Seq::empty()),
        Some(tvc) => if !valid_utf8(tvc.1) {
            None
        } else if 2 <= tvc.2 <= s.len() {
            match spec_alt_names(s.skip(tvc.2)) {
                None => None,
                Some(tail) => Some(seq![decode_utf8(tvc.1)] + tail),
            }
        } else {
            Some(Seq::empty())
        },
    }
}

/// Where the cursor stands after an alternative-name decode: past each
/// readable pair up to the failed framing attempt that ends the loop, or
/// just past the first pair whose value is not valid UTF-8.
pub open spec fn spec_alt_rest(s: Seq<u8>) -> Seq<u8>
    decreases s.len(),
{
    match tlv_parse(s) {
        None => spec_after_tlv(s),
        Some(tvc) => if !valid_utf8(tvc.1) {
            s.skip(tvc.2)
        } else if 2 <= tvc.2 <= s.len() {
            spec_alt_rest(s.skip(tvc.2))
        } else {
            s
        },
    }
}

/// Decodes a list of alternative names: one tagged string value after
/// another, in encounter order, whatever each tag is, until no further
/// pair can be read. An empty input yields an empty list; a single value
/// that is not valid UTF-8 fails the whole decode with `BadDER`,
/// discarding the names already collected.
pub fn parse_alt_name<'a>(input: &mut Reader<'a>) -> (res: Result<Vec<String>, Error>)
    requires
        old(input).wf(),
    ensures
        final(input).wf(),
        final(input).all_bytes() == old(input).all_bytes(),
        final(input).pos_spec() >= old(input).pos_spec(),
        final(input).remaining() == spec_alt_rest(old(input).remaining()),
        match spec_alt_names(old(input).remaining()) {
            Some(names) => res matches Ok(v) && v.deep_view() == names,
            None => res matches Err(e) && e == Error::BadDER,
        },
{
    let mut alt_names: Vec<String> = Vec::new();
    let ghost rem0 = old(input).remaining();
    let mut done = false;
    while !done
        invariant
            input.wf(),
            input.all_bytes() == old(input).all_bytes(),
            input.pos_spec() >= old(input).pos_spec(),
            rem0 == old(input).remaining(),
            !done ==> spec_alt_rest(rem0) == spec_alt_rest(input.remaining()),
            done ==> spec_alt_rest(rem0) == input.remaining(),
            !done ==> spec_alt_names(rem0) == (match spec_alt_names(input.remaining()) {
                None => None::<Seq<Seq<char>>>,
                Some(tail) => Some(alt_names.deep_view() + tail),
            }),
            done ==> spec_alt_names(rem0) == Some(alt_names.deep_view()),
        decreases input.all_bytes().len() - input.pos_spec() + (if done {
            0int
        } else {
            1int
        }),
    {
        let ghost cur = input.remaining();
        let ghost old_names = alt_names.deep_view();
        match read_tag_and_get_value(input) {
            Ok((_t, v)) => {
                match bytes_as_utf8(v) {
                    Some(s) => {
                        alt_names.push(s.to_owned());
                        proof {
                            assert(alt_names.deep_view() =~= old_names + seq![decode_utf8(v@)]);
                            match spec_alt_names(input.remaining()) {
                                Some(tail) => {
                                    assert(old_names + (seq![decode_utf8(v@)] + tail)
                                        =~= alt_names.deep_view() + tail);
                                },
                                None => {},
                            }
                        }
                    },
                    None => {
                        return Err(Error::BadDER);
                    },
                }
            },
            Err(_) => {
                done = true;
            },
        }
    }
    proof {
        assert(alt_names.deep_view() + Seq::<Seq<char>>::empty() =~= alt_names.deep_view());
    }
    Ok(alt_names)
}

} // verus!
