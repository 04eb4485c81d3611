//! The object-identifier decoder.
//!
//! A DER OID value packs its first two arcs into one byte and every later
//! arc as a base-128 varint: continuation bytes carry the high bit, the
//! first byte with the high bit clear ends the arc. The decoder renders the
//! arcs as a dotted-decimal string. A value that ends in the middle of a
//! varint, an empty value, and an arc too large for 64 bits are rejected
//! as `BadDER`.

use vstd::prelude::*;
use vstd::slice::slice_index_get;
use vstd::string::StringExecFns;

use crate::der::{expect_tag_and_get_value, spec_after_tlv, tlv_parse, Tag};
use crate::reader::Reader;
use crate::Error;

verus! {

/// The decimal digit character for `d` (0 through 9).
pub open spec fn spec_digit_char(d: int) -> char {
    if d == 0 {
        '0'
    } else if d == 1 {
        '1'
    } else if d == 2 {
        '2'
    } else if d == 3 {
        '3'
    } else if d == 4 {
        '4'
    } else if d == 5 {
        '5'
    } else if d == 6 {
        '6'
    } else if d == 7 {
        '7'
    } else if d == 8 {
        '8'
    } else {
        '9'
    }
}

/// The decimal rendering of the non-negative integer `n`, without leading
/// zeros (except for `n == 0` itself).
pub open spec fn spec_dec_digits(n: int) -> Seq<char>
    decreases n,
{
    if n < 10 {
        seq![spec_digit_char(n)]
    } else {
        spec_dec_digits(n / 10).push(spec_digit_char(n % 10))
    }
}

/// `.` followed by each arc's decimal rendering, for every arc in turn.
pub open spec fn spec_dotted_tail(arcs: Seq<int>) -> Seq<char>
    decreases arcs.len(),
{
    if arcs.len() == 0 {
        Seq::empty()
    } else {
        seq!['.'] + spec_dec_digits(arcs[0]) + spec_dotted_tail(arcs.skip(1))
    }
}

/// The dotted-decimal rendering of a non-empty arc sequence.
pub open spec fn spec_dotted(arcs: Seq<int>) -> Seq<char> {
    spec_dec_digits(arcs[0]) + spec_dotted_tail(arcs.skip(1))
}

/// The arcs encoded by the base-128 varint chain `rest`, given that the
/// bytes already consumed of the current arc accumulate to `acc` and
/// `started` says whether the current arc has begun. `None` when the chain
/// ends in the middle of an arc.
pub open spec fn spec_varints_from(rest: Seq<u8>, acc: int, started: bool) -> Option<Seq<int>>
    decreases rest.len(),
{
    if rest.len() == 0 {
        if started {
            None
        } else {
            Some(Seq::empty())
        }
    } else {
        let b = rest[0];
        if b >= 0x80 {
            spec_varints_from(rest.skip(1), acc * 128 + (b as int - 0x80), true)
        } else {
            match spec_varints_from(rest.skip(1), 0, false) {
                None => None,
                Some(tail) => Some(seq![acc * 128 + b as int] + tail),
            }
        }
    }
}

/// The arc sequence denoted by a whole OID value: the first byte yields
/// the first two arcs, the rest a varint chain.
pub open spec fn spec_oid_arcs(v: Seq<u8>) -> Option<Seq<int>> {
    if v.len() == 0 {
        None
    } else {
        match spec_varints_from(v.skip(1), 0, false) {
            None => None,
            Some(tail) => Some(seq![v[0] as int / 40, v[0] as int % 40] + tail),
        }
    }
}

/// Whether every arc fits the 64-bit accumulator the decoder uses.
pub open spec fn spec_arcs_fit_u64(arcs: Seq<int>) -> bool {
    forall|i: int| 0 <= i < arcs.len() ==> #[trigger] arcs[i] <= u64::MAX
}

/// The arcs of `a` read as unbounded integers.
pub open spec fn arcs_int(a: Seq<u64>) -> Seq<int> {
    Seq::new(a.len(), |i: int| a[i] as int)
}

/// The continuation-marked base-128 digits of `m`, most significant first,
/// each with the high bit set.
pub open spec fn spec_cont_bytes(m: int) -> Seq<u8>
    decreases m,
{
    if m < 128 {
        seq![(m + 128) as u8]
    } else {
        spec_cont_bytes(m / 128) + seq![(m % 128 + 128) as u8]
    }
}

/// The positional weight that `m`'s continuation digits carry.
pub open spec fn spec_cont_weight(m: int) -> int
    decreases m,
{
    if m < 128 {
        128
    } else {
        128 * spec_cont_weight(m / 128)
    }
}

/// The minimal base-128 varint encoding of one arc.
pub open spec fn spec_varint_encode(n: int) -> Seq<u8> {
    if n < 128 {
        seq![n as u8]
    } else {
        spec_cont_bytes(n / 128) + seq![(n % 128) as u8]
    }
}

/// The varint chain that encodes the third and later arcs.
pub open spec fn spec_varints_encode(arcs: Seq<int>) -> Seq<u8>
    decreases arcs.len(),
{
    if arcs.len() == 0 {
        Seq::empty()
    } else {
        spec_varint_encode(arcs[0]) + spec_varints_encode(arcs.skip(1))
    }
}

/// The DER OID value that encodes `arcs`: the first two arcs packed into
/// one byte, the rest as minimal varints.
pub open spec fn spec_oid_encode(arcs: Seq<int>) -> Seq<u8> {
    seq![(arcs[0] * 40 + arcs[1]) as u8] + spec_varints_encode(arcs.skip(2))
}

proof fn lemma_cont_decode(m: int, acc: int, st: bool, x: Seq<u8>)
    requires
        m >= 0,
        acc >= 0,
    ensures
        spec_cont_weight(m) >= 128,
        spec_varints_from(spec_cont_bytes(m) + x, acc, st) == spec_varints_from(
            x,
            acc * spec_cont_weight(m) + m,
            true,
        ),
    decreases m,
{
    if m < 128 {
        assert((seq![(m + 128) as u8] + x).skip(1) =~= x);
    } else {
        let q = m / 128;
        let r = m % 128;
        let w2 = spec_cont_weight(q);
        assert((spec_cont_bytes(q) + seq![(r + 128) as u8]) + x =~= spec_cont_bytes(q) + (seq![
            (r + 128) as u8,
        ] + x));
        lemma_cont_decode(q, acc, st, seq![(r + 128) as u8] + x);
        assert((seq![(r + 128) as u8] + x).skip(1) =~= x);
        assert((acc * w2 + q) * 128 + r == acc * (w2 * 128) + (q * 128 + r)) by (nonlinear_arith);
    }
}

proof fn lemma_varint_decode(n: int, x: Seq<u8>)
    requires
        n >= 0,
    ensures
        spec_varints_from(spec_varint_encode(n) + x, 0, false) == (match spec_varints_from(
            x,
            0,
            false,
        ) {
            None => None::<Seq<int>>,
            Some(tail) => Some(seq![n] + tail),
        }),
{
    if n < 128 {
        assert((seq![n as u8] + x).skip(1) =~= x);
    } else {
        let q = n / 128;
        let r = n % 128;
        assert((spec_cont_bytes(q) + seq![r as u8]) + x =~= spec_cont_bytes(q) + (seq![r as u8]
            + x));
        lemma_cont_decode(q, 0, false, seq![r as u8] + x);
        assert((seq![r as u8] + x).skip(1) =~= x);
    }
}

proof fn lemma_varints_decode(arcs: Seq<int>)
    requires
        forall|i: int| 0 <= i < arcs.len() ==> #[trigger] arcs[i] >= 0,
    ensures
        spec_varints_from(spec_varints_encode(arcs), 0, false) == Some(arcs),
    decreases arcs.len(),
{
    if arcs.len() == 0 {
        assert(arcs =~= Seq::<int>::empty());
    } else {
        lemma_varints_decode(arcs.skip(1));
        lemma_varint_decode(arcs[0], spec_varints_encode(arcs.skip(1)));
        assert(seq![arcs[0]] + arcs.skip(1) =~= arcs);
    }
}

/// Law (round trip): every representable arc sequence decodes back from
/// its encoding. With [`parse_oid`]'s contract, which fixes the decoded
/// string as [`spec_dotted`] of the decoded arcs, this says that decoding
/// a value and re-encoding the arcs it denotes yields a value that decodes
/// to the same dotted string. The bounds on the first two arcs are those
/// the one-byte packing can carry, and every decoded value satisfies them.
pub proof fn lemma_oid_round_trip(arcs: Seq<int>)
    requires
        arcs.len() >= 2,
        forall|i: int| 0 <= i < arcs.len() ==> #[trigger] arcs[i] >= 0,
        arcs[1] < 40,
        arcs[0] * 40 + arcs[1] <= 255,
    ensures
        spec_oid_arcs(spec_oid_encode(arcs)) == Some(arcs),
{
    let v = spec_oid_encode(arcs);
    assert(v.skip(1) =~= spec_varints_encode(arcs.skip(2)));
    assert(forall|i: int| 0 <= i < arcs.skip(2).len() ==> #[trigger] arcs.skip(2)[i] >= 0);
    lemma_varints_decode(arcs.skip(2));
    assert(v[0] as int / 40 == arcs[0] && v[0] as int % 40 == arcs[1]);
    assert(seq![arcs[0], arcs[1]] + arcs.skip(2) =~= arcs);
}

/// An arc chain that has begun accumulating `acc` can only end in an arc
/// of at least `acc`.
proof fn lemma_varints_first_bound(rest: Seq<u8>, acc: int)
    requires
        acc >= 0,
    ensures
        spec_varints_from(rest, acc, true) matches Some(tail) ==> tail.len() > 0 && tail[0] >= acc,
    decreases rest.len(),
{
    if rest.len() > 0 {
        let b = rest[0];
        if b >= 0x80 {
            lemma_varints_first_bound(rest.skip(1), acc * 128 + (b as int - 0x80));
        }
    }
}

pub(crate) fn oid_arcs_from(v: &[u8]) -> (res: Result<Vec<u64>, Error>)
    ensures
        match spec_oid_arcs(v@) {
            Some(arcs) => {
                if spec_arcs_fit_u64(arcs) {
                    &&& res matches Ok(a) && a@.len() == arcs.len() && (forall|j: int|
                        0 <= j < arcs.len() ==> a@[j] as int == #[trigger] arcs[j])
                } else {
                    res matches Err(e) && e == Error::BadDER
                }
            },
            None => res matches Err(e) && e == Error::BadDER,
        },
{
    if v.len() == 0 {
        return Err(Error::BadDER);
    }
    let first = *slice_index_get(v, 0);
    let mut out: Vec<u64> = Vec::new();
    out.push((first / 40) as u64);
    out.push((first % 40) as u64);
    let mut acc: u64 = 0;
    let mut started: bool = false;
    let mut i: usize = 1;
    proof {
        assert(arcs_int(out@) =~= seq![v@[0] as int / 40, v@[0] as int % 40]);
    }
    while i < v.len()
        invariant
            1 <= i <= v@.len(),
            v@.len() >= 1,
            out@.len() >= 2,
            spec_oid_arcs(v@) == (match spec_varints_from(v@.skip(i as int), acc as int, started) {
                None => None::<Seq<int>>,
                Some(tail) => Some(arcs_int(out@) + tail),
            }),
        decreases v@.len() - i,
    {
        let b = *slice_index_get(v, i);
        proof {
            assert(v@.skip(i as int)[0] == v@[i as int]);
            assert(v@.skip(i as int).skip(1) =~= v@.skip(i as int + 1));
        }
        if b >= 0x80 {
            let low: u64 = (b - 0x80) as u64;
            if acc > (u64::MAX - low) / 128 {
                proof {
                    let acc2 = (acc as int) * 128 + low as int;
                    assert(acc2 > u64::MAX);
                    lemma_varints_first_bound(v@.skip(i as int + 1), acc2);
                    match spec_varints_from(v@.skip(i as int + 1), acc2, true) {
                        Some(tail) => {
                            let arcs = arcs_int(out@) + tail;
                            assert(arcs[out@.len() as int] == tail[0]);
                            assert(!spec_arcs_fit_u64(arcs));
                        },
                        None => {},
                    }
                }
                return Err(Error::BadDER);
            }
            acc = acc * 128 + low;
            started = true;
        } else {
            let low: u64 = b as u64;
            if acc > (u64::MAX - low) / 128 {
                proof {
                    let arc = (acc as int) * 128 + low as int;
                    assert(arc > u64::MAX);
                    match spec_varints_from(v@.skip(i as int + 1), 0, false) {
                        Some(t2) => {
                            let tail = seq![arc] + t2;
                            let arcs = arcs_int(out@) + tail;
                            assert(arcs[out@.len() as int] == arc);
                            assert(!spec_arcs_fit_u64(arcs));
                        },
                        None => {},
                    }
                }
                return Err(Error::BadDER);
            }
            let arc = acc * 128 + low;
            let ghost old_out = out@;
            out.push(arc);
            acc = 0;
            started = false;
            proof {
                assert(arcs_int(out@) =~= arcs_int(old_out) + seq![arc as int]);
                match spec_varints_from(v@.skip(i as int + 1), 0, false) {
                    Some(t2) => {
                        assert(arcs_int(old_out) + (seq![arc as int] + t2) =~= arcs_int(out@) + t2);
                    },
                    None => {},
                }
            }
        }
        i = i + 1;
    }
    proof {
        assert(v@.skip(v@.len() as int) =~= Seq::<u8>::empty());
    }
    if started {
        return Err(Error::BadDER);
    }
    proof {
        assert(spec_oid_arcs(v@) == Some(arcs_int(out@) + Seq::<int>::empty()));
        assert(arcs_int(out@) + Seq::<int>::empty() =~= arcs_int(out@));
        assert(spec_arcs_fit_u64(arcs_int(out@)));
    }
    Ok(out)
}

fn digit_str(d: u64) -> (r: &'static str)
    requires
        d <= 9,
    ensures
        r@ == seq![spec_digit_char(d as int)],
{
    if d == 0 {
        proof {
            reveal_strlit("0");
            assert("0"@ =~= seq!['0']);
        }
        "0"
    } else if d == 1 {
        proof {
            reveal_strlit("1");
            assert("1"@ =~= seq!['1']);
        }
        "1"
    } else if d == 2 {
        proof {
            reveal_strlit("2");
            assert("2"@ =~= seq!['2']);
        }
        "2"
    } else if d == 3 {
        proof {
            reveal_strlit("3");
            assert("3"@ =~= seq!['3']);
        }
        "3"
    } else if d == 4 {
        proof {
            reveal_strlit("4");
            assert("4"@ =~= seq!['4']);
        }
        "4"
    } else if d == 5 {
        proof {
            reveal_strlit("5");
            assert("5"@ =~= seq!['5']);
        }
        "5"
    } else if d == 6 {
        proof {
            reveal_strlit("6");
            assert("6"@ =~= seq!['6']);
        }
        "6"
    } else if d == 7 {
        proof {
            reveal_strlit("7");
            assert("7"@ =~= seq!['7']);
        }
        "7"
    } else if d == 8 {
        proof {
            reveal_strlit("8");
            assert("8"@ =~= seq!['8']);
        }
        "8"
    } else {
        proof {
            reveal_strlit("9");
            assert("9"@ =~= seq!['9']);
        }
        "9"
    }
}

/// The digit characters of `d`, most significant last, read back to front.
pub open spec fn rev_digit_chars(d: Seq<u8>) -> Seq<char> {
    Seq::new(d.len(), |j: int| spec_digit_char(d[d.len() - 1 - j] as int))
}

fn u64_to_string(n: u64) -> (s: String)
    ensures
        s@ == spec_dec_digits(n as int),
{
    let mut digits: Vec<u8> = Vec::new();
    digits.push((n % 10) as u8);
    let mut cur = n / 10;
    proof {
        if n < 10 {
            assert(rev_digit_chars(digits@) =~= seq![spec_digit_char(n as int)]);
        } else {
            assert(rev_digit_chars(digits@) =~= seq![spec_digit_char((n as int) % 10)]);
            assert(spec_dec_digits(n as int) =~= spec_dec_digits(cur as int) + rev_digit_chars(
                digits@,
            ));
        }
    }
    while cur > 0
        invariant
            digits@.len() >= 1,
            forall|j: int| 0 <= j < digits@.len() ==> #[trigger] digits@[j] <= 9,
            cur > 0 ==> spec_dec_digits(n as int) == spec_dec_digits(cur as int) + rev_digit_chars(
                digits@,
            ),
            cur == 0 ==> spec_dec_digits(n as int) == rev_digit_chars(digits@),
        decreases cur,
    {
        let ghost old_digits = digits@;
        let ghost old_cur = cur;
        digits.push((cur % 10) as u8);
        cur = cur / 10;
        proof {
            assert(rev_digit_chars(digits@) =~= seq![
                spec_digit_char((old_cur as int) % 10),
            ] + rev_digit_chars(old_digits));
            if old_cur < 10 {
                assert(spec_dec_digits(old_cur as int) =~= seq![
                    spec_digit_char(old_cur as int),
                ]);
                assert(spec_dec_digits(n as int) =~= rev_digit_chars(digits@));
            } else {
                assert(spec_dec_digits(old_cur as int) =~= spec_dec_digits(cur as int) + seq![
                    spec_digit_char((old_cur as int) % 10),
                ]);
                assert(spec_dec_digits(n as int) =~= spec_dec_digits(cur as int) + rev_digit_chars(
                    digits@,
                ));
            }
        }
    }
    let mut s = String::new();
    let mut i: usize = digits.len();
    proof {
        assert(s@ =~= rev_digit_chars(digits@).take(0));
    }
    while i > 0
        invariant
            i <= digits@.len(),
            forall|j: int| 0 <= j < digits@.len() ==> #[trigger] digits@[j] <= 9,
            spec_dec_digits(n as int) == rev_digit_chars(digits@),
            s@ == rev_digit_chars(digits@).take(digits@.len() - i),
        decreases i,
    {
        i = i - 1;
        let ds = digit_str(digits[i] as u64);
        s.append(ds);
        proof {
            assert(rev_digit_chars(digits@)[digits@.len() - 1 - i] == spec_digit_char(
                digits@[i as int] as int,
            ));
            assert(s@ =~= rev_digit_chars(digits@).take(digits@.len() - i));
        }
    }
    proof {
        assert(s@ =~= rev_digit_chars(digits@));
    }
    s
}

pub(crate) fn dotted_string(arcs: &Vec<u64>) -> (s: String)
    requires
        arcs@.len() >= 1,
    ensures
        s@ == spec_dotted(arcs_int(arcs@)),
{
    let ghost whole = arcs_int(arcs@);
    let mut s = u64_to_string(arcs[0]);
    let mut i: usize = 1;
    proof {
        assert(whole[0] == arcs@[0] as int);
        assert(spec_dotted(whole) == spec_dec_digits(whole[0]) + spec_dotted_tail(whole.skip(1)));
    }
    while i < arcs.len()
        invariant
            1 <= i <= arcs@.len(),
            whole == arcs_int(arcs@),
            whole.len() == arcs@.len(),
            spec_dotted(whole) == s@ + spec_dotted_tail(whole.skip(i as int)),
        decreases arcs@.len() - i,
    {
        let ghost old_s = s@;
        proof {
            reveal_strlit(".");
            assert("."@ =~= seq!['.']);
            assert(whole.skip(i as int)[0] == whole[i as int]);
            assert(whole.skip(i as int).skip(1) =~= whole.skip(i as int + 1));
            assert(whole[i as int] == arcs@[i as int] as int);
        }
        s.append(".");
        let part = u64_to_string(arcs[i]);
        s.append(part.as_str());
        proof {
            assert(spec_dotted_tail(whole.skip(i as int)) == seq!['.'] + spec_dec_digits(
                whole[i as int],
            ) + spec_dotted_tail(whole.skip(i as int + 1)));
            assert(old_s + (seq!['.'] + spec_dec_digits(whole[i as int]) + spec_dotted_tail(
                whole.skip(i as int + 1),
            )) =~= s@ + spec_dotted_tail(whole.skip(i as int + 1)));
        }
        i = i + 1;
    }
    proof {
        assert(whole.skip(whole.len() as int) =~= Seq::<int>::empty());
        assert(s@ + Seq::<char>::empty() =~= s@);
    }
    s
}

/// Decodes a DER OBJECT IDENTIFIER into its dotted-decimal string, for
/// example `1.2.840.113549.1.1.11`.
pub fn parse_oid<'a>(input: &mut Reader<'a>) -> (res: Result<String, Error>)
    requires
        old(input).wf(),
    ensures
        final(input).wf(),
        final(input).all_bytes() == old(input).all_bytes(),
        final(input).pos_spec() >= old(input).pos_spec(),
        final(input).remaining() == spec_after_tlv(old(input).remaining()),
        match tlv_parse(old(input).remaining()) {
            Some(tvc) => {
                if tvc.0 == Tag::OID.spec_byte() {
                    match spec_oid_arcs(tvc.1) {
                        Some(arcs) => {
                            if spec_arcs_fit_u64(arcs) {
                                &&& res matches Ok(s) && s@ == spec_dotted(arcs)
                                &&& final(input).remaining() == old(input).remaining().skip(tvc.2)
                            } else {
                                res matches Err(e) && e == Error::BadDER
                            }
                        },
                        None => res matches Err(e) && e == Error::BadDER,
                    }
                } else {
                    res matches Err(e) && e == Error::BadDER
                }
            },
            None => res matches Err(e) && e == Error::BadDER,
        },
{
    let v = match expect_tag_and_get_value(input, Tag::OID) {
        Ok(v) => v,
        Err(e) => {
            return Err(e);
        },
    };
    let arcs = match oid_arcs_from(v) {
        Ok(a) => a,
        Err(e) => {
            return Err(e);
        },
    };
    proof {
        match spec_oid_arcs(v@) {
            Some(sarcs) => {
                assert(arcs_int(arcs@) =~= sarcs);
            },
            None => {},
        }
    }
    let s = dotted_string(&arcs);
    Ok(s)
}

} // verus!
