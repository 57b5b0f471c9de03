//! Hosts: either a domain given as a sequence of ASCII labels, or an IPv6
//! literal in brackets. Domain input is pre-normalized through the
//! percent-encoding engine, percent-decoded, decoded as UTF-8 with invalid
//! sequences replaced, and split on the four full-stop code points.
#![allow(unused_imports)]
use vstd::prelude::*;
use vstd::string::StrSliceExecFns;
use vstd::string::StringSliceAdditionalSpecFns;
use vstd::utf8::encode_utf8;
use vstd::utf8::is_ascii_chars;

use crate::ParseError;
use crate::ipv6::Ipv6Address;
use crate::ipv6::spec_ipv6_parse;
use crate::ipv6::spec_ipv6_serialize;
use crate::percent::EncodeSet;
use crate::percent::percent_decode;
use crate::percent::percent_encode_bytes;
use crate::percent::spec_percent_decode;
use crate::percent::spec_percent_encode;

verus! {

/// A host: a domain as a sequence of labels (empty only for the file scheme),
/// or an IPv6 address.
#[derive(Clone, Debug, PartialEq, Eq)]
pub enum Host {
    Domain(Vec<String>),
    Ipv6(Ipv6Address),
}

/// The mathematical shape of a host: label character sequences, or the eight
/// address groups.
pub enum HostModel {
    Domain(Seq<Seq<char>>),
    Ipv6(Seq<u16>),
}

impl View for Host {
    type V = HostModel;

    open spec fn view(&self) -> HostModel {
        match self {
            Host::Domain(labels) => HostModel::Domain(labels.deep_view()),
            Host::Ipv6(address) => HostModel::Ipv6(address.pieces@),
        }
    }
}

/// The four code points a domain splits on: the full stop and its ideographic,
/// full-width and half-width variants.
pub open spec fn is_stop(c: char) -> bool {
    c == '.' || c == '\u{3002}' || c == '\u{FF0E}' || c == '\u{FF61}'
}

/// The labels of a character sequence, split on the four full stops. An empty
/// sequence yields one empty label, as does each stop at either end.
pub open spec fn spec_split(s: Seq<char>) -> Seq<Seq<char>>
    decreases s.len(),
{
    if s.len() == 0 {
        seq![Seq::<char>::empty()]
    } else if is_stop(s[0]) {
        seq![Seq::<char>::empty()] + spec_split(s.skip(1))
    } else {
        let rest = spec_split(s.skip(1));
        seq![seq![s[0]] + rest[0]] + rest.skip(1)
    }
}

/// What UTF-8 decoding with replacement of invalid sequences yields for a
/// byte string. The result is a function of the bytes alone.
pub uninterp spec fn utf8_lossy_of(bytes: Seq<u8>) -> Seq<char>;

/// Relies on `encoding::types::Encoding::decode` of `encoding::all::UTF_8`
/// with `DecoderTrap::Replace`: it decodes the bytes as UTF-8, replacing every
/// invalid sequence with U+FFFD, and with that trap it never reports an error.
#[verifier::external_body]
fn utf8_decode_replace(bytes: &Vec<u8>) -> (r: String)
    ensures
        r@ == utf8_lossy_of(bytes@),
{
    match encoding::types::Encoding::decode(
        encoding::all::UTF_8,
        bytes.as_slice(),
        encoding::types::DecoderTrap::Replace,
    ) {
        Ok(s) => s,
        Err(_) => String::new(),
    }
}

/// Splitting a character sequence as a domain: the labels, or the error when
/// any label holds a non-ASCII character.
pub open spec fn spec_domain_parse(dec: Seq<char>) -> Result<Seq<Seq<char>>, ParseError> {
    let labels = spec_split(dec);
    if forall|k: int| 0 <= k < labels.len() ==> is_ascii_chars(labels[k]) {
        Ok(labels)
    } else {
        Err(ParseError::UnsupportedIdnaDomain)
    }
}

/// What parsing a host yields for any input text.
pub open spec fn spec_host_parse(s: Seq<char>) -> Result<HostModel, ParseError> {
    if s.len() == 0 {
        Err(ParseError::EmptyHost)
    } else if s[0] == '[' {
        if s[s.len() - 1] == ']' {
            match spec_ipv6_parse(encode_utf8(s.subrange(1, s.len() - 1))) {
                Some(pieces) => Ok(HostModel::Ipv6(pieces)),
                None => Err(ParseError::InvalidIpv6Address),
            }
        } else {
            Err(ParseError::InvalidIpv6Literal)
        }
    } else {
        let enc = spec_percent_encode(encode_utf8(s), EncodeSet::SimpleEncodeSet);
        let dec = utf8_lossy_of(spec_percent_decode(enc));
        match spec_domain_parse(dec) {
            Ok(labels) => Ok(HostModel::Domain(labels)),
            Err(e) => Err(e),
        }
    }
}

proof fn lemma_split_no_stops(s: Seq<char>)
    requires
        forall|k: int| 0 <= k < s.len() ==> !is_stop(s[k]),
    ensures
        spec_split(s) == seq![s],
    decreases s.len(),
{
    if s.len() == 0 {
        assert(s =~= Seq::<char>::empty());
        assert(spec_split(s) =~~= seq![s]);
    } else {
        lemma_split_no_stops(s.skip(1));
        assert(seq![s[0]] + s.skip(1) =~= s);
        assert(spec_split(s) =~~= seq![s]);
    }
}

proof fn lemma_split_at_stop(t: Seq<char>, n: int)
    requires
        0 <= n < t.len(),
        is_stop(t[n]),
        forall|k: int| 0 <= k < n ==> !is_stop(t[k]),
    ensures
        spec_split(t) == seq![t.subrange(0, n)] + spec_split(t.skip(n + 1)),
    decreases n,
{
    if n == 0 {
        assert(t.subrange(0, 0) =~= Seq::<char>::empty());
        assert(spec_split(t) =~~= seq![t.subrange(0, 0)] + spec_split(t.skip(1)));
    } else {
        assert(t.skip(1)[n - 1] == t[n]);
        assert(forall|k: int| 0 <= k < n - 1 ==> t.skip(1)[k] == t[k + 1]);
        lemma_split_at_stop(t.skip(1), n - 1);
        let rest = spec_split(t.skip(1));
        assert(rest == seq![t.skip(1).subrange(0, n - 1)] + spec_split(t.skip(1).skip(n)));
        assert(t.skip(1).skip(n) =~= t.skip(n + 1));
        assert(rest[0] == t.skip(1).subrange(0, n - 1));
        assert(seq![t[0]] + t.skip(1).subrange(0, n - 1) =~= t.subrange(0, n));
        assert(rest.skip(1) =~= spec_split(t.skip(n + 1)));
        assert(spec_split(t) =~~= seq![t.subrange(0, n)] + spec_split(t.skip(n + 1)));
    }
}

/// Split a string on the four full-stop code points.
fn split_on_stops(s: &str) -> (r: Vec<String>)
    ensures
        r.deep_view() == spec_split(s@),
{
    let n = s.unicode_len();
    let mut labels: Vec<String> = Vec::new();
    let mut start: usize = 0;
    let mut i: usize = 0;
    proof {
        assert(s@.skip(0) =~= s@);
        assert(labels.deep_view() + spec_split(s@) =~~= spec_split(s@));
    }
    while i < n
        invariant
            start <= i <= n,
            n == s@.len(),
            forall|k: int| start <= k < i ==> !is_stop(s@[k]),
            spec_split(s@) == labels.deep_view() + spec_split(s@.skip(start as int)),
        decreases n - i,
    {
        let c = s.get_char(i);
        if c == '.' || c == '\u{3002}' || c == '\u{FF0E}' || c == '\u{FF61}' {
            let ghost old_dv = labels.deep_view();
            let lab = s.substring_char(start, i).to_owned();
            labels.push(lab);
            proof {
                let t = s@.skip(start as int);
                assert(forall|k: int| 0 <= k < i - start ==> t[k] == s@[k + start]);
                assert(t[i - start] == s@[i as int]);
                lemma_split_at_stop(t, i - start);
                assert(t.subrange(0, i - start) =~= s@.subrange(start as int, i as int));
                assert(t.skip(i - start + 1) =~= s@.skip(i as int + 1));
                assert(lab@ == s@.subrange(start as int, i as int));
                assert(labels.deep_view() =~~= old_dv.push(lab@));
                assert(labels.deep_view() + spec_split(s@.skip(i as int + 1)) =~~= old_dv + (
                seq![s@.subrange(start as int, i as int)] + spec_split(s@.skip(i as int + 1))));
            }
            start = i + 1;
        }
        i += 1;
    }
    let ghost old_dv = labels.deep_view();
    let lab = s.substring_char(start, n).to_owned();
    labels.push(lab);
    proof {
        let t = s@.skip(start as int);
        assert(forall|k: int| 0 <= k < t.len() ==> t[k] == s@[k + start]);
        lemma_split_no_stops(t);
        assert(lab@ == s@.subrange(start as int, n as int));
        assert(t =~= s@.subrange(start as int, n as int));
        assert(labels.deep_view() =~~= old_dv.push(lab@));
        assert(labels.deep_view() =~~= old_dv + seq![t]);
        assert(labels.deep_view() =~~= spec_split(s@));
    }
    labels
}

/// The labels of a domain joined with `.`; an IPv6 address in brackets.
pub open spec fn spec_join_labels(labels: Seq<Seq<char>>) -> Seq<char>
    decreases labels.len(),
{
    if labels.len() == 0 {
        Seq::empty()
    } else if labels.len() == 1 {
        labels[0]
    } else {
        labels[0] + seq!['.'] + spec_join_labels(labels.skip(1))
    }
}

pub open spec fn spec_host_serialize(h: HostModel) -> Seq<char> {
    match h {
        HostModel::Domain(labels) => spec_join_labels(labels),
        HostModel::Ipv6(pieces) => seq!['['] + spec_ipv6_serialize(pieces) + seq![']'],
    }
}

proof fn lemma_join_snoc(labels: Seq<Seq<char>>, k: int)
    requires
        0 <= k < labels.len(),
    ensures
        spec_join_labels(labels.take(k + 1)) == spec_join_labels(labels.take(k)) + (if k == 0 {
            Seq::<char>::empty()
        } else {
            seq!['.']
        }) + labels[k],
    decreases k,
{
    if k == 0 {
        assert(labels.take(1) =~= seq![labels[0]]);
        assert(spec_join_labels(labels.take(1)) == labels[0]);
        assert(labels.take(0) =~= Seq::<Seq<char>>::empty());
        assert(spec_join_labels(labels.take(0)) + Seq::<char>::empty() + labels[0] =~= labels[0]);
    } else {
        lemma_join_snoc(labels.skip(1), k - 1);
        let t1 = labels.take(k + 1);
        assert(t1.len() >= 2);
        assert(spec_join_labels(t1) == t1[0] + seq!['.'] + spec_join_labels(t1.skip(1)));
        assert(t1.skip(1) =~= labels.skip(1).take(k));
        let t0 = labels.take(k);
        assert(t0.len() >= 1);
        if k == 1 {
            assert(t0 =~= seq![labels[0]]);
            assert(spec_join_labels(t0) == labels[0]);
            assert(labels.skip(1).take(1) =~= seq![labels[1]]);
            assert(spec_join_labels(labels.skip(1).take(1)) == labels[1]);
            assert(labels[0] + seq!['.'] + labels[1] =~= spec_join_labels(t0) + seq!['.']
                + labels[k]);
        } else {
            assert(spec_join_labels(t0) == t0[0] + seq!['.'] + spec_join_labels(t0.skip(1)));
            assert(t0.skip(1) =~= labels.skip(1).take(k - 1));
            assert(labels.skip(1)[k - 1] == labels[k]);
            assert(spec_join_labels(labels.skip(1).take(k)) == spec_join_labels(
                labels.skip(1).take(k - 1),
            ) + seq!['.'] + labels[k]);
            assert(t1[0] + seq!['.'] + (spec_join_labels(labels.skip(1).take(k - 1)) + seq!['.']
                + labels[k]) =~= (labels[0] + seq!['.'] + spec_join_labels(
                labels.skip(1).take(k - 1),
            )) + seq!['.'] + labels[k]);
        }
    }
}

/// A label free of the characters that splitting reacts to: no full-stop
/// variant of any kind.
pub open spec fn stop_free(label: Seq<char>) -> bool {
    forall|k: int| 0 <= k < label.len() ==> !is_stop(#[trigger] label[k])
}

/// Round trip for domain labels: joining labels with `.` and splitting the
/// result on the full stops yields the labels back, as long as no label
/// itself contains a full-stop variant.
pub proof fn lemma_domain_join_split_round_trip(labels: Seq<Seq<char>>)
    requires
        labels.len() >= 1,
        forall|t: int| 0 <= t < labels.len() ==> stop_free(#[trigger] labels[t]),
    ensures
        spec_split(spec_join_labels(labels)) == labels,
    decreases labels.len(),
{
    let joined = spec_join_labels(labels);
    if labels.len() == 1 {
        assert(joined == labels[0]);
        assert(stop_free(labels[0]));
        lemma_split_no_stops(labels[0]);
        assert(spec_split(joined) =~~= labels);
    } else {
        let first = labels[0];
        let restj = spec_join_labels(labels.skip(1));
        assert(joined == first + seq!['.'] + restj);
        assert(forall|t: int| 0 <= t < labels.skip(1).len() ==> stop_free(
            #[trigger] labels.skip(1)[t],
        ));
        lemma_domain_join_split_round_trip(labels.skip(1));
        let n = first.len() as int;
        assert(stop_free(first));
        assert forall|k: int| 0 <= k < n implies !is_stop(joined[k]) by {
            assert(joined[k] == first[k]);
        }
        assert(joined[n] == '.');
        assert(is_stop('.'));
        lemma_split_at_stop(joined, n);
        assert(joined.subrange(0, n) =~= first);
        assert(joined.skip(n + 1) =~= restj);
        assert(seq![first] + labels.skip(1) =~~= labels);
    }
}

/// Round trip for IPv6 hosts: serializing an address host and parsing the
/// resulting bracketed text yields the same host back.
pub proof fn lemma_ipv6_host_round_trip(p: Seq<u16>)
    requires
        p.len() == 8,
    ensures
        spec_host_parse(spec_host_serialize(HostModel::Ipv6(p))) == Ok::<HostModel, ParseError>(
            HostModel::Ipv6(p),
        ),
{
    crate::ipv6::lemma_ipv6_round_trip(p);
    let body = spec_ipv6_serialize(p);
    let t = seq!['['] + body + seq![']'];
    assert(spec_host_serialize(HostModel::Ipv6(p)) == t);
    assert(t.len() >= 2);
    assert(t[0] == '[');
    assert(t[t.len() - 1] == ']');
    assert(t.subrange(1, t.len() - 1) =~= body);
}

impl Host {
    /// Parse a host: empty input is an error, a bracketed input is an IPv6
    /// literal, and anything else is treated as a domain, pre-normalized
    /// through the Simple encode set, percent-decoded, decoded as UTF-8 with
    /// replacement, and split into labels that must all be ASCII.
    pub fn parse(input: &str) -> (r: Result<Host, ParseError>)
        ensures
            match r {
                Ok(h) => spec_host_parse(input@) == Ok::<HostModel, ParseError>(h@),
                Err(e) => spec_host_parse(input@) == Err::<HostModel, ParseError>(e),
            },
    {
        let n = input.unicode_len();
        if n == 0 {
            return Err(ParseError::EmptyHost);
        }
        if input.get_char(0) == '[' {
            if input.get_char(n - 1) == ']' {
                let inner = input.substring_char(1, n - 1);
                match Ipv6Address::parse(inner) {
                    Ok(a) => Ok(Host::Ipv6(a)),
                    Err(e) => Err(e),
                }
            } else {
                Err(ParseError::InvalidIpv6Literal)
            }
        } else {
            let bytes = input.as_bytes_vec();
            let enc = percent_encode_bytes(bytes.as_slice(), EncodeSet::SimpleEncodeSet);
            let dec_bytes = percent_decode(enc.as_slice());
            let decoded = utf8_decode_replace(&dec_bytes);
            let labels = split_on_stops(decoded.as_str());
            let ghost dec = utf8_lossy_of(
                spec_percent_decode(
                    spec_percent_encode(encode_utf8(input@), EncodeSet::SimpleEncodeSet),
                ),
            );
            proof {
                assert(decoded@ == dec);
            }
            let mut k: usize = 0;
            while k < labels.len()
                invariant
                    k <= labels@.len(),
                    labels.deep_view().len() == labels@.len(),
                    labels.deep_view() == spec_split(dec),
                    input@.len() > 0,
                    input@[0] != '[',
                    dec == utf8_lossy_of(
                        spec_percent_decode(
                            spec_percent_encode(encode_utf8(input@), EncodeSet::SimpleEncodeSet),
                        ),
                    ),
                    forall|t: int| 0 <= t < k ==> is_ascii_chars(labels.deep_view()[t]),
                decreases labels@.len() - k,
            {
                if !labels[k].as_str().is_ascii() {
                    proof {
                        assert(labels.deep_view()[k as int] == labels@[k as int]@);
                        assert(!is_ascii_chars(labels.deep_view()[k as int]));
                        assert(spec_domain_parse(dec) == Err::<Seq<Seq<char>>, ParseError>(
                            ParseError::UnsupportedIdnaDomain,
                        ));
                    }
                    return Err(ParseError::UnsupportedIdnaDomain);
                }
                proof {
                    assert(labels.deep_view()[k as int] == labels@[k as int]@);
                }
                k += 1;
            }
            Ok(Host::Domain(labels))
        }
    }

    /// Serialize a host: domain labels joined with `.`, or the bracketed
    /// IPv6 text.
    pub fn serialize(&self) -> (r: String)
        ensures
            r@ == spec_host_serialize(self@),
    {
        match self {
            Host::Domain(labels) => {
                proof {
                    reveal_strlit(".");
                    assert("."@ =~= seq!['.']);
                    assert(labels.deep_view().take(0) =~= Seq::<Seq<char>>::empty());
                }
                let mut out = String::new();
                let mut k: usize = 0;
                while k < labels.len()
                    invariant
                        k <= labels@.len(),
                        labels.deep_view().len() == labels@.len(),
                        out@ == spec_join_labels(labels.deep_view().take(k as int)),
                    decreases labels@.len() - k,
                {
                    proof {
                        reveal_strlit(".");
                    }
                    if k > 0 {
                        out.append(".");
                    }
                    out.append(labels[k].as_str());
                    proof {
                        lemma_join_snoc(labels.deep_view(), k as int);
                        assert(labels.deep_view()[k as int] == labels@[k as int]@);
                        assert(out@ =~= spec_join_labels(
                            labels.deep_view().take(k as int + 1),
                        ));
                    }
                    k += 1;
                }
                proof {
                    assert(labels.deep_view().take(labels@.len() as int) =~= labels.deep_view());
                }
                out
            },
            Host::Ipv6(address) => {
                proof {
                    reveal_strlit("[");
                    reveal_strlit("]");
                    assert("["@ =~= seq!['[']);
                    assert("]"@ =~= seq![']']);
                }
                let mut out = String::new();
                out.append("[");
                let body = address.serialize();
                out.append(body.as_str());
                out.append("]");
                proof {
                    assert(out@ =~= spec_host_serialize(self@));
                }
                out
            },
        }
    }
}

} // verus!
