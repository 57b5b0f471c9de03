//! Fixed eight-group IPv6 addresses: a strict parser for the textual form,
//! including embedded IPv4 suffixes and `::` compression, and the canonical
//! serializer that recomputes compression from the groups.
#![allow(unused_imports)]
use vstd::prelude::*;
use vstd::string::StrSliceExecFns;
use vstd::string::StringSliceAdditionalSpecFns;

use crate::ParseError;
use crate::percent::spec_from_hex;
use crate::percent::from_hex;

verus! {

/// An IPv6 address as exactly eight unsigned 16-bit groups. No abbreviation
/// state is retained: compression is recomputed at serialization time.
#[derive(Clone, Copy, Debug, PartialEq, Eq)]
pub struct Ipv6Address {
    pub pieces: [u16; 8],
}

/// The eight all-zero groups every parse starts from.
pub open spec fn zero_pieces() -> Seq<u16> {
    Seq::new(8, |k: int| 0u16)
}

pub open spec fn is_dec_digit(byte: u8) -> bool {
    0x30 <= byte && byte <= 0x39
}

/// The index just past the run of hex digits that starts at `i` and may reach
/// at most `end`.
pub open spec fn spec_hex_run_end(s: Seq<u8>, i: int, end: int) -> int
    decreases end - i,
{
    if i < end && 0 <= i && i < s.len() && spec_from_hex(s[i]) is Some {
        spec_hex_run_end(s, i + 1, end)
    } else {
        i
    }
}

/// The value of the hex digits `s[start..i]`, most significant first.
pub open spec fn spec_hex_value(s: Seq<u8>, start: int, i: int) -> int
    decreases i - start,
{
    if i <= start || i < 1 || i > s.len() {
        0
    } else {
        let d = match spec_from_hex(s[i - 1]) {
            Some(d) => d as int,
            None => 0,
        };
        spec_hex_value(s, start, i - 1) * 16 + d
    }
}

/// A maximal run of decimal digits read onto the accumulator `value`;
/// `None` as soon as the accumulated value exceeds 255.
pub open spec fn spec_dec_run(s: Seq<u8>, i: int, value: int) -> Option<(int, int)>
    decreases s.len() - i,
{
    if i < 0 || i >= s.len() || !is_dec_digit(s[i]) {
        Some((value, i))
    } else {
        let v2 = value * 10 + (s[i] - 0x30);
        if v2 > 255 {
            None
        } else {
            spec_dec_run(s, i + 1, v2)
        }
    }
}

/// One decimal octet: at least one digit, value at most 255. Returns the value
/// and the index just past the digits.
pub open spec fn spec_octet(s: Seq<u8>, i: int) -> Option<(int, int)> {
    if 0 <= i && i < s.len() && is_dec_digit(s[i]) {
        spec_dec_run(s, i, 0)
    } else {
        None
    }
}

/// An embedded IPv4 suffix starting at `i`: exactly four dot-separated decimal
/// octets reaching the end of the input, packed into two 16-bit groups.
pub open spec fn spec_ipv4_suffix(s: Seq<u8>, i: int) -> Option<(int, int)> {
    match spec_octet(s, i) {
        None => None,
        Some((v0, i1)) => if !(i1 < s.len() && s[i1] == 0x2E) {
            None
        } else {
            match spec_octet(s, i1 + 1) {
                None => None,
                Some((v1, i2)) => if !(i2 < s.len() && s[i2] == 0x2E) {
                    None
                } else {
                    match spec_octet(s, i2 + 1) {
                        None => None,
                        Some((v2, i3)) => if !(i3 < s.len() && s[i3] == 0x2E) {
                            None
                        } else {
                            match spec_octet(s, i3 + 1) {
                                None => None,
                                Some((v3, i4)) => if i4 != s.len() {
                                    None
                                } else {
                                    Some((v0 * 256 + v1, v2 * 256 + v3))
                                },
                            }
                        },
                    }
                },
            }
        },
    }
}

/// The main scanning loop. State: groups written so far, the write index,
/// the recorded compression point, and the read index. Returns the state at
/// the end of input, or `None` on any malformed input.
pub open spec fn spec_main_loop(
    s: Seq<u8>,
    pieces: Seq<u16>,
    pp: int,
    cp: Option<int>,
    i: int,
) -> Option<(Seq<u16>, int, Option<int>)>
    decreases s.len() - i,
{
    if i >= s.len() {
        Some((pieces, pp, cp))
    } else if i < 0 {
        None
    } else if pp == 8 {
        None
    } else if s[i] == 0x3A {
        if cp is Some {
            None
        } else {
            spec_main_loop(s, pieces, pp + 1, Some(pp + 1), i + 1)
        }
    } else {
        let end = if i + 4 <= s.len() {
            i + 4
        } else {
            s.len() as int
        };
        let j = spec_hex_run_end(s, i, end);
        let value = spec_hex_value(s, i, j);
        if j < s.len() && s[j] == 0x2E {
            if j == i || pp > 6 {
                None
            } else {
                match spec_ipv4_suffix(s, i) {
                    None => None,
                    Some((hi, lo)) => Some(
                        (pieces.update(pp, hi as u16).update(pp + 1, lo as u16), pp + 2, cp),
                    ),
                }
            }
        } else if j < s.len() && s[j] == 0x3A && j > i {
            if j + 1 >= s.len() {
                None
            } else {
                spec_main_loop(s, pieces.update(pp, value as u16), pp + 1, cp, j + 1)
            }
        } else if j >= s.len() {
            Some((pieces.update(pp, value as u16), pp + 1, cp))
        } else {
            None
        }
    }
}

/// The final step after scanning: if a compression point was recorded, the
/// groups written after it shift to the right end and the freed span is zero;
/// otherwise exactly eight groups must have been written.
pub open spec fn spec_finish(pieces: Seq<u16>, pp: int, cp: Option<int>) -> Option<Seq<u16>> {
    match cp {
        Some(c) => Some(
            pieces.subrange(0, c) + Seq::new((8 - pp) as nat, |k: int| 0u16) + pieces.subrange(
                c,
                pp,
            ),
        ),
        None => if pp == 8 {
            Some(pieces)
        } else {
            None
        },
    }
}

/// The whole textual IPv6 grammar over bytes: `Some` of the eight groups for
/// a well-formed literal, `None` for any malformed one.
pub open spec fn spec_ipv6_parse(s: Seq<u8>) -> Option<Seq<u16>> {
    if s.len() == 0 {
        None
    } else if s[0] == 0x3A && !(s.len() >= 2 && s[1] == 0x3A) {
        None
    } else {
        let i0: int = if s[0] == 0x3A {
            2
        } else {
            0
        };
        let pp0: int = if s[0] == 0x3A {
            1
        } else {
            0
        };
        let cp0: Option<int> = if s[0] == 0x3A {
            Some(1)
        } else {
            None
        };
        match spec_main_loop(s, zero_pieces(), pp0, cp0, i0) {
            None => None,
            Some((pieces, pp, cp)) => spec_finish(pieces, pp, cp),
        }
    }
}

pub open spec fn cp_val(cp: Option<usize>) -> Option<int> {
    match cp {
        Some(c) => Some(c as int),
        None => None,
    }
}

/// Scan up to four hex digits from `start`, returning their value and the
/// index just past the run.
fn scan_hex_group(s: &[u8], start: usize) -> (r: (u16, usize))
    requires
        start < s@.len(),
    ensures
        ({
            let end = if start + 4 <= s@.len() {
                start + 4
            } else {
                s@.len() as int
            };
            &&& r.1 as int == spec_hex_run_end(s@, start as int, end)
            &&& r.0 as int == spec_hex_value(s@, start as int, r.1 as int)
            &&& start <= r.1 <= s@.len()
            &&& r.1 <= start + 4
        }),
{
    let end: usize = if s.len() - start >= 4 {
        start + 4
    } else {
        s.len()
    };
    let mut i: usize = start;
    let mut value: u16 = 0;
    while i < end
        invariant
            start <= i <= end,
            end <= s@.len(),
            end as int == (if start + 4 <= s@.len() {
                start + 4
            } else {
                s@.len() as int
            }),
            value as int == spec_hex_value(s@, start as int, i as int),
            (value as int) < (if i - start == 0 {
                1int
            } else if i - start == 1 {
                16int
            } else if i - start == 2 {
                256int
            } else if i - start == 3 {
                4096int
            } else {
                65536int
            }),
            spec_hex_run_end(s@, start as int, end as int) == spec_hex_run_end(
                s@,
                i as int,
                end as int,
            ),
        decreases end - i,
    {
        let dopt = from_hex(s[i]);
        if dopt.is_none() {
            proof {
                assert(spec_hex_run_end(s@, i as int, end as int) == i as int);
            }
            return (value, i);
        }
        let d = match dopt {
            Some(d) => d,
            None => 0,
        };
        value = value * 16 + (d as u16);
        i += 1;
    }
    proof {
        assert(spec_hex_run_end(s@, i as int, end as int) == i as int);
    }
    (value, i)
}

/// Read one decimal octet: at least one digit, at most 255.
fn parse_octet(s: &[u8], start: usize) -> (r: Option<(u16, usize)>)
    requires
        start <= s@.len(),
    ensures
        match r {
            Some(v) => spec_octet(s@, start as int) == Some((v.0 as int, v.1 as int)) && start
                < v.1 <= s@.len() && v.0 <= 255,
            None => spec_octet(s@, start as int) is None,
        },
{
    if start >= s.len() || s[start] < 0x30 || s[start] > 0x39 {
        return None;
    }
    let mut i: usize = start;
    let mut value: u16 = 0;
    while i < s.len() && 0x30 <= s[i] && s[i] <= 0x39
        invariant
            start <= i <= s@.len(),
            value <= 255,
            spec_dec_run(s@, start as int, 0) == spec_dec_run(s@, i as int, value as int),
        decreases s@.len() - i,
    {
        let d = s[i] - 0x30;
        let v2: u16 = value * 10 + (d as u16);
        if v2 > 255 {
            return None;
        }
        value = v2;
        i += 1;
    }
    proof {
        assert(spec_dec_run(s@, i as int, value as int) == Some((value as int, i as int)));
        assert(i > start) by {
            assert(is_dec_digit(s@[start as int]));
        }
    }
    Some((value, i))
}

/// Read the embedded IPv4 suffix: four dot-separated octets to end of input.
fn parse_ipv4_suffix(s: &[u8], start: usize) -> (r: Option<(u16, u16)>)
    requires
        start <= s@.len(),
    ensures
        match r {
            Some(v) => spec_ipv4_suffix(s@, start as int) == Some((v.0 as int, v.1 as int)),
            None => spec_ipv4_suffix(s@, start as int) is None,
        },
{
    let (v0, i1) = match parse_octet(s, start) {
        Some(x) => x,
        None => {
            return None;
        },
    };
    if !(i1 < s.len() && s[i1] == 0x2E) {
        return None;
    }
    let (v1, i2) = match parse_octet(s, i1 + 1) {
        Some(x) => x,
        None => {
            return None;
        },
    };
    if !(i2 < s.len() && s[i2] == 0x2E) {
        return None;
    }
    let (v2, i3) = match parse_octet(s, i2 + 1) {
        Some(x) => x,
        None => {
            return None;
        },
    };
    if !(i3 < s.len() && s[i3] == 0x2E) {
        return None;
    }
    let (v3, i4) = match parse_octet(s, i3 + 1) {
        Some(x) => x,
        None => {
            return None;
        },
    };
    if i4 != s.len() {
        return None;
    }
    Some((v0 * 256 + v1, v2 * 256 + v3))
}

/// Apply the compression shift, or demand exactly eight written groups.
fn finish_pieces(pieces: [u16; 8], pp: usize, cp: Option<usize>) -> (r: Result<
    Ipv6Address,
    ParseError,
>)
    requires
        pp <= 8,
        match cp {
            Some(c) => 1 <= c && c <= pp,
            None => true,
        },
    ensures
        match r {
            Ok(a) => spec_finish(pieces@, pp as int, cp_val(cp)) == Some(a.pieces@),
            Err(e) => spec_finish(pieces@, pp as int, cp_val(cp)) is None && e
                == ParseError::InvalidIpv6Address,
        },
{
    match cp {
        None => {
            if pp != 8 {
                Err(ParseError::InvalidIpv6Address)
            } else {
                Ok(Ipv6Address { pieces })
            }
        },
        Some(c) => {
            let mut out: [u16; 8] = [0u16, 0, 0, 0, 0, 0, 0, 0];
            let mut k: usize = 0;
            while k < c
                invariant
                    k <= c,
                    c <= pp <= 8,
                    out@.len() == 8,
                    pieces@.len() == 8,
                    forall|t: int| 0 <= t < k ==> out@[t] == pieces@[t],
                    forall|t: int| k <= t < 8 ==> out@[t] == 0u16,
                decreases c - k,
            {
                out[k] = pieces[k];
                k += 1;
            }
            let shift: usize = 8 - pp;
            let mut k2: usize = c;
            while k2 < pp
                invariant
                    c <= k2 <= pp,
                    c + shift <= 8,
                    pp <= 8,
                    shift == 8 - pp,
                    out@.len() == 8,
                    pieces@.len() == 8,
                    forall|t: int| 0 <= t < c ==> out@[t] == pieces@[t],
                    forall|t: int| c <= t < c + shift ==> out@[t] == 0u16,
                    forall|t: int| c + shift <= t < k2 + shift ==> out@[t] == pieces@[t - shift],
                    forall|t: int| k2 + shift <= t < 8 ==> out@[t] == 0u16,
                decreases pp - k2,
            {
                out[k2 + shift] = pieces[k2];
                k2 += 1;
            }
            proof {
                assert(out@ =~= pieces@.subrange(0, c as int) + Seq::new(
                    (8 - pp) as nat,
                    |x: int| 0u16,
                ) + pieces@.subrange(c as int, pp as int));
            }
            Ok(Ipv6Address { pieces: out })
        },
    }
}

/// Parse the byte form of an IPv6 literal (without brackets).
fn parse_bytes(s: &[u8]) -> (r: Result<Ipv6Address, ParseError>)
    ensures
        match r {
            Ok(a) => spec_ipv6_parse(s@) == Some(a.pieces@),
            Err(e) => spec_ipv6_parse(s@) is None && e == ParseError::InvalidIpv6Address,
        },
{
    let len = s.len();
    if len == 0 {
        return Err(ParseError::InvalidIpv6Address);
    }
    let mut pieces: [u16; 8] = [0u16, 0, 0, 0, 0, 0, 0, 0];
    let mut pp: usize = 0;
    let mut cp: Option<usize> = None;
    let mut i: usize = 0;
    proof {
        assert(pieces@ =~= zero_pieces());
    }
    if s[0] == 0x3A {
        if len < 2 || s[1] != 0x3A {
            return Err(ParseError::InvalidIpv6Address);
        }
        i = 2;
        pp = 1;
        cp = Some(1);
    }
    let ghost goal = spec_main_loop(s@, zero_pieces(), pp as int, cp_val(cp), i as int);
    proof {
        assert(spec_ipv6_parse(s@) == (match goal {
            None => None,
            Some((q, qpp, qcp)) => spec_finish(q, qpp, qcp),
        }));
    }
    while i < len
        invariant
            len == s@.len(),
            i <= len,
            pp <= 8,
            match cp {
                Some(c) => 1 <= c && c <= pp && c <= 8,
                None => true,
            },
            spec_main_loop(s@, pieces@, pp as int, cp_val(cp), i as int) == goal,
            spec_ipv6_parse(s@) == (match goal {
                None => None,
                Some((q, qpp, qcp)) => spec_finish(q, qpp, qcp),
            }),
        decreases len - i,
    {
        if pp == 8 {
            return Err(ParseError::InvalidIpv6Address);
        }
        if s[i] == 0x3A {
            if cp.is_some() {
                return Err(ParseError::InvalidIpv6Address);
            }
            i += 1;
            pp += 1;
            cp = Some(pp);
        } else {
            let (value, j) = scan_hex_group(s, i);
            if j < len && s[j] == 0x2E {
                if j == i || pp > 6 {
                    return Err(ParseError::InvalidIpv6Address);
                }
                match parse_ipv4_suffix(s, i) {
                    None => {
                        return Err(ParseError::InvalidIpv6Address);
                    },
                    Some((hi, lo)) => {
                        pieces[pp] = hi;
                        pieces[pp + 1] = lo;
                        pp += 2;
                        proof {
                            assert(goal == Some((pieces@, pp as int, cp_val(cp))));
                        }
                        return finish_pieces(pieces, pp, cp);
                    },
                }
            } else if j < len && s[j] == 0x3A {
                if j + 1 == len {
                    return Err(ParseError::InvalidIpv6Address);
                }
                pieces[pp] = value;
                pp += 1;
                i = j + 1;
            } else if j == len {
                pieces[pp] = value;
                pp += 1;
                i = j;
            } else {
                return Err(ParseError::InvalidIpv6Address);
            }
        }
    }
    proof {
        assert(goal == Some((pieces@, pp as int, cp_val(cp))));
    }
    finish_pieces(pieces, pp, cp)
}

/// The number of consecutive zero groups starting at index `i`.
pub open spec fn run_len(p: Seq<u16>, i: int) -> int
    decreases 8 - i,
{
    if i < 0 || i >= 8 || i >= p.len() || p[i] != 0 {
        0
    } else {
        1 + run_len(p, i + 1)
    }
}

/// The start of the leftmost longest zero run of length at least two among
/// the indices below `hi`, if any.
pub open spec fn best_pre(p: Seq<u16>, hi: int) -> Option<int>
    decreases hi,
{
    if hi <= 0 {
        None
    } else {
        let rest = best_pre(p, hi - 1);
        let cand = hi - 1;
        if run_len(p, cand) >= 2 && (rest is None || run_len(p, cand) > run_len(
            p,
            rest.unwrap(),
        )) {
            Some(cand)
        } else {
            rest
        }
    }
}

/// The zero run that compression replaces: the leftmost longest run of at
/// least two consecutive zero groups, as a start/end pair. A lone zero group
/// is never compressed.
pub open spec fn spec_longest_zero(p: Seq<u16>) -> Option<(int, int)> {
    match best_pre(p, 8) {
        Some(st) => Some((st, st + run_len(p, st))),
        None => None,
    }
}

/// The lower-case hex digit for a nibble value.
pub open spec fn spec_hex_digit_lower(v: int) -> char {
    if v < 10 {
        ((0x30 + v) as u8) as char
    } else {
        ((0x57 + v) as u8) as char
    }
}

/// A group in lower-case hex without leading zeros.
pub open spec fn spec_hex_u16(v: int) -> Seq<char> {
    if v < 16 {
        seq![spec_hex_digit_lower(v)]
    } else if v < 256 {
        seq![spec_hex_digit_lower(v / 16), spec_hex_digit_lower(v % 16)]
    } else if v < 4096 {
        seq![
            spec_hex_digit_lower(v / 256),
            spec_hex_digit_lower((v / 16) % 16),
            spec_hex_digit_lower(v % 16),
        ]
    } else {
        seq![
            spec_hex_digit_lower(v / 4096),
            spec_hex_digit_lower((v / 256) % 16),
            spec_hex_digit_lower((v / 16) % 16),
            spec_hex_digit_lower(v % 16),
        ]
    }
}

/// The groups `p[from..to]` in hex, each followed by a colon except the very
/// last group of the address.
pub open spec fn spec_groups(p: Seq<u16>, from: int, to: int) -> Seq<char>
    decreases to - from,
{
    if from >= to || from < 0 {
        Seq::empty()
    } else {
        spec_hex_u16(p[from] as int) + (if from < 7 {
            seq![':']
        } else {
            Seq::<char>::empty()
        }) + spec_groups(p, from + 1, to)
    }
}

/// The canonical text of an address: hex groups joined by colons, with the
/// leftmost longest zero run of length at least two replaced by `::`.
pub open spec fn spec_ipv6_serialize(p: Seq<u16>) -> Seq<char> {
    match spec_longest_zero(p) {
        None => spec_groups(p, 0, 8),
        Some((cs, ce)) => spec_groups(p, 0, cs) + seq![':'] + (if cs == 0 {
            seq![':']
        } else {
            Seq::<char>::empty()
        }) + (if ce < 8 {
            spec_groups(p, ce, 8)
        } else {
            Seq::<char>::empty()
        }),
    }
}

/// The length of the zero run starting at `i`.
fn run_len_at(pieces: &[u16; 8], i: usize) -> (r: usize)
    requires
        i <= 8,
    ensures
        r as int == run_len(pieces@, i as int),
        i + r <= 8,
{
    let mut j: usize = i;
    while j < 8 && pieces[j] == 0
        invariant
            i <= j <= 8,
            run_len(pieces@, i as int) == j - i + run_len(pieces@, j as int),
        decreases 8 - j,
    {
        j += 1;
    }
    j - i
}

/// The start and end of the zero run that serialization compresses, if any.
pub fn longest_zero_sequence(pieces: &[u16; 8]) -> (r: Option<(usize, usize)>)
    ensures
        match r {
            Some(se) => spec_longest_zero(pieces@) == Some((se.0 as int, se.1 as int)) && se.0
                < se.1 <= 8,
            None => spec_longest_zero(pieces@) is None,
        },
{
    let mut found = false;
    let mut best_start: usize = 0;
    let mut best_len: usize = 0;
    let mut i: usize = 0;
    while i < 8
        invariant
            i <= 8,
            found ==> best_pre(pieces@, i as int) == Some(best_start as int) && best_len as int
                == run_len(pieces@, best_start as int) && best_start as int + best_len <= 8
                && best_len >= 2,
            !found ==> best_pre(pieces@, i as int) is None,
        decreases 8 - i,
    {
        let l = run_len_at(pieces, i);
        if l >= 2 && (!found || l > best_len) {
            found = true;
            best_start = i;
            best_len = l;
        }
        i += 1;
    }
    if found {
        Some((best_start, best_start + best_len))
    } else {
        None
    }
}

/// Append the lower-case hex digit for a nibble.
fn push_hex_digit(out: &mut String, d: u8)
    requires
        d < 16,
    ensures
        final(out)@ == old(out)@ + seq![spec_hex_digit_lower(d as int)],
{
    proof {
        reveal_strlit("0");
        reveal_strlit("1");
        reveal_strlit("2");
        reveal_strlit("3");
        reveal_strlit("4");
        reveal_strlit("5");
        reveal_strlit("6");
        reveal_strlit("7");
        reveal_strlit("8");
        reveal_strlit("9");
        reveal_strlit("a");
        reveal_strlit("b");
        reveal_strlit("c");
        reveal_strlit("d");
        reveal_strlit("e");
        reveal_strlit("f");
    }
    let s: &str = match d {
        0 => "0",
        1 => "1",
        2 => "2",
        3 => "3",
        4 => "4",
        5 => "5",
        6 => "6",
        7 => "7",
        8 => "8",
        9 => "9",
        10 => "a",
        11 => "b",
        12 => "c",
        13 => "d",
        14 => "e",
        _ => "f",
    };
    proof {
        assert(s@ =~= seq![spec_hex_digit_lower(d as int)]);
    }
    out.append(s);
}

/// Append a group in lower-case hex without leading zeros.
fn push_hex_u16(out: &mut String, v: u16)
    ensures
        final(out)@ == old(out)@ + spec_hex_u16(v as int),
{
    if v >= 4096 {
        push_hex_digit(out, (v / 4096) as u8);
    }
    if v >= 256 {
        push_hex_digit(out, ((v / 256) % 16) as u8);
    }
    if v >= 16 {
        push_hex_digit(out, ((v / 16) % 16) as u8);
    }
    push_hex_digit(out, (v % 16) as u8);
    proof {
        assert(out@ =~= old(out)@ + spec_hex_u16(v as int));
    }
}

proof fn lemma_groups_snoc(p: Seq<u16>, from: int, k: int)
    requires
        0 <= from <= k < 8,
        p.len() == 8,
    ensures
        spec_groups(p, from, k + 1) == spec_groups(p, from, k) + spec_hex_u16(p[k] as int) + (
        if k < 7 {
            seq![':']
        } else {
            Seq::<char>::empty()
        }),
    decreases k - from,
{
    let hf = spec_hex_u16(p[from] as int);
    let sepf = if from < 7 {
        seq![':']
    } else {
        Seq::<char>::empty()
    };
    let hk = spec_hex_u16(p[k] as int);
    let sepk = if k < 7 {
        seq![':']
    } else {
        Seq::<char>::empty()
    };
    if from == k {
        assert(spec_groups(p, from, k) == Seq::<char>::empty());
        assert(spec_groups(p, from + 1, k + 1) == Seq::<char>::empty());
        assert(spec_groups(p, from, k + 1) == hk + sepk + spec_groups(p, from + 1, k + 1));
        assert(hk + sepk + Seq::<char>::empty() =~= spec_groups(p, from, k) + hk + sepk);
    } else {
        lemma_groups_snoc(p, from + 1, k);
        assert(spec_groups(p, from, k + 1) == hf + sepf + spec_groups(p, from + 1, k + 1));
        assert(spec_groups(p, from + 1, k + 1) == spec_groups(p, from + 1, k) + hk + sepk);
        assert(spec_groups(p, from, k) == hf + sepf + spec_groups(p, from + 1, k));
        assert(hf + sepf + (spec_groups(p, from + 1, k) + hk + sepk) =~= (hf + sepf
            + spec_groups(p, from + 1, k)) + hk + sepk);
    }
}

/// Append the groups `pieces[from..to]`, colon-separated as in the full form.
fn append_groups(out: &mut String, pieces: &[u16; 8], from: usize, to: usize)
    requires
        from <= to <= 8,
    ensures
        final(out)@ == old(out)@ + spec_groups(pieces@, from as int, to as int),
{
    proof {
        reveal_strlit(":");
        assert(out@ =~= old(out)@ + spec_groups(pieces@, from as int, from as int));
    }
    let mut k: usize = from;
    while k < to
        invariant
            from <= k <= to <= 8,
            out@ == old(out)@ + spec_groups(pieces@, from as int, k as int),
        decreases to - k,
    {
        push_hex_u16(out, pieces[k]);
        if k < 7 {
            out.append(":");
        }
        proof {
            reveal_strlit(":");
            assert(":"@ =~= seq![':']);
            lemma_groups_snoc(pieces@, from as int, k as int);
            assert(out@ =~= old(out)@ + spec_groups(pieces@, from as int, k as int + 1));
        }
        k += 1;
    }
}

impl Ipv6Address {
    /// Parse the textual form of an IPv6 address (the part between the
    /// brackets of a host). Any malformed literal is rejected outright.
    pub fn parse(input: &str) -> (r: Result<Ipv6Address, ParseError>)
        ensures
            match r {
                Ok(a) => spec_ipv6_parse(input.spec_bytes()) == Some(a.pieces@),
                Err(e) => spec_ipv6_parse(input.spec_bytes()) is None && e
                    == ParseError::InvalidIpv6Address,
            },
    {
        let bytes = input.as_bytes_vec();
        parse_bytes(bytes.as_slice())
    }

    /// Serialize to canonical text: lower-case hex groups joined with `:`,
    /// the leftmost longest run of at least two zero groups compressed to
    /// `::`.
    pub fn serialize(&self) -> (r: String)
        ensures
            r@ == spec_ipv6_serialize(self.pieces@),
    {
        proof {
            reveal_strlit(":");
            assert(":"@ =~= seq![':']);
        }
        let mut out = String::new();
        match longest_zero_sequence(&self.pieces) {
            None => {
                append_groups(&mut out, &self.pieces, 0, 8);
            },
            Some((cs, ce)) => {
                append_groups(&mut out, &self.pieces, 0, cs);
                out.append(":");
                if cs == 0 {
                    out.append(":");
                }
                if ce < 8 {
                    append_groups(&mut out, &self.pieces, ce, 8);
                }
            },
        }
        proof {
            assert(out@ =~= spec_ipv6_serialize(self.pieces@));
        }
        out
    }
}

proof fn lemma_best_pre_props(p: Seq<u16>, hi: int)
    requires
        0 <= hi <= 8,
    ensures
        match best_pre(p, hi) {
            Some(b) => 0 <= b < hi && run_len(p, b) >= 2 && (forall|j: int|
                0 <= j < hi ==> run_len(p, j) <= run_len(p, b)) && (forall|j: int|
                0 <= j < b ==> run_len(p, j) < run_len(p, b)),
            None => forall|j: int| 0 <= j < hi ==> run_len(p, j) < 2,
        },
    decreases hi,
{
    if hi > 0 {
        lemma_best_pre_props(p, hi - 1);
    }
}

proof fn lemma_run_len_zeros(p: Seq<u16>, i: int, k: int)
    requires
        0 <= i <= k,
        k < i + run_len(p, i),
    ensures
        0 <= k < 8,
        k < p.len(),
        p[k] == 0,
    decreases k - i,
{
    if k > i {
        lemma_run_len_zeros(p, i + 1, k);
    }
}

/// The span that serialization compresses is a longest run of zero groups and
/// has length at least two; when no run of two zero groups exists, nothing is
/// compressed.
pub proof fn lemma_longest_zero_is_zero_run(p: Seq<u16>)
    requires
        p.len() == 8,
    ensures
        match spec_longest_zero(p) {
            Some(se) => 0 <= se.0 && se.0 + 2 <= se.1 <= 8 && (forall|k: int|
                se.0 <= k < se.1 ==> p[k] == 0) && (forall|j: int|
                0 <= j < 8 ==> run_len(p, j) <= se.1 - se.0),
            None => forall|j: int| 0 <= j < 8 ==> run_len(p, j) < 2,
        },
{
    lemma_best_pre_props(p, 8);
    match spec_longest_zero(p) {
        Some(se) => {
            assert forall|k: int| se.0 <= k < se.1 implies p[k] == 0 by {
                lemma_run_len_zeros(p, se.0, k);
            }
            if se.1 > 8 {
                lemma_run_len_zeros(p, se.0, 8);
            }
        },
        None => {
        },
    }
}

/// The bytes of an all-ASCII character sequence.
pub open spec fn ascii_bytes(s: Seq<char>) -> Seq<u8> {
    Seq::new(s.len(), |i: int| s[i] as u8)
}

proof fn lemma_hex_digit_facts(v: int)
    requires
        0 <= v < 16,
    ensures
        '\0' <= spec_hex_digit_lower(v) <= '\u{7f}',
        spec_from_hex(spec_hex_digit_lower(v) as u8) == Some(v as u8),
{
}

/// The serialized form of a group: one to four characters, all of them
/// lower-case hex digits.
proof fn lemma_hex_u16_digits(v: int)
    requires
        0 <= v < 65536,
    ensures
        1 <= spec_hex_u16(v).len() <= 4,
        forall|k: int|
            0 <= k < spec_hex_u16(v).len() ==> ('\0' <= #[trigger] spec_hex_u16(v)[k]
                <= '\u{7f}' && spec_from_hex(spec_hex_u16(v)[k] as u8) is Some),
{
    if v < 16 {
        lemma_hex_digit_facts(v);
    } else if v < 256 {
        lemma_hex_digit_facts(v / 16);
        lemma_hex_digit_facts(v % 16);
    } else if v < 4096 {
        lemma_hex_digit_facts(v / 256);
        lemma_hex_digit_facts((v / 16) % 16);
        lemma_hex_digit_facts(v % 16);
    } else {
        lemma_hex_digit_facts(v / 4096);
        lemma_hex_digit_facts((v / 256) % 16);
        lemma_hex_digit_facts((v / 16) % 16);
        lemma_hex_digit_facts(v % 16);
    }
}

/// Reading back the digit bytes of a serialized group recovers its value.
proof fn lemma_hex_value_recovers(s: Seq<u8>, i: int, v: int)
    requires
        0 <= v < 65536,
        0 <= i,
        i + spec_hex_u16(v).len() <= s.len(),
        forall|k: int|
            0 <= k < spec_hex_u16(v).len() ==> s[i + k] == #[trigger] spec_hex_u16(v)[k] as u8,
    ensures
        spec_hex_value(s, i, i + spec_hex_u16(v).len()) == v,
{
    vstd::arithmetic::div_mod::lemma_fundamental_div_mod(v, 16);
    lemma_hex_u16_digits(v);
    assert(spec_hex_value(s, i, i) == 0);
    if v < 16 {
        lemma_hex_digit_facts(v);
        assert(s[i + 0] == spec_hex_u16(v)[0] as u8);
        assert(spec_hex_u16(v)[0] == spec_hex_digit_lower(v));
        assert(spec_hex_value(s, i, i + 1) == v);
    } else if v < 256 {
        lemma_hex_digit_facts(v / 16);
        lemma_hex_digit_facts(v % 16);
        assert(s[i + 0] == spec_hex_u16(v)[0] as u8);
        assert(s[i + 1] == spec_hex_u16(v)[1] as u8);
        assert(spec_hex_u16(v)[0] == spec_hex_digit_lower(v / 16));
        assert(spec_hex_u16(v)[1] == spec_hex_digit_lower(v % 16));
        assert(spec_hex_value(s, i, i + 2) == spec_hex_value(s, i, i + 1) * 16 + (v % 16));
        assert(spec_hex_value(s, i, i + 1) == v / 16);
    } else if v < 4096 {
        lemma_hex_digit_facts(v / 256);
        lemma_hex_digit_facts((v / 16) % 16);
        lemma_hex_digit_facts(v % 16);
        vstd::arithmetic::div_mod::lemma_fundamental_div_mod(v / 16, 16);
        vstd::arithmetic::div_mod::lemma_div_denominator(v, 16, 16);
        assert(s[i + 0] == spec_hex_u16(v)[0] as u8);
        assert(s[i + 1] == spec_hex_u16(v)[1] as u8);
        assert(s[i + 2] == spec_hex_u16(v)[2] as u8);
        assert(spec_hex_u16(v)[0] == spec_hex_digit_lower(v / 256));
        assert(spec_hex_u16(v)[1] == spec_hex_digit_lower((v / 16) % 16));
        assert(spec_hex_u16(v)[2] == spec_hex_digit_lower(v % 16));
        assert(spec_hex_value(s, i, i + 1) == v / 256);
        assert(spec_hex_value(s, i, i + 2) == (v / 256) * 16 + (v / 16) % 16);
        assert((v / 256) * 16 + (v / 16) % 16 == v / 16);
        assert(spec_hex_value(s, i, i + 3) == (v / 16) * 16 + v % 16);
    } else {
        lemma_hex_digit_facts(v / 4096);
        lemma_hex_digit_facts((v / 256) % 16);
        lemma_hex_digit_facts((v / 16) % 16);
        lemma_hex_digit_facts(v % 16);
        vstd::arithmetic::div_mod::lemma_fundamental_div_mod(v / 16, 16);
        vstd::arithmetic::div_mod::lemma_fundamental_div_mod(v / 256, 16);
        vstd::arithmetic::div_mod::lemma_div_denominator(v, 16, 16);
        vstd::arithmetic::div_mod::lemma_div_denominator(v, 256, 16);
        assert((v / 16) / 16 == v / 256);
        assert((v / 256) / 16 == v / 4096);
        assert(s[i + 0] == spec_hex_u16(v)[0] as u8);
        assert(s[i + 1] == spec_hex_u16(v)[1] as u8);
        assert(s[i + 2] == spec_hex_u16(v)[2] as u8);
        assert(s[i + 3] == spec_hex_u16(v)[3] as u8);
        assert(spec_hex_u16(v)[0] == spec_hex_digit_lower(v / 4096));
        assert(spec_hex_u16(v)[1] == spec_hex_digit_lower((v / 256) % 16));
        assert(spec_hex_u16(v)[2] == spec_hex_digit_lower((v / 16) % 16));
        assert(spec_hex_u16(v)[3] == spec_hex_digit_lower(v % 16));
        assert(spec_hex_value(s, i, i + 1) == v / 4096);
        assert(spec_hex_value(s, i, i + 2) == (v / 4096) * 16 + (v / 256) % 16);
        assert((v / 4096) * 16 + (v / 256) % 16 == v / 256);
        assert(spec_hex_value(s, i, i + 3) == (v / 256) * 16 + (v / 16) % 16);
        assert((v / 256) * 16 + (v / 16) % 16 == v / 16);
        assert(spec_hex_value(s, i, i + 4) == (v / 16) * 16 + v % 16);
    }
}

/// A hex run stops exactly at the first non-digit byte or at its cap.
proof fn lemma_hex_run_stops(s: Seq<u8>, i: int, j: int, end: int)
    requires
        0 <= i <= j <= end,
        end <= s.len(),
        forall|k: int| i <= k < j ==> spec_from_hex(s[k]) is Some,
        j == end || spec_from_hex(s[j]) is None,
    ensures
        spec_hex_run_end(s, i, end) == j,
    decreases j - i,
{
    if i < j {
        lemma_hex_run_stops(s, i + 1, j, end);
    }
}

proof fn lemma_ascii_bytes_encode(sc: Seq<char>)
    requires
        vstd::utf8::is_ascii_chars(sc),
    ensures
        vstd::utf8::encode_utf8(sc) == ascii_bytes(sc),
{
    vstd::utf8::is_ascii_chars_encode_utf8(sc);
    assert(vstd::utf8::encode_utf8(sc) =~= ascii_bytes(sc));
}

/// `pieces` with `p[k0..k1]` written at the window starting at `w`.
pub open spec fn write_range(pieces: Seq<u16>, p: Seq<u16>, k0: int, k1: int, w: int) -> Seq<
    u16,
> {
    Seq::new(
        pieces.len(),
        |t: int|
            if w <= t < w + (k1 - k0) {
                p[t - w + k0]
            } else {
                pieces[t]
            },
    )
}

/// The group range text: at least one character per group, all of them ASCII,
/// and every character is a hex digit or a colon.
proof fn lemma_groups_text(p: Seq<u16>, from: int, to: int)
    requires
        p.len() == 8,
        0 <= from <= to <= 8,
    ensures
        spec_groups(p, from, to).len() >= to - from,
        forall|k: int|
            0 <= k < spec_groups(p, from, to).len() ==> '\0' <= #[trigger] spec_groups(
                p,
                from,
                to,
            )[k] <= '\u{7f}',
    decreases to - from,
{
    if from < to {
        lemma_groups_text(p, from + 1, to);
        lemma_hex_u16_digits(p[from] as int);
        let g = spec_hex_u16(p[from] as int);
        let sep: Seq<char> = if from < 7 {
            seq![':']
        } else {
            Seq::<char>::empty()
        };
        let rest = spec_groups(p, from + 1, to);
        assert(spec_groups(p, from, to) == g + sep + rest);
        assert forall|k: int|
            0 <= k < spec_groups(p, from, to).len() implies '\0' <= #[trigger] spec_groups(
            p,
            from,
            to,
        )[k] <= '\u{7f}' by {
            if k < g.len() {
                assert(spec_groups(p, from, to)[k] == g[k]);
            } else if k < g.len() + sep.len() {
                assert(spec_groups(p, from, to)[k] == ':');
            } else {
                assert(spec_groups(p, from, to)[k] == rest[k - g.len() - sep.len()]);
            }
        }
    }
}

/// Parsing the text of the groups `p[k0..k1]` writes exactly those groups at
/// the window starting at `w` and moves the read index past the text.
#[verifier::rlimit(100)]
proof fn lemma_parse_groups(
    s: Seq<u8>,
    p: Seq<u16>,
    pieces: Seq<u16>,
    k0: int,
    k1: int,
    w: int,
    cp: Option<int>,
    i: int,
)
    requires
        p.len() == 8,
        pieces.len() == 8,
        0 <= k0 <= k1 <= 8,
        0 <= w,
        w + (k1 - k0) <= 8,
        0 <= i,
        i + spec_groups(p, k0, k1).len() <= s.len(),
        s.subrange(i, i + spec_groups(p, k0, k1).len()) == ascii_bytes(spec_groups(p, k0, k1)),
        k1 < 8 ==> i + spec_groups(p, k0, k1).len() < s.len(),
        k1 == 8 ==> i + spec_groups(p, k0, k1).len() == s.len(),
    ensures
        spec_main_loop(s, pieces, w, cp, i) == spec_main_loop(
            s,
            write_range(pieces, p, k0, k1, w),
            w + (k1 - k0),
            cp,
            i + spec_groups(p, k0, k1).len(),
        ),
    decreases k1 - k0,
{
    let text = spec_groups(p, k0, k1);
    let ll = text.len();
    if k0 == k1 {
        assert(ll == 0);
        assert(write_range(pieces, p, k0, k1, w) =~= pieces);
    } else {
        let v = p[k0] as int;
        lemma_hex_u16_digits(v);
        let g = spec_hex_u16(v);
        let l = g.len() as int;
        let sep: Seq<char> = if k0 < 7 {
            seq![':']
        } else {
            Seq::<char>::empty()
        };
        let rest = spec_groups(p, k0 + 1, k1);
        assert(text == g + sep + rest);
        assert(ll == l + sep.len() + rest.len());
        assert forall|t: int| 0 <= t < ll implies s[i + t] == text[t] as u8 by {
            assert(s.subrange(i, i + ll)[t] == s[i + t]);
            assert(ascii_bytes(text)[t] == text[t] as u8);
        }
        assert forall|t: int| 0 <= t < l implies s[i + t] == #[trigger] g[t] as u8
            && spec_from_hex(s[i + t]) is Some by {
            assert(text[t] == g[t]);
            assert(s[i + t] == text[t] as u8);
        }
        // the byte after the digits: a colon separator, or the end of input
        if k0 < 7 {
            assert(text[l] == ':');
            assert(s[i + l] == ':' as u8);
            assert(s[i + l] == 0x3A);
        } else {
            assert(k0 == 7 && k1 == 8);
            assert(rest.len() == 0 && sep.len() == 0);
            assert(i + l == s.len());
        }
        // the hex run covers exactly the digits
        let end: int = if i + 4 <= s.len() {
            i + 4
        } else {
            s.len() as int
        };
        assert(spec_from_hex(0x3Au8) is None);
        assert forall|k: int| i <= k < i + l implies spec_from_hex(s[k]) is Some by {
            assert(s[i + (k - i)] == g[k - i] as u8 && spec_from_hex(s[i + (k - i)]) is Some);
        }
        lemma_hex_run_stops(s, i, i + l, end);
        assert(spec_hex_run_end(s, i, end) == i + l);
        lemma_hex_value_recovers(s, i, v);
        assert(spec_hex_value(s, i, i + l) == v);
        // the first byte is a hex digit, so the loop takes the group branch
        assert(s[i] == g[0] as u8);
        assert(spec_from_hex(s[i]) is Some);
        assert(s[i] != 0x3A);
        assert(s[i] != 0x2E) by {
            assert(spec_from_hex(0x2Eu8) is None);
        }
        let pieces2 = pieces.update(w, p[k0]);
        if k0 < 7 {
            // separator consumed; more groups or the caller's continuation
            assert(i + l + 1 < s.len());
            assert(spec_main_loop(s, pieces, w, cp, i) == spec_main_loop(
                s,
                pieces2,
                w + 1,
                cp,
                i + l + 1,
            ));
            assert(s.subrange(i + l + 1, i + l + 1 + rest.len()) =~= ascii_bytes(rest)) by {
                assert forall|t: int| 0 <= t < rest.len() implies s.subrange(
                    i + l + 1,
                    i + l + 1 + rest.len(),
                )[t] == ascii_bytes(rest)[t] by {
                    assert(text[l + 1 + t] == rest[t]);
                    assert(s[i + l + 1 + t] == text[l + 1 + t] as u8);
                }
            }
            lemma_parse_groups(s, p, pieces2, k0 + 1, k1, w + 1, cp, i + l + 1);
            assert(write_range(pieces2, p, k0 + 1, k1, w + 1) =~= write_range(
                pieces,
                p,
                k0,
                k1,
                w,
            ));
        } else {
            // last group of the address: the text ends exactly here
            assert(spec_main_loop(s, pieces, w, cp, i) == Some(
                (pieces2, w + 1, cp),
            ));
            assert(write_range(pieces, p, k0, k1, w) =~= pieces2);
            assert(spec_main_loop(s, write_range(pieces, p, k0, k1, w), w + 1, cp, i + ll)
                == Some((write_range(pieces, p, k0, k1, w), w + 1, cp)));
        }
    }
}

/// Round trip: the canonical text of any address is ASCII, and parsing that
/// text back yields exactly the same eight groups.
#[verifier::rlimit(100)]
pub proof fn lemma_ipv6_round_trip(p: Seq<u16>)
    requires
        p.len() == 8,
    ensures
        vstd::utf8::is_ascii_chars(spec_ipv6_serialize(p)),
        spec_ipv6_parse(vstd::utf8::encode_utf8(spec_ipv6_serialize(p))) == Some(p),
{
    let text = spec_ipv6_serialize(p);
    lemma_longest_zero_is_zero_run(p);
    match spec_longest_zero(p) {
        None => {
            assert(text == spec_groups(p, 0, 8));
            lemma_groups_text(p, 0, 8);
            assert(vstd::utf8::is_ascii_chars(text));
            lemma_ascii_bytes_encode(text);
            let b = ascii_bytes(text);
            lemma_hex_u16_digits(p[0] as int);
            let g = spec_hex_u16(p[0] as int);
            assert(text == g + seq![':'] + spec_groups(p, 1, 8));
            assert(text[0] == g[0]);
            assert(b[0] == g[0] as u8);
            assert(spec_from_hex(0x3Au8) is None);
            assert(b[0] != 0x3A);
            assert(b.subrange(0, text.len() as int) =~= ascii_bytes(text));
            lemma_parse_groups(b, p, zero_pieces(), 0, 8, 0, None, 0);
            let q = write_range(zero_pieces(), p, 0, 8, 0);
            assert(spec_main_loop(b, q, 8, None, b.len() as int) == Some(
                (q, 8int, None::<int>),
            ));
            assert(q =~= p);
            assert(spec_ipv6_parse(b) == spec_finish(p, 8, None));
            assert(spec_finish(p, 8, None) == Some(p));
        },
        Some((cs, ce)) => {
            let head = spec_groups(p, 0, cs);
            let colon2: Seq<char> = if cs == 0 {
                seq![':']
            } else {
                Seq::<char>::empty()
            };
            let tail: Seq<char> = if ce < 8 {
                spec_groups(p, ce, 8)
            } else {
                Seq::<char>::empty()
            };
            assert(text == head + seq![':'] + colon2 + tail);
            lemma_groups_text(p, 0, cs);
            if ce < 8 {
                lemma_groups_text(p, ce, 8);
            }
            assert forall|k: int| 0 <= k < text.len() implies '\0' <= #[trigger] text[k]
                <= '\u{7f}' by {
                if k < head.len() {
                    assert(text[k] == head[k]);
                } else if k < head.len() + 1 {
                    assert(text[k] == ':');
                } else if k < head.len() + 1 + colon2.len() {
                    assert(text[k] == ':');
                } else {
                    assert(text[k] == tail[k - head.len() - 1 - colon2.len()]);
                }
            }
            assert(vstd::utf8::is_ascii_chars(text));
            lemma_ascii_bytes_encode(text);
            let b = ascii_bytes(text);
            assert forall|t: int| 0 <= t < text.len() implies b[t] == text[t] as u8 by {}
            let hl = head.len() as int;
            assert(b[hl] == 0x3A) by {
                assert(text[hl] == ':');
            }
            if cs == 0 {
                // the text begins with the two compression colons
                assert(hl == 0);
                assert(text[1] == ':');
                assert(b[0] == 0x3A && b[1] == 0x3A);
                if ce == 8 {
                    // the whole address is zero and the text is just `::`
                    assert(text.len() == 2);
                    assert(spec_main_loop(b, zero_pieces(), 1, Some(1), 2) == Some(
                        (zero_pieces(), 1int, Some(1int)),
                    ));
                    assert(spec_ipv6_parse(b) == spec_finish(zero_pieces(), 1, Some(1)));
                    assert(zero_pieces().subrange(0, 1) + Seq::new(7nat, |k: int| 0u16)
                        + zero_pieces().subrange(1, 1) =~= p);
                } else {
                    let tl = tail.len() as int;
                    assert forall|t: int| 0 <= t < tl implies b.subrange(2, 2 + tl)[t]
                        == ascii_bytes(tail)[t] by {
                        assert(text[2 + t] == tail[t]);
                    }
                    assert(b.subrange(2, 2 + tl) =~= ascii_bytes(tail));
                    assert(2 + tl == b.len());
                    lemma_parse_groups(b, p, zero_pieces(), ce, 8, 1, Some(1), 2);
                    let q = write_range(zero_pieces(), p, ce, 8, 1);
                    let pp = 1 + 8 - ce;
                    assert(spec_main_loop(b, q, pp, Some(1), b.len() as int) == Some(
                        (q, pp, Some(1int)),
                    ));
                    assert(spec_ipv6_parse(b) == spec_finish(q, pp, Some(1)));
                    assert(q.subrange(0, 1) + Seq::new((8 - pp) as nat, |k: int| 0u16)
                        + q.subrange(1, pp) =~= p);
                }
            } else {
                // groups before the run, then the extra colon of `::`
                lemma_hex_u16_digits(p[0] as int);
                let g = spec_hex_u16(p[0] as int);
                assert(head == g + seq![':'] + spec_groups(p, 1, cs));
                assert(text[0] == head[0] && head[0] == g[0]);
                assert(b[0] == g[0] as u8);
                assert(spec_from_hex(0x3Au8) is None);
                assert(b[0] != 0x3A);
                assert forall|t: int| 0 <= t < hl implies b.subrange(0, hl)[t] == ascii_bytes(
                    head,
                )[t] by {
                    assert(text[t] == head[t]);
                }
                assert(b.subrange(0, hl) =~= ascii_bytes(head));
                assert(hl < b.len());
                lemma_parse_groups(b, p, zero_pieces(), 0, cs, 0, None, 0);
                let q1 = write_range(zero_pieces(), p, 0, cs, 0);
                // the loop meets the second colon and records the compression
                assert(cs <= 6);
                assert(spec_main_loop(b, q1, cs, None, hl) == spec_main_loop(
                    b,
                    q1,
                    cs + 1,
                    Some(cs + 1),
                    hl + 1,
                ));
                if ce == 8 {
                    assert(text.len() == hl + 1);
                    assert(spec_main_loop(b, q1, cs + 1, Some(cs + 1), hl + 1) == Some(
                        (q1, cs + 1, Some(cs + 1)),
                    ));
                    assert(spec_ipv6_parse(b) == spec_finish(q1, cs + 1, Some(cs + 1)));
                    assert(q1.subrange(0, cs + 1) + Seq::new((7 - cs) as nat, |k: int| 0u16)
                        + q1.subrange(cs + 1, cs + 1) =~= p);
                } else {
                    let tl = tail.len() as int;
                    assert forall|t: int| 0 <= t < tl implies b.subrange(hl + 1, hl + 1 + tl)[t]
                        == ascii_bytes(tail)[t] by {
                        assert(text[hl + 1 + t] == tail[t]);
                    }
                    assert(b.subrange(hl + 1, hl + 1 + tl) =~= ascii_bytes(tail));
                    assert(hl + 1 + tl == b.len());
                    lemma_parse_groups(b, p, q1, ce, 8, cs + 1, Some(cs + 1), hl + 1);
                    let q2 = write_range(q1, p, ce, 8, cs + 1);
                    let pp = cs + 1 + 8 - ce;
                    assert(spec_main_loop(b, q2, pp, Some(cs + 1), b.len() as int) == Some(
                        (q2, pp, Some(cs + 1)),
                    ));
                    assert(spec_ipv6_parse(b) == spec_finish(q2, pp, Some(cs + 1)));
                    assert(q2.subrange(0, cs + 1) + Seq::new((8 - pp) as nat, |k: int| 0u16)
                        + q2.subrange(cs + 1, pp) =~= p);
                }
            }
        },
    }
}

/// Zero-run tie-break: any zero run at least as long as the compressed one
/// starts at or to the right of it, so of two equal-length runs only the
/// leftmost is compressed.
pub proof fn lemma_zero_run_tie_break(p: Seq<u16>, i: int)
    requires
        p.len() == 8,
        0 <= i < 8,
        spec_longest_zero(p) is Some,
        run_len(p, i) >= spec_longest_zero(p).unwrap().1 - spec_longest_zero(p).unwrap().0,
    ensures
        i >= spec_longest_zero(p).unwrap().0,
{
    lemma_best_pre_props(p, 8);
}

} // verus!
