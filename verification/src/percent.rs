//! The percent-encoding engine: pure byte-level encoding under a small set of
//! named encode-set policies, and percent-decoding that never fails.
#![allow(unused_imports)]
use vstd::prelude::*;

verus! {

/// A named encode-set policy. Each set encodes every character of the sets
/// before it, plus some additional ones: Simple is contained in Default,
/// Default in UserInfo, UserInfo in Password, Password in Username.
#[derive(Clone, Copy, Debug, PartialEq, Eq, Structural)]
pub enum EncodeSet {
    SimpleEncodeSet,
    DefaultEncodeSet,
    UserInfoEncodeSet,
    PasswordEncodeSet,
    UsernameEncodeSet,
}

/// The value of an ASCII hex digit (either case), or `None` for any other byte.
pub open spec fn spec_from_hex(byte: u8) -> Option<u8> {
    if 0x30 <= byte && byte <= 0x39 {
        Some((byte - 0x30) as u8)
    } else if 0x41 <= byte && byte <= 0x46 {
        Some((byte - 0x41 + 10) as u8)
    } else if 0x61 <= byte && byte <= 0x66 {
        Some((byte - 0x61 + 10) as u8)
    } else {
        None
    }
}

/// The upper-case ASCII hex digit for a nibble value.
pub open spec fn spec_to_hex_upper(value: u8) -> u8
    recommends
        value < 16,
{
    if value < 10 {
        (0x30 + value) as u8
    } else {
        (0x41 + value - 10) as u8
    }
}

pub fn from_hex(byte: u8) -> (r: Option<u8>)
    ensures
        r == spec_from_hex(byte),
{
    if 0x30 <= byte && byte <= 0x39 {
        Some(byte - 0x30)
    } else if 0x41 <= byte && byte <= 0x46 {
        Some(byte - 0x41 + 10)
    } else if 0x61 <= byte && byte <= 0x66 {
        Some(byte - 0x61 + 10)
    } else {
        None
    }
}

/// Nibble values outside 0..16 never arise from correct callers, so the
/// conversion demands an in-range value instead of reporting an error.
pub fn to_hex_upper(value: u8) -> (r: u8)
    requires
        value < 16,
    ensures
        r == spec_to_hex_upper(value),
{
    if value < 10 {
        0x30 + value
    } else {
        0x41 + value - 10
    }
}

/// The characters that the Default set adds over Simple: space, `"`, `#`,
/// `<`, `>`, `?` and the backquote.
pub open spec fn in_default_extra(byte: u8) -> bool {
    byte == 0x20 || byte == 0x22 || byte == 0x23 || byte == 0x3C || byte == 0x3E || byte == 0x3F
        || byte == 0x60
}

/// Whether a byte must be percent-encoded under a policy. Control bytes and
/// bytes above the printable ASCII range are always encoded.
pub open spec fn spec_needs_encoding(byte: u8, set: EncodeSet) -> bool {
    ||| byte < 0x20
    ||| byte > 0x7E
    ||| (in_default_extra(byte) && !(set is SimpleEncodeSet))
    ||| (byte == 0x40 && (set is UserInfoEncodeSet || set is PasswordEncodeSet
        || set is UsernameEncodeSet))
    ||| ((byte == 0x2F || byte == 0x5C) && (set is PasswordEncodeSet || set is UsernameEncodeSet))
    ||| (byte == 0x3A && set is UsernameEncodeSet)
}

pub fn needs_encoding(byte: u8, set: EncodeSet) -> (r: bool)
    ensures
        r == spec_needs_encoding(byte, set),
{
    if byte < 0x20 || byte > 0x7E {
        true
    } else {
        match byte {
            0x20 | 0x22 | 0x23 | 0x3C | 0x3E | 0x3F | 0x60 => !matches!(
                set,
                EncodeSet::SimpleEncodeSet,
            ),
            0x40 => matches!(
                set,
                EncodeSet::UserInfoEncodeSet
                    | EncodeSet::PasswordEncodeSet
                    | EncodeSet::UsernameEncodeSet,
            ),
            0x2F | 0x5C => matches!(
                set,
                EncodeSet::PasswordEncodeSet | EncodeSet::UsernameEncodeSet,
            ),
            0x3A => matches!(set, EncodeSet::UsernameEncodeSet),
            _ => false,
        }
    }
}

/// What one byte contributes to the encoded output: `%XX` with upper-case hex
/// digits when the policy encodes it, the byte itself otherwise.
pub open spec fn spec_encode_byte(byte: u8, set: EncodeSet) -> Seq<u8> {
    if spec_needs_encoding(byte, set) {
        seq![0x25u8, spec_to_hex_upper(byte / 16), spec_to_hex_upper(byte % 16)]
    } else {
        seq![byte]
    }
}

/// The percent-encoding of a byte string under a policy.
pub open spec fn spec_percent_encode(s: Seq<u8>, set: EncodeSet) -> Seq<u8>
    decreases s.len(),
{
    if s.len() == 0 {
        Seq::empty()
    } else {
        spec_encode_byte(s[0], set) + spec_percent_encode(s.skip(1), set)
    }
}

/// The percent-decoding of a byte string: a `%` followed by two hex digits
/// becomes the corresponding byte; every other byte, including a `%` without
/// two valid hex digits after it, passes through unchanged.
pub open spec fn spec_percent_decode(s: Seq<u8>) -> Seq<u8>
    decreases s.len(),
{
    if s.len() == 0 {
        Seq::empty()
    } else if s[0] == 0x25 && s.len() >= 3 && spec_from_hex(s[1]) is Some && spec_from_hex(
        s[2],
    ) is Some {
        seq![(spec_from_hex(s[1]).unwrap() * 16 + spec_from_hex(s[2]).unwrap()) as u8]
            + spec_percent_decode(s.skip(3))
    } else {
        seq![s[0]] + spec_percent_decode(s.skip(1))
    }
}

/// The encode sets are nested: every byte the Simple set encodes is encoded
/// by Default, every byte Default encodes by UserInfo, and so on through
/// Password and Username; control bytes and bytes above the printable ASCII
/// range are encoded under every policy.
pub proof fn lemma_encode_sets_nested(byte: u8)
    ensures
        spec_needs_encoding(byte, EncodeSet::SimpleEncodeSet) ==> spec_needs_encoding(
            byte,
            EncodeSet::DefaultEncodeSet,
        ),
        spec_needs_encoding(byte, EncodeSet::DefaultEncodeSet) ==> spec_needs_encoding(
            byte,
            EncodeSet::UserInfoEncodeSet,
        ),
        spec_needs_encoding(byte, EncodeSet::UserInfoEncodeSet) ==> spec_needs_encoding(
            byte,
            EncodeSet::PasswordEncodeSet,
        ),
        spec_needs_encoding(byte, EncodeSet::PasswordEncodeSet) ==> spec_needs_encoding(
            byte,
            EncodeSet::UsernameEncodeSet,
        ),
        byte < 0x20 || byte > 0x7E ==> forall|set: EncodeSet| spec_needs_encoding(byte, set),
{
}

/// Append `%XX` for one byte, with upper-case hex digits.
pub fn percent_encode_byte(byte: u8, output: &mut Vec<u8>)
    ensures
        final(output)@ == old(output)@ + seq![
            0x25u8,
            spec_to_hex_upper(byte / 16),
            spec_to_hex_upper(byte % 16),
        ],
{
    output.push(0x25);
    output.push(to_hex_upper(byte / 16));
    output.push(to_hex_upper(byte % 16));
    proof {
        assert(output@ =~= old(output)@ + seq![
            0x25u8,
            spec_to_hex_upper(byte / 16),
            spec_to_hex_upper(byte % 16),
        ]);
    }
}

/// Percent-encode a byte string under the given policy.
pub fn percent_encode_bytes(input: &[u8], set: EncodeSet) -> (r: Vec<u8>)
    ensures
        r@ == spec_percent_encode(input@, set),
{
    let mut out: Vec<u8> = Vec::new();
    let mut i: usize = 0;
    proof {
        assert(input@.skip(0) =~= input@);
        assert(out@ + spec_percent_encode(input@, set) =~= spec_percent_encode(input@, set));
    }
    while i < input.len()
        invariant
            i <= input@.len(),
            out@ + spec_percent_encode(input@.skip(i as int), set) == spec_percent_encode(
                input@,
                set,
            ),
        decreases input@.len() - i,
    {
        proof {
            assert(input@.skip(i as int).skip(1) =~= input@.skip(i as int + 1));
            assert(input@.skip(i as int)[0] == input@[i as int]);
        }
        let byte = input[i];
        if needs_encoding(byte, set) {
            percent_encode_byte(byte, &mut out);
        } else {
            out.push(byte);
        }
        i += 1;
        proof {
            assert(out@ + spec_percent_encode(input@.skip(i as int), set) =~= spec_percent_encode(
                input@,
                set,
            ));
        }
    }
    proof {
        assert(input@.skip(i as int) =~= Seq::<u8>::empty());
        assert(out@ =~= spec_percent_encode(input@, set));
    }
    out
}

/// Round trip: decoding undoes encoding, under every policy, for every byte
/// string that holds no literal `%` (a literal `%` is never encoded, so on
/// decoding it can absorb hex digits that follow it).
pub proof fn lemma_percent_round_trip(s: Seq<u8>, set: EncodeSet)
    requires
        forall|k: int| 0 <= k < s.len() ==> s[k] != 0x25,
    ensures
        spec_percent_decode(spec_percent_encode(s, set)) == s,
    decreases s.len(),
{
    if s.len() == 0 {
        assert(spec_percent_decode(spec_percent_encode(s, set)) =~= s);
    } else {
        assert(forall|k: int| 0 <= k < s.skip(1).len() ==> s.skip(1)[k] != 0x25);
        lemma_percent_round_trip(s.skip(1), set);
        let b = s[0];
        let e0 = spec_encode_byte(b, set);
        let rest = spec_percent_encode(s.skip(1), set);
        let whole = spec_percent_encode(s, set);
        assert(whole == e0 + rest);
        if spec_needs_encoding(b, set) {
            vstd::arithmetic::div_mod::lemma_fundamental_div_mod(b as int, 16);
            assert(whole[0] == 0x25);
            assert(whole[1] == spec_to_hex_upper(b / 16));
            assert(whole[2] == spec_to_hex_upper(b % 16));
            assert(spec_from_hex(spec_to_hex_upper(b / 16)) == Some((b / 16) as u8));
            assert(spec_from_hex(spec_to_hex_upper(b % 16)) == Some((b % 16) as u8));
            assert(whole.skip(3) =~= rest);
            assert(spec_percent_decode(whole) == seq![b] + spec_percent_decode(rest));
            assert(seq![b] + s.skip(1) =~= s);
        } else {
            assert(whole[0] == b);
            assert(b != 0x25);
            assert(whole.skip(1) =~= rest);
            assert(spec_percent_decode(whole) == seq![b] + spec_percent_decode(rest));
            assert(seq![b] + s.skip(1) =~= s);
        }
    }
}

/// Percent-decode a byte string. Decoding is total: malformed escapes degrade
/// to literal bytes.
pub fn percent_decode(input: &[u8]) -> (r: Vec<u8>)
    ensures
        r@ == spec_percent_decode(input@),
{
    let mut out: Vec<u8> = Vec::new();
    let mut i: usize = 0;
    proof {
        assert(input@.skip(0) =~= input@);
        assert(out@ + spec_percent_decode(input@) =~= spec_percent_decode(input@));
    }
    while i < input.len()
        invariant
            i <= input@.len(),
            out@ + spec_percent_decode(input@.skip(i as int)) == spec_percent_decode(input@),
        decreases input@.len() - i,
    {
        proof {
            assert(input@.skip(i as int).skip(1) =~= input@.skip(i as int + 1));
            assert(input@.skip(i as int)[0] == input@[i as int]);
        }
        let c = input[i];
        let mut stepped = false;
        if c == 0x25 && input.len() - i > 2 {
            proof {
                assert(input@.skip(i as int).skip(3) =~= input@.skip(i as int + 3));
                assert(input@.skip(i as int)[1] == input@[i as int + 1]);
                assert(input@.skip(i as int)[2] == input@[i as int + 2]);
            }
            let h = from_hex(input[i + 1]);
            let l = from_hex(input[i + 2]);
            if h.is_some() && l.is_some() {
                out.push(h.unwrap() * 16 + l.unwrap());
                i += 3;
                stepped = true;
            }
        }
        if !stepped {
            out.push(c);
            i += 1;
        }
        proof {
            assert(out@ + spec_percent_decode(input@.skip(i as int)) =~= spec_percent_decode(
                input@,
            ));
        }
    }
    proof {
        assert(input@.skip(i as int) =~= Seq::<u8>::empty());
        assert(out@ =~= spec_percent_decode(input@));
    }
    out
}

} // verus!
