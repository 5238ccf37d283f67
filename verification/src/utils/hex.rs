//! Hexadecimal encoding of byte strings with a `0x` prefix.

use vstd::prelude::*;
use vstd::string::StringSliceAdditionalSpecFns;

verus! {

/// `String::push`: appends one character.
#[verifier::external_body]
pub(crate) fn push_char(s: &mut String, c: char)
    ensures
        final(s)@ == old(s)@.push(c),
{
    s.push(c);
}

/// Errors raised when parsing hexadecimal data.
#[derive(Debug, Clone, PartialEq, Eq)]
pub enum HexParseError {
    /// The input, prefix included, does not have the expected length.
    InvalidLength { expected: usize, actual: usize },
    /// The input does not start with `0x`.
    MissingPrefix,
    /// The input holds a character outside `[0-9a-fA-F]`.
    InvalidChar,
    /// A decoded field element is not below the field modulus.
    OutOfRange,
}

/// The lowercase hexadecimal digit of `n < 16`.
pub open spec fn hex_digit(n: nat) -> char {
    if n < 10 {
        ((n + 48) as u8) as char
    } else {
        ((n + 87) as u8) as char
    }
}

/// Two lowercase hexadecimal digits per byte, most significant digit first.
pub open spec fn hex_chars(bytes: Seq<u8>) -> Seq<char>
    decreases bytes.len(),
{
    if bytes.len() == 0 {
        Seq::empty()
    } else {
        seq![hex_digit(bytes[0] as nat / 16), hex_digit(bytes[0] as nat % 16)] + hex_chars(bytes.drop_first())
    }
}

/// The `0x`-prefixed lowercase hexadecimal string of `bytes`.
pub open spec fn hex_string(bytes: Seq<u8>) -> Seq<char> {
    seq!['0', 'x'] + hex_chars(bytes)
}

/// The value of a hexadecimal digit given as an ASCII byte.
pub open spec fn hex_value(c: u8) -> Option<u8> {
    if 48 <= c <= 57 {
        Some((c - 48) as u8)
    } else if 97 <= c <= 102 {
        Some((c - 87) as u8)
    } else if 65 <= c <= 70 {
        Some((c - 55) as u8)
    } else {
        None
    }
}

/// The bytes encoded by the hexadecimal digits `s` (two digits per byte), assuming all are valid.
pub open spec fn decode_hex_digits(s: Seq<u8>) -> Seq<u8> {
    Seq::new(s.len() / 2, |i: int| (hex_value(s[2 * i]).unwrap() * 16 + hex_value(s[2 * i + 1]).unwrap()) as u8)
}

/// Parsing of `0x`-prefixed hexadecimal text of `n` bytes.
pub open spec fn hex_to_bytes_spec(s: Seq<u8>, n: nat) -> Result<Seq<u8>, HexParseError> {
    if s.len() != 2 * n + 2 {
        Err(HexParseError::InvalidLength { expected: (2 * n + 2) as usize, actual: s.len() as usize })
    } else if s[0] != 48u8 || s[1] != 120u8 {
        Err(HexParseError::MissingPrefix)
    } else if exists|i: int| 2 <= i < s.len() && hex_value(#[trigger] s[i]) is None {
        Err(HexParseError::InvalidChar)
    } else {
        Ok(decode_hex_digits(s.subrange(2, s.len() as int)))
    }
}

/// The lowercase hexadecimal digit of `n < 16`.
fn hex_digit_exec(n: u8) -> (c: char)
    requires
        n < 16,
    ensures
        c == hex_digit(n as nat),
{
    if n < 10 {
        (n + 48) as char
    } else {
        (n + 87) as char
    }
}

/// Two digits per byte.
pub(crate) proof fn lemma_hex_chars_len(b: Seq<u8>)
    ensures
        hex_chars(b).len() == 2 * b.len(),
    decreases b.len(),
{
    if b.len() > 0 {
        lemma_hex_chars_len(b.drop_first());
    }
}

/// The digits of a concatenation are the concatenation of the digits.
proof fn lemma_hex_chars_append(a: Seq<u8>, b: Seq<u8>)
    ensures
        hex_chars(a + b) == hex_chars(a) + hex_chars(b),
    decreases a.len(),
{
    if a.len() == 0 {
        assert(a + b =~= b);
    } else {
        lemma_hex_chars_append(a.drop_first(), b);
        assert((a + b).drop_first() =~= a.drop_first() + b);
    }
}

/// Appends two hexadecimal digits per byte.
pub(crate) fn push_hex_chars(s: &mut String, data: &[u8])
    ensures
        final(s)@ == old(s)@ + hex_chars(data@),
{
    let ghost start = s@;
    let mut i: usize = 0;
    while i < data.len()
        invariant
            0 <= i <= data@.len(),
            s@ == start + hex_chars(data@.subrange(0, i as int)),
        decreases data@.len() - i,
    {
        let b = data[i];
        push_char(s, hex_digit_exec(b / 16));
        push_char(s, hex_digit_exec(b % 16));
        proof {
            let pre = data@.subrange(0, i as int);
            assert(data@.subrange(0, i + 1) =~= pre + seq![b]);
            lemma_hex_chars_append(pre, seq![b]);
            assert(seq![b].drop_first() =~= Seq::<u8>::empty());
            reveal_with_fuel(hex_chars, 2);
            assert(hex_chars(seq![b]) =~= seq![hex_digit(b as nat / 16), hex_digit(b as nat % 16)]);
            assert(s@ =~= start + hex_chars(data@.subrange(0, i + 1)));
        }
        i = i + 1;
    }
    assert(data@.subrange(0, data@.len() as int) =~= data@);
}

/// Formats `data` as a `0x`-prefixed lowercase hexadecimal string.
pub fn bytes_to_hex_string(data: &[u8]) -> (s: String)
    ensures
        s@ == hex_string(data@),
{
    let mut s = String::new();
    push_char(&mut s, '0');
    push_char(&mut s, 'x');
    push_hex_chars(&mut s, data);
    assert(s@ =~= hex_string(data@));
    s
}

/// The value of one hexadecimal digit.
fn hex_value_exec(c: u8) -> (r: Option<u8>)
    ensures
        r == hex_value(c),
{
    if 48 <= c && c <= 57 {
        Some(c - 48)
    } else if 97 <= c && c <= 102 {
        Some(c - 87)
    } else if 65 <= c && c <= 70 {
        Some(c - 55)
    } else {
        None
    }
}

/// Parses `0x`-prefixed hexadecimal text into exactly `n` bytes.
pub fn hex_to_bytes(value: &str, n: usize) -> (r: Result<Vec<u8>, HexParseError>)
    requires
        n < 0x4000_0000,
    ensures
        r matches Ok(v) ==> hex_to_bytes_spec(value.spec_bytes(), n as nat) == Ok::<Seq<u8>, HexParseError>(v@),
        r matches Err(e) ==> hex_to_bytes_spec(value.spec_bytes(), n as nat) == Err::<Seq<u8>, HexParseError>(e),
{
    let bytes = value.as_bytes();
    let expected: usize = n * 2 + 2;
    if bytes.len() != expected {
        return Err(HexParseError::InvalidLength { expected, actual: bytes.len() });
    }
    if bytes[0] != 48u8 || bytes[1] != 120u8 {
        return Err(HexParseError::MissingPrefix);
    }
    let ghost digits = bytes@.subrange(2, bytes@.len() as int);
    let mut decoded: Vec<u8> = Vec::new();
    let mut i: usize = 0;
    while i < n
        invariant
            0 <= i <= n,
            n < 0x4000_0000,
            bytes@ == value.spec_bytes(),
            bytes@[0] == 48u8,
            bytes@[1] == 120u8,
            bytes@.len() == 2 * n + 2,
            digits == bytes@.subrange(2, bytes@.len() as int),
            forall|k: int| 2 <= k < 2 + 2 * i ==> hex_value(#[trigger] bytes@[k]) is Some,
            decoded@ =~= decode_hex_digits(digits).subrange(0, i as int),
        decreases n - i,
    {
        let hc = bytes[2 + 2 * i];
        let lc = bytes[3 + 2 * i];
        let high = match hex_value_exec(hc) {
            Some(h) => h,
            None => {
                assert(hex_value(bytes@[2 + 2 * i]) is None);
                return Err(HexParseError::InvalidChar);
            },
        };
        let low = match hex_value_exec(lc) {
            Some(l) => l,
            None => {
                assert(hex_value(bytes@[3 + 2 * i]) is None);
                return Err(HexParseError::InvalidChar);
            },
        };
        proof {
            assert(digits[2 * i as int] == hc && digits[2 * i + 1] == lc);
        }
        decoded.push(high * 16 + low);
        i = i + 1;
    }
    proof {
        assert(decode_hex_digits(digits).subrange(0, n as int) =~= decode_hex_digits(digits));
    }
    Ok(decoded)
}

/// The law of hexadecimal digits: each value below sixteen reads back from its
/// lowercase digit; an uppercase letter reads as its lowercase form, the
/// letters `a`..`f` and `A`..`F` as ten to fifteen and `0`..`9` as zero to
/// nine; and no digit reads as sixteen or more.
pub proof fn lemma_hex_digit_values()
    ensures
        forall|n: nat| n < 16 ==> hex_value(#[trigger] hex_digit(n) as u8) == Some(n as u8),
        forall|k: u8| k < 6 ==> #[trigger] hex_value((65 + k) as u8) == hex_value((97 + k) as u8)
            && hex_value((65 + k) as u8) == Some((10 + k) as u8),
        forall|k: u8| k < 10 ==> #[trigger] hex_value((48 + k) as u8) == Some(k),
        forall|c: u8| #[trigger] hex_value(c) matches Some(v) ==> v < 16,
{
    assert forall|n: nat| n < 16 implies hex_value(#[trigger] hex_digit(n) as u8) == Some(n as u8) by {
        if n < 10 {
            assert(hex_digit(n) as u8 == (n + 48) as u8);
        } else {
            assert(hex_digit(n) as u8 == (n + 87) as u8);
        }
    }
}

/// The bytes of a text with its letters `a`..`f` made uppercase.
pub open spec fn hex_upper(s: Seq<u8>) -> Seq<u8> {
    Seq::new(s.len(), |i: int| if 97 <= s[i] <= 102 { (s[i] - 32) as u8 } else { s[i] })
}

/// The law of letter case: hexadecimal text parses to the same bytes, or the
/// same error, with its letters in either case.
pub proof fn lemma_hex_parse_any_case(s: Seq<u8>, n: nat)
    ensures
        hex_to_bytes_spec(hex_upper(s), n) == hex_to_bytes_spec(s, n),
{
    let u = hex_upper(s);
    lemma_hex_digit_values();
    assert forall|i: int| 0 <= i < s.len() implies hex_value(#[trigger] u[i]) == hex_value(s[i]) by {
        if 97 <= s[i] <= 102 {
            let k = (s[i] - 97) as u8;
            assert(s[i] == (97 + k) as u8);
            assert(u[i] == (65 + k) as u8);
        }
    }
    if s.len() == 2 * n + 2 && u[0] == 48u8 && u[1] == 120u8 {
        if exists|i: int| 2 <= i < s.len() && hex_value(#[trigger] s[i]) is None {
            let i = choose|i: int| 2 <= i < s.len() && hex_value(#[trigger] s[i]) is None;
            assert(hex_value(u[i]) is None);
        } else if exists|i: int| 2 <= i < u.len() && hex_value(#[trigger] u[i]) is None {
            let i = choose|i: int| 2 <= i < u.len() && hex_value(#[trigger] u[i]) is None;
            assert(hex_value(s[i]) is None);
        } else {
            let su = u.subrange(2, u.len() as int);
            let ss = s.subrange(2, s.len() as int);
            assert forall|i: int| 0 <= i < ss.len() implies hex_value(#[trigger] su[i]) == hex_value(ss[i]) by {
                assert(su[i] == u[i + 2] && ss[i] == s[i + 2]);
            }
            assert(decode_hex_digits(su) =~= decode_hex_digits(ss));
        }
    }
}

} // verus!
