//! Text plumbing: UTF-16 code units, NUL truncation, decimal and
//! hexadecimal digit strings.
//!
//! The format stores strings as UTF-16 code units in the file's byte
//! order.  Both directions of the conversion are implemented and verified
//! here against the spec functions `utf16_decode` (lossy, as a reader must
//! be) and `utf16_encode`.

use vstd::prelude::*;
use vstd::string::StrSliceExecFns;

verus! {

/// The Unicode replacement character, standing in for unpaired surrogates.
pub open spec fn replacement_char() -> char {
    '\u{FFFD}'
}

/// Lossy UTF-16 decoding: code units outside the surrogate range map to
/// their own code points, a high surrogate followed by a low surrogate
/// combines into one supplementary character, and any lone surrogate
/// becomes the replacement character.
pub open spec fn utf16_decode(units: Seq<u16>) -> Seq<char>
    decreases units.len(),
{
    if units.len() == 0 {
        Seq::empty()
    } else {
        let u = units[0];
        if u < 0xD800 || u >= 0xE000 {
            seq![u as char] + utf16_decode(units.drop_first())
        } else if u < 0xDC00 && units.len() >= 2 && 0xDC00 <= units[1] < 0xE000 {
            let cp = 0x10000 + (u - 0xD800) * 0x400 + (units[1] - 0xDC00);
            seq![cp as char] + utf16_decode(units.skip(2))
        } else {
            seq![replacement_char()] + utf16_decode(units.drop_first())
        }
    }
}

/// The UTF-16 code units of one character.
pub open spec fn utf16_encode_char(c: char) -> Seq<u16> {
    if (c as u32) < 0x10000 {
        seq![c as u16]
    } else {
        seq![
            (0xD800 + (((c as u32) - 0x10000) / 0x400)) as u16,
            (0xDC00 + (((c as u32) - 0x10000) % 0x400)) as u16,
        ]
    }
}

/// The UTF-16 code units of a character sequence.
pub open spec fn utf16_encode(s: Seq<char>) -> Seq<u16>
    decreases s.len(),
{
    if s.len() == 0 {
        Seq::empty()
    } else {
        utf16_encode_char(s[0]) + utf16_encode(s.drop_first())
    }
}

/// The two bytes of one code unit in the given byte order.
pub open spec fn u16_bytes(u: u16, little_endian: bool) -> Seq<u8> {
    if little_endian {
        seq![(u & 0xff) as u8, ((u >> 8) & 0xff) as u8]
    } else {
        seq![((u >> 8) & 0xff) as u8, (u & 0xff) as u8]
    }
}

/// The bytes of a sequence of code units in the given byte order.
pub open spec fn units_to_bytes(units: Seq<u16>, little_endian: bool) -> Seq<u8>
    decreases units.len(),
{
    if units.len() == 0 {
        Seq::empty()
    } else {
        u16_bytes(units[0], little_endian) + units_to_bytes(units.drop_first(), little_endian)
    }
}

/// The code units spelled by a byte sequence in the given byte order; a
/// trailing odd byte is dropped.
pub open spec fn bytes_to_units(bytes: Seq<u8>, little_endian: bool) -> Seq<u16>
    decreases bytes.len(),
{
    if bytes.len() < 2 {
        Seq::empty()
    } else {
        let u = if little_endian {
            (bytes[0] + bytes[1] * 0x100) as u16
        } else {
            (bytes[0] * 0x100 + bytes[1]) as u16
        };
        seq![u] + bytes_to_units(bytes.skip(2), little_endian)
    }
}

/// Dropping the trailing odd byte changes nothing: only whole pairs spell
/// code units.
pub proof fn lemma_bytes_to_units_even_prefix(bytes: Seq<u8>, little_endian: bool)
    ensures
        bytes_to_units(bytes.subrange(0, 2 * (bytes.len() as int / 2)), little_endian)
            == bytes_to_units(bytes, little_endian),
    decreases bytes.len(),
{
    let k = bytes.len() as int / 2;
    let pre = bytes.subrange(0, 2 * k);
    if bytes.len() < 2 {
        assert(bytes_to_units(pre, little_endian) =~= bytes_to_units(bytes, little_endian));
    } else {
        lemma_bytes_to_units_even_prefix(bytes.skip(2), little_endian);
        assert(pre[0] == bytes[0]);
        assert(pre[1] == bytes[1]);
        assert(pre.skip(2) =~= bytes.skip(2).subrange(0, 2 * (bytes.skip(2).len() as int / 2)));
        assert(bytes_to_units(pre, little_endian) =~= bytes_to_units(bytes, little_endian));
    }
}

/// The index of the first NUL character, or the length if there is none.
pub open spec fn nul_index(s: Seq<char>) -> int
    decreases s.len(),
{
    if s.len() == 0 {
        0
    } else if s[0] == '\u{0}' {
        0
    } else {
        1 + nul_index(s.drop_first())
    }
}

/// The prefix of a string before its first NUL character.
pub open spec fn take_until_nul(s: Seq<char>) -> Seq<char> {
    s.take(nul_index(s))
}

pub proof fn lemma_nul_index(s: Seq<char>)
    ensures
        0 <= nul_index(s) <= s.len(),
        forall|j: int| 0 <= j < nul_index(s) ==> s[j] != '\u{0}',
        nul_index(s) < s.len() ==> s[nul_index(s)] == '\u{0}',
    decreases s.len(),
{
    if s.len() > 0 && s[0] != '\u{0}' {
        lemma_nul_index(s.drop_first());
        assert(nul_index(s) == 1 + nul_index(s.drop_first()));
        assert forall|j: int| 0 <= j < nul_index(s) implies s[j] != '\u{0}' by {
            if j > 0 {
                assert(s.drop_first()[j - 1] == s[j]);
            }
        }
        if nul_index(s) < s.len() {
            assert(s.drop_first()[nul_index(s) - 1] == s[nul_index(s)]);
        }
    }
}

/// The character spelling a decimal digit.
pub open spec fn dec_digit_char(d: int) -> char {
    (48 + d) as char
}

/// The decimal spelling of a non-negative integer.
pub open spec fn dec_string(v: int) -> Seq<char>
    decreases v,
{
    if v < 10 {
        seq![dec_digit_char(v)]
    } else {
        dec_string(v / 10) + seq![dec_digit_char(v % 10)]
    }
}

/// Whether every character is a decimal digit.
pub open spec fn is_dec_digits(s: Seq<char>) -> bool {
    forall|j: int| 0 <= j < s.len() ==> 48 <= (#[trigger] s[j]) as int <= 57
}

/// The value of a decimal digit string.
pub open spec fn dec_value(s: Seq<char>) -> int
    decreases s.len(),
{
    if s.len() == 0 {
        0
    } else {
        dec_value(s.drop_last()) * 10 + (s.last() as int - 48)
    }
}

/// The character spelling a hexadecimal digit, in lower case.
pub open spec fn hex_digit_char(d: int) -> char {
    if d < 10 {
        (48 + d) as char
    } else {
        (87 + d) as char
    }
}

/// The hexadecimal spelling of a non-negative integer, without prefix or
/// padding.
pub open spec fn hex_string(v: int) -> Seq<char>
    decreases v,
{
    if v < 16 {
        seq![hex_digit_char(v)]
    } else {
        hex_string(v / 16) + seq![hex_digit_char(v % 16)]
    }
}

/// Relies on `char::from_u32` of std: it returns the character with the
/// given code point exactly when that value is a Unicode scalar, that is,
/// not a surrogate and at most 0x10FFFF.
#[verifier::external_body]
fn char_from_u32(v: u32) -> (r: Option<char>)
    ensures
        r == (if v < 0xD800 || (0xE000 <= v && v <= 0x10FFFF) {
            Some(v as char)
        } else {
            None::<char>
        }),
{
    char::from_u32(v)
}

/// Relies on `String::push` of std: it appends the given character.
#[verifier::external_body]
fn push_char(s: &mut String, c: char)
    ensures
        final(s)@ == old(s)@.push(c),
{
    s.push(c)
}

/// Appends the character with an eight-bit code to a string.
pub fn push_ascii_char(s: &mut String, b: u8)
    ensures
        final(s)@ == old(s)@.push(b as char),
{
    push_char(s, b as char)
}

/// Decodes UTF-16 code units into a string, lossily.
pub fn utf16_decode_units(units: &[u16]) -> (r: String)
    ensures
        r@ == utf16_decode(units@),
{
    let n: usize = units.len();
    let mut s = String::new();
    let mut i: usize = 0;
    proof {
        assert(units@.skip(0) =~= units@);
        assert(s@ + utf16_decode(units@) =~= utf16_decode(units@));
    }
    while i < n
        invariant
            i <= n,
            n == units@.len(),
            s@ + utf16_decode(units@.skip(i as int)) == utf16_decode(units@),
        decreases n - i,
    {
        let ghost rest = units@.skip(i as int);
        proof {
            assert(rest[0] == units@[i as int]);
            assert(rest.drop_first() =~= units@.skip(i + 1));
            if i + 2 <= n {
                assert(rest[1] == units@[i + 1]);
                assert(rest.skip(2) =~= units@.skip(i + 2));
            }
        }
        let u = units[i];
        if u < 0xD800 || u >= 0xE000 {
            match char_from_u32(u as u32) {
                Some(c) => {
                    push_char(&mut s, c);
                },
                None => {
                    proof {
                        assert(false);
                    }
                },
            }
            i = i + 1;
            proof {
                assert(s@ + utf16_decode(units@.skip(i as int)) =~= utf16_decode(units@));
            }
        } else if u < 0xDC00 && i + 1 < n && 0xDC00 <= units[i + 1] && units[i + 1] < 0xE000 {
            let u2 = units[i + 1];
            let cp: u32 = 0x10000 + ((u - 0xD800) as u32) * 0x400 + ((u2 - 0xDC00) as u32);
            match char_from_u32(cp) {
                Some(c) => {
                    push_char(&mut s, c);
                },
                None => {
                    proof {
                        assert(false);
                    }
                },
            }
            i = i + 2;
            proof {
                assert(s@ + utf16_decode(units@.skip(i as int)) =~= utf16_decode(units@));
            }
        } else {
            push_char(&mut s, '\u{FFFD}');
            i = i + 1;
            proof {
                assert(s@ + utf16_decode(units@.skip(i as int)) =~= utf16_decode(units@));
            }
        }
    }
    proof {
        assert(utf16_decode(units@.skip(n as int)) =~= Seq::<char>::empty());
        assert(s@ =~= s@ + utf16_decode(units@.skip(n as int)));
    }
    s
}

proof fn lemma_utf16_encode_push(s: Seq<char>, c: char)
    ensures
        utf16_encode(s.push(c)) == utf16_encode(s) + utf16_encode_char(c),
    decreases s.len(),
{
    if s.len() == 0 {
        assert(s.push(c).drop_first() =~= Seq::<char>::empty());
        assert(s.push(c)[0] == c);
        assert(utf16_encode(Seq::<char>::empty()) =~= Seq::<u16>::empty());
        assert(utf16_encode(s.push(c)) =~= utf16_encode(s) + utf16_encode_char(c));
    } else {
        assert(s.push(c).drop_first() =~= s.drop_first().push(c));
        assert(s.push(c)[0] == s[0]);
        lemma_utf16_encode_push(s.drop_first(), c);
        assert(utf16_encode(s.push(c)) =~= utf16_encode(s) + utf16_encode_char(c));
    }
}

/// Encodes a string into UTF-16 code units.
pub fn utf16_encode_str(s: &str) -> (r: Vec<u16>)
    ensures
        r@ == utf16_encode(s@),
{
    let n: usize = s.unicode_len();
    let mut out: Vec<u16> = Vec::new();
    let mut i: usize = 0;
    proof {
        assert(s@.take(0) =~= Seq::<char>::empty());
        assert(out@ =~= utf16_encode(s@.take(0)));
    }
    while i < n
        invariant
            i <= n,
            n == s@.len(),
            out@ == utf16_encode(s@.take(i as int)),
        decreases n - i,
    {
        let c = s.get_char(i);
        let cu: u32 = c as u32;
        if cu < 0x10000 {
            out.push(c as u16);
        } else {
            out.push((0xD800 + ((cu - 0x10000) / 0x400)) as u16);
            out.push((0xDC00 + ((cu - 0x10000) % 0x400)) as u16);
        }
        proof {
            assert(s@.take(i + 1) =~= s@.take(i as int).push(c));
            lemma_utf16_encode_push(s@.take(i as int), c);
            assert(out@ =~= utf16_encode(s@.take(i + 1)));
        }
        i = i + 1;
    }
    proof {
        assert(s@.take(n as int) =~= s@);
    }
    out
}

/// The prefix of a string before its first NUL character.
pub fn string_until_nul(s: &str) -> (r: String)
    ensures
        r@ == take_until_nul(s@),
{
    let n: usize = s.unicode_len();
    let mut out = String::new();
    let mut i: usize = 0;
    proof {
        lemma_nul_index(s@);
        assert(out@ =~= s@.take(0));
    }
    while i < n
        invariant
            i <= n,
            n == s@.len(),
            out@ == s@.take(i as int),
            forall|j: int| 0 <= j < i ==> s@[j] != '\u{0}',
            0 <= nul_index(s@) <= s@.len(),
            forall|j: int| 0 <= j < nul_index(s@) ==> s@[j] != '\u{0}',
            nul_index(s@) < s@.len() ==> s@[nul_index(s@)] == '\u{0}',
        decreases n - i,
    {
        let c = s.get_char(i);
        if c == '\u{0}' {
            proof {
                assert(nul_index(s@) == i);
            }
            return out;
        }
        push_char(&mut out, c);
        proof {
            assert(out@ =~= s@.take(i + 1));
        }
        i = i + 1;
    }
    proof {
        assert(nul_index(s@) == n);
        assert(out@ =~= take_until_nul(s@));
    }
    out
}

pub proof fn lemma_dec_value_nonneg(s: Seq<char>)
    requires
        is_dec_digits(s),
    ensures
        dec_value(s) >= 0,
    decreases s.len(),
{
    if s.len() > 0 {
        assert(is_dec_digits(s.drop_last())) by {
            assert(forall|j: int|
                0 <= j < s.len() - 1 ==> (#[trigger] s.drop_last()[j]) == s[j]);
        }
        lemma_dec_value_nonneg(s.drop_last());
    }
}

proof fn lemma_dec_value_prefix(s: Seq<char>, k: int)
    requires
        is_dec_digits(s),
        0 <= k <= s.len(),
    ensures
        dec_value(s.take(k)) <= dec_value(s),
    decreases s.len() - k,
{
    if k < s.len() {
        assert(is_dec_digits(s.take(k + 1))) by {
            assert(forall|j: int| 0 <= j < k + 1 ==> (#[trigger] s.take(k + 1)[j]) == s[j]);
        }
        assert(s.take(k + 1).drop_last() =~= s.take(k));
        lemma_dec_value_nonneg(s.take(k));
        assert(dec_value(s.take(k + 1)) == dec_value(s.take(k)) * 10 + (s[k] as int - 48));
        assert(dec_value(s.take(k)) * 10 >= dec_value(s.take(k))) by (nonlinear_arith)
            requires
                dec_value(s.take(k)) >= 0,
        ;
        lemma_dec_value_prefix(s, k + 1);
    } else {
        assert(s.take(k) =~= s);
    }
}

/// Parses a string of decimal digits.  Returns the value exactly when the
/// string is non-empty, all digits, and the value fits a `usize`.
pub fn parse_decimal(s: &str) -> (r: Option<usize>)
    ensures
        r == (if s@.len() > 0 && is_dec_digits(s@) && dec_value(s@) <= usize::MAX {
            Some(dec_value(s@) as usize)
        } else {
            None::<usize>
        }),
{
    let n: usize = s.unicode_len();
    if n == 0 {
        return None;
    }
    let mut acc: usize = 0;
    let mut i: usize = 0;
    proof {
        assert(s@.take(0) =~= Seq::<char>::empty());
    }
    while i < n
        invariant
            i <= n,
            n == s@.len(),
            n > 0,
            acc as int == dec_value(s@.take(i as int)),
            is_dec_digits(s@.take(i as int)),
        decreases n - i,
    {
        let c = s.get_char(i);
        let cu: u32 = c as u32;
        if cu < 48 || cu > 57 {
            proof {
                assert(!is_dec_digits(s@));
            }
            return None;
        }
        let d: usize = (cu - 48) as usize;
        proof {
            assert(s@.take(i + 1).drop_last() =~= s@.take(i as int));
            assert(s@.take(i + 1).last() == s@[i as int]);
            assert(is_dec_digits(s@.take(i + 1))) by {
                assert(forall|j: int|
                    0 <= j < i + 1 ==> (#[trigger] s@.take(i + 1)[j]) == s@[j]);
            }
        }
        if acc > (usize::MAX - d) / 10 {
            proof {
                lemma_dec_value_nonneg(s@.take(i as int));
                assert(dec_value(s@.take(i + 1)) == acc * 10 + d);
                assert(acc * 10 + d > usize::MAX) by (nonlinear_arith)
                    requires
                        acc > (usize::MAX - d) / 10,
                        0 <= d <= 9,
                        acc >= 0,
                ;
                if is_dec_digits(s@) {
                    lemma_dec_value_prefix(s@, i + 1);
                }
            }
            return None;
        }
        proof {
            assert(acc * 10 + d <= usize::MAX) by (nonlinear_arith)
                requires
                    acc <= (usize::MAX - d) / 10,
                    0 <= d <= 9,
                    acc >= 0,
            ;
        }
        acc = acc * 10 + d;
        i = i + 1;
    }
    proof {
        assert(s@.take(n as int) =~= s@);
    }
    Some(acc)
}

/// The decimal spelling of a number.
pub fn format_decimal(v: usize) -> (r: String)
    ensures
        r@ == dec_string(v as int),
    decreases v,
{
    if v < 10 {
        let mut s = String::new();
        push_char(&mut s, (48 + v as u8) as char);
        proof {
            assert(s@ =~= dec_string(v as int));
        }
        s
    } else {
        let mut s = format_decimal(v / 10);
        push_char(&mut s, (48 + (v % 10) as u8) as char);
        proof {
            assert(s@ =~= dec_string(v as int));
        }
        s
    }
}

/// The hexadecimal spelling of a number, lower case, no prefix.
pub fn format_hex(v: usize) -> (r: String)
    ensures
        r@ == hex_string(v as int),
    decreases v,
{
    if v < 16 {
        let d: u8 = v as u8;
        let mut s = String::new();
        if d < 10 {
            push_char(&mut s, (48 + d) as char);
        } else {
            push_char(&mut s, (87 + d) as char);
        }
        proof {
            assert(s@ =~= hex_string(v as int));
        }
        s
    } else {
        let mut s = format_hex(v / 16);
        let d: u8 = (v % 16) as u8;
        if d < 10 {
            push_char(&mut s, (48 + d) as char);
        } else {
            push_char(&mut s, (87 + d) as char);
        }
        proof {
            assert(s@ =~= hex_string(v as int));
        }
        s
    }
}

} // verus!

verus! {

/// The hexadecimal spelling zero-padded to a minimum number of digits.
pub open spec fn hex_padded(v: int, digits: int) -> Seq<char> {
    let h = hex_string(v);
    if h.len() >= digits {
        h
    } else {
        Seq::new((digits - h.len()) as nat, |i: int| '0') + h
    }
}

/// The hexadecimal spelling of a number, zero-padded to a minimum width.
pub fn format_hex_padded(v: usize, digits: usize) -> (r: String)
    ensures
        r@ == hex_padded(v as int, digits as int),
{
    let h = format_hex(v);
    let n: usize = h.as_str().unicode_len();
    if n >= digits {
        proof {
            assert(h@ =~= hex_padded(v as int, digits as int));
        }
        h
    } else {
        let mut s = String::new();
        let mut k: usize = 0;
        while k < digits - n
            invariant
                k <= digits - n,
                s@ =~= Seq::new(k as nat, |i: int| '0'),
            decreases digits - n - k,
        {
            push_char(&mut s, '0');
            k = k + 1;
            proof {
                assert(s@ =~= Seq::new(k as nat, |i: int| '0'));
            }
        }
        s.append(h.as_str());
        proof {
            assert(s@ =~= hex_padded(v as int, digits as int));
        }
        s
    }
}

} // verus!
