use vstd::prelude::*;
use vstd::utf8::{
    char_is_scalar, char_u32_cast, decode_utf8, decode_utf8_encode_utf8, encode_utf8, encode_utf8_decode_utf8,
    encode_utf8_valid_utf8, is_scalar, valid_utf8,
};
use vstd::slice::slice_subrange;
use crate::chars::{chars_to_string, str_to_chars};

verus! {

// ---------------------------------------------------------------------------
// UTF-16

/// The character that stands in for a code unit that does not decode.
pub open spec fn replacement_char() -> char {
    '\u{fffd}'
}

pub open spec fn is_surrogate(unit: u16) -> bool {
    0xD800 <= unit <= 0xDFFF
}

pub open spec fn is_high_surrogate(unit: u16) -> bool {
    0xD800 <= unit <= 0xDBFF
}

pub open spec fn is_low_surrogate(unit: u16) -> bool {
    0xDC00 <= unit <= 0xDFFF
}

/// The scalar value that a high and a low surrogate encode together.
pub open spec fn surrogate_pair_value(high: u16, low: u16) -> int {
    0x10000 + (high - 0xD800) * 0x400 + (low - 0xDC00)
}

/// UTF-16 decoding in which every code unit that is not part of a well-formed
/// character (a lone surrogate) becomes U+FFFD.
pub open spec fn decode_utf16_units(units: Seq<u16>) -> Seq<char>
    decreases units.len(),
{
    if units.len() == 0 {
        seq![]
    } else if !is_surrogate(units[0]) {
        seq![units[0] as char] + decode_utf16_units(units.drop_first())
    } else if is_high_surrogate(units[0]) && units.len() >= 2 && is_low_surrogate(units[1]) {
        seq![surrogate_pair_value(units[0], units[1]) as char] + decode_utf16_units(
            units.subrange(2, units.len() as int),
        )
    } else {
        seq![replacement_char()] + decode_utf16_units(units.drop_first())
    }
}

/// The code unit made of two bytes in the given byte order.
pub open spec fn unit_of_bytes(first: u8, second: u8, little_endian: bool) -> u16 {
    if little_endian {
        (first + second * 256) as u16
    } else {
        (first * 256 + second) as u16
    }
}

/// The 16-bit code units that a byte string holds, two bytes each; a last odd
/// byte is not part of any unit.
pub open spec fn utf16_units(bytes: Seq<u8>, little_endian: bool) -> Seq<u16> {
    Seq::new(
        bytes.len() / 2,
        |i: int| unit_of_bytes(bytes[2 * i], bytes[2 * i + 1], little_endian),
    )
}

/// The UTF-16 code units of one character.
pub open spec fn encode_utf16_char(c: char) -> Seq<u16> {
    let v = c as u32;
    if v < 0x10000 {
        seq![v as u16]
    } else {
        seq![(0xD800 + (v - 0x10000) / 0x400) as u16, (0xDC00 + (v - 0x10000) % 0x400) as u16]
    }
}

/// The UTF-16 code units of a text.
pub open spec fn encode_utf16(s: Seq<char>) -> Seq<u16>
    decreases s.len(),
{
    if s.len() == 0 {
        seq![]
    } else {
        encode_utf16_char(s[0]) + encode_utf16(s.drop_first())
    }
}

/// The bytes of UTF-16 code units in the given byte order.
pub open spec fn utf16_bytes(units: Seq<u16>, little_endian: bool) -> Seq<u8> {
    Seq::new(
        2 * units.len(),
        |i: int|
            if (i % 2 == 0) == little_endian {
                (units[i / 2] % 256) as u8
            } else {
                (units[i / 2] / 256) as u8
            },
    )
}

proof fn lemma_units_of_bytes(units: Seq<u16>, little_endian: bool)
    ensures
        utf16_units(utf16_bytes(units, little_endian), little_endian) == units,
{
    let bytes = utf16_bytes(units, little_endian);
    assert forall|i: int| 0 <= i < units.len() implies #[trigger] utf16_units(bytes, little_endian)[i]
        == units[i] by {
        assert((2 * i) / 2 == i);
        assert((2 * i + 1) / 2 == i);
        assert((2 * i) % 2 == 0);
        assert((2 * i + 1) % 2 == 1);
    }
    assert(utf16_units(bytes, little_endian) =~= units);
}

proof fn lemma_decode_encoded(s: Seq<char>)
    ensures
        decode_utf16_units(encode_utf16(s)) == s,
    decreases s.len(),
{
    if s.len() > 0 {
        let c = s[0];
        let v = c as u32;
        let rest = s.drop_first();
        let units = encode_utf16(s);
        lemma_decode_encoded(rest);
        char_is_scalar(c);
        char_u32_cast(c, v);
        assert(is_scalar(v));
        if v < 0x10000 {
            assert(units.drop_first() == encode_utf16(rest));
            assert(((v as u16) as char) == c);
        } else {
            let high = (0xD800 + (v - 0x10000) / 0x400) as u16;
            let low = (0xDC00 + (v - 0x10000) % 0x400) as u16;
            assert(units[0] == high);
            assert(units[1] == low);
            assert(surrogate_pair_value(high, low) == v);
            assert(units.subrange(2, units.len() as int) == encode_utf16(rest));
        }
        assert(s == seq![c] + rest);
    }
}

/// UTF-16 decoding undoes UTF-16 encoding: for every text and either byte
/// order, decoding the UTF-16 bytes of the text gives the text back, with no
/// replacement characters.
pub proof fn utf16_round_trip(s: Seq<char>, little_endian: bool)
    ensures
        utf16_bytes(encode_utf16(s), little_endian).len() % 2 == 0,
        decode_utf16_units(utf16_units(utf16_bytes(encode_utf16(s), little_endian), little_endian))
            == s,
{
    lemma_units_of_bytes(encode_utf16(s), little_endian);
    lemma_decode_encoded(s);
}

/// Builds a character from a scalar value.
///
/// Calls `char::from_u32`, which returns the character with that value when the
/// value is a Unicode scalar value, and `None` otherwise; the contract says
/// exactly that.
#[verifier::external_body]
fn char_from_u32(value: u32) -> (c: Option<char>)
    ensures
        is_scalar(value) ==> c == Some(value as char),
        !is_scalar(value) ==> c is None,
{
    char::from_u32(value)
}

/// Decodes UTF-16 code units, each malformed unit replaced by U+FFFD.
pub fn decode_utf16_lossy(units: &Vec<u16>) -> (chars: Vec<char>)
    ensures
        chars@ == decode_utf16_units(units@),
{
    let n = units.len();
    let mut out: Vec<char> = Vec::new();
    let mut i: usize = 0;
    assert(units@.subrange(0, n as int) == units@);
    assert(out@ + decode_utf16_units(units@) == decode_utf16_units(units@));
    while i < n
        invariant
            n == units@.len(),
            i <= n,
            out@ + decode_utf16_units(units@.subrange(i as int, n as int)) == decode_utf16_units(
                units@,
            ),
        decreases n - i,
    {
        let ghost rest = units@.subrange(i as int, n as int);
        let unit = units[i];
        assert(rest[0] == unit);
        if unit < 0xD800 || unit > 0xDFFF {
            let c = match char_from_u32(unit as u32) {
                Some(c) => c,
                None => '\u{fffd}',
            };
            assert(rest.drop_first() == units@.subrange(i + 1, n as int));
            proof {
                assert(is_scalar(unit as u32));
            }
            out.push(c);
            i = i + 1;
            assert(out@ + decode_utf16_units(units@.subrange(i as int, n as int)) == decode_utf16_units(units@)) by {
                assert(decode_utf16_units(rest) == seq![c] + decode_utf16_units(rest.drop_first()));
            }
        } else if unit <= 0xDBFF && i + 1 < n && units[i + 1] >= 0xDC00 && units[i + 1] <= 0xDFFF {
            let low = units[i + 1];
            assert(rest[1] == low);
            let value: u32 = 0x10000 + (unit as u32 - 0xD800) * 0x400 + (low as u32 - 0xDC00);
            assert(value == surrogate_pair_value(unit, low));
            let c = match char_from_u32(value) {
                Some(c) => c,
                None => '\u{fffd}',
            };
            proof {
                assert(is_scalar(value));
            }
            assert(rest.subrange(2, rest.len() as int) == units@.subrange(i + 2, n as int));
            out.push(c);
            i = i + 2;
            assert(out@ + decode_utf16_units(units@.subrange(i as int, n as int)) == decode_utf16_units(units@)) by {
                assert(decode_utf16_units(rest) == seq![c] + decode_utf16_units(rest.subrange(2, rest.len() as int)));
            }
        } else {
            assert(rest.drop_first() == units@.subrange(i + 1, n as int));
            out.push('\u{fffd}');
            i = i + 1;
            assert(out@ + decode_utf16_units(units@.subrange(i as int, n as int)) == decode_utf16_units(units@)) by {
                assert(decode_utf16_units(rest) == seq![replacement_char()] + decode_utf16_units(rest.drop_first()));
            }
        }
    }
    assert(units@.subrange(n as int, n as int) == Seq::<u16>::empty());
    assert(out@ + Seq::<char>::empty() == out@);
    out
}

/// Decodes UTF-16 text without its byte order mark.
///
/// Returns `None` when the byte count is odd; otherwise the text, with every
/// unpaired surrogate replaced by U+FFFD.
pub fn decode_utf16(bytes: &[u8], little_endian: bool) -> (text: Option<String>)
    ensures
        text is None <==> bytes@.len() % 2 != 0,
        text matches Some(t) ==> t@ == decode_utf16_units(utf16_units(bytes@, little_endian)),
{
    if bytes.len() % 2 != 0 {
        return None;
    }
    let n = bytes.len() / 2;
    let mut units: Vec<u16> = Vec::new();
    for k in 0..n
        invariant
            n == bytes@.len() / 2,
            n * 2 == bytes@.len(),
            units@ == utf16_units(bytes@, little_endian).take(k as int),
    {
        assert(2 * k + 1 < bytes@.len());
        assert(bytes@.len() == bytes.len());
        let first = bytes[2 * k];
        let second = bytes[2 * k + 1];
        let unit: u16 = if little_endian {
            first as u16 + (second as u16) * 256
        } else {
            (first as u16) * 256 + second as u16
        };
        assert(unit == unit_of_bytes(first, second, little_endian));
        units.push(unit);
        assert(units@ == utf16_units(bytes@, little_endian).take(k + 1));
    }
    assert(units@ == utf16_units(bytes@, little_endian));
    let chars = decode_utf16_lossy(&units);
    Some(chars_to_string(&chars))
}


// ---------------------------------------------------------------------------
// Binary detection

/// How many characters, from the start, are looked at when counting control
/// characters.
pub const BINARY_SCAN_CHARS: usize = 4096;

/// A control character: general category Cc, that is U+0000 to U+001F and
/// U+007F to U+009F.
pub open spec fn is_control(c: char) -> bool {
    (c as u32) <= 0x1f || (0x7f <= (c as u32) && (c as u32) <= 0x9f)
}

/// A control character other than carriage return, line feed and tab.
pub open spec fn is_disallowed_control(c: char) -> bool {
    is_control(c) && c != '\r' && c != '\n' && c != '\t'
}

/// How many characters of `s` are disallowed control characters.
pub open spec fn disallowed_controls(s: Seq<char>) -> nat
    decreases s.len(),
{
    if s.len() == 0 {
        0
    } else {
        disallowed_controls(s.drop_last()) + if is_disallowed_control(s.last()) {
            1nat
        } else {
            0nat
        }
    }
}

/// The part of `s` in which control characters are counted.
pub open spec fn scanned_part(s: Seq<char>) -> Seq<char> {
    if s.len() <= BINARY_SCAN_CHARS {
        s
    } else {
        s.take(BINARY_SCAN_CHARS as int)
    }
}

/// Text is taken for binary content when it holds a NUL character, or when
/// more than a tenth of its first 4096 characters are control characters
/// other than carriage return, line feed and tab.
pub open spec fn is_binary_text(s: Seq<char>) -> bool {
    ||| s.contains('\0')
    ||| (scanned_part(s).len() > 0 && disallowed_controls(scanned_part(s)) * 10 > scanned_part(s).len())
}

/// Whether `c` is a control character (see `is_control`).
pub fn char_is_control(c: char) -> (r: bool)
    ensures
        r == is_control(c),
{
    c <= '\u{1f}' || ('\u{7f}' <= c && c <= '\u{9f}')
}

proof fn lemma_no_controls_counted(s: Seq<char>)
    requires
        forall|i: int| 0 <= i < s.len() ==> !is_control(#[trigger] s[i]),
    ensures
        disallowed_controls(s) == 0,
    decreases s.len(),
{
    if s.len() > 0 {
        assert(!is_control(s[s.len() - 1]));
        lemma_no_controls_counted(s.drop_last());
    }
}

proof fn lemma_no_disallowed_counted(s: Seq<char>)
    requires
        forall|i: int| 0 <= i < s.len() ==> !is_control(#[trigger] s[i]) || s[i] == '\r' || s[i] == '\n'
            || s[i] == '\t',
    ensures
        disallowed_controls(s) == 0,
    decreases s.len(),
{
    if s.len() > 0 {
        let c = s[s.len() - 1];
        assert(!is_control(c) || c == '\r' || c == '\n' || c == '\t');
        assert forall|i: int| 0 <= i < s.drop_last().len() implies !is_control(#[trigger] s.drop_last()[i])
            || s.drop_last()[i] == '\r' || s.drop_last()[i] == '\n' || s.drop_last()[i] == '\t' by {
            assert(s.drop_last()[i] == s[i]);
        }
        lemma_no_disallowed_counted(s.drop_last());
    }
}

proof fn lemma_all_disallowed_counted(s: Seq<char>)
    requires
        forall|i: int| 0 <= i < s.len() ==> is_control(#[trigger] s[i]) && s[i] != '\r' && s[i] != '\n'
            && s[i] != '\t',
    ensures
        disallowed_controls(s) == s.len(),
    decreases s.len(),
{
    if s.len() > 0 {
        let c = s[s.len() - 1];
        assert(is_control(c) && c != '\r' && c != '\n' && c != '\t');
        assert forall|i: int| 0 <= i < s.drop_last().len() implies is_control(#[trigger] s.drop_last()[i])
            && s.drop_last()[i] != '\r' && s.drop_last()[i] != '\n' && s.drop_last()[i] != '\t' by {
            assert(s.drop_last()[i] == s[i]);
        }
        lemma_all_disallowed_counted(s.drop_last());
    }
}

/// Carriage returns, line feeds and tabs never make text binary: text with no
/// NUL whose only control characters are those three is never taken for
/// binary content, however many of them it holds. Non-empty text whose first
/// 4096 characters are all other control characters always is.
pub proof fn line_controls_never_make_text_binary(s: Seq<char>)
    ensures
        (!s.contains('\0') && forall|i: int|
            0 <= i < s.len() && is_control(#[trigger] s[i]) ==> s[i] == '\r' || s[i] == '\n' || s[i]
                == '\t') ==> !is_binary_text(s),
        (s.len() > 0 && forall|i: int|
            0 <= i < s.len() && i < 4096 ==> is_control(#[trigger] s[i]) && s[i] != '\r' && s[i] != '\n'
                && s[i] != '\t') ==> is_binary_text(s),
{
    let head = scanned_part(s);
    if !s.contains('\0') && forall|i: int|
        0 <= i < s.len() && is_control(#[trigger] s[i]) ==> s[i] == '\r' || s[i] == '\n' || s[i] == '\t' {
        assert forall|i: int| 0 <= i < head.len() implies !is_control(#[trigger] head[i]) || head[i] == '\r'
            || head[i] == '\n' || head[i] == '\t' by {
            assert(head[i] == s[i]);
        }
        lemma_no_disallowed_counted(head);
    }
    if s.len() > 0 && forall|i: int|
        0 <= i < s.len() && i < 4096 ==> is_control(#[trigger] s[i]) && s[i] != '\r' && s[i] != '\n'
            && s[i] != '\t' {
        assert forall|i: int| 0 <= i < head.len() implies is_control(#[trigger] head[i]) && head[i] != '\r'
            && head[i] != '\n' && head[i] != '\t' by {
            assert(head[i] == s[i]);
        }
        lemma_all_disallowed_counted(head);
    }
}

proof fn lemma_disallowed_controls_concat(a: Seq<char>, b: Seq<char>)
    ensures
        disallowed_controls(a + b) == disallowed_controls(a) + disallowed_controls(b),
    decreases b.len(),
{
    if b.len() == 0 {
        assert(a + b == a);
    } else {
        assert((a + b).drop_last() == a + b.drop_last());
        assert((a + b).last() == b.last());
        lemma_disallowed_controls_concat(a, b.drop_last());
    }
}

/// The threshold is more than a tenth: within the first 4096 characters, text
/// made of `controls` (control characters other than NUL, carriage return,
/// line feed and tab) and `plain` characters (no control characters), in
/// either order, is binary exactly when the controls are more than a tenth of
/// it.
pub proof fn binary_threshold_is_a_tenth(controls: Seq<char>, plain: Seq<char>)
    requires
        forall|i: int|
            0 <= i < controls.len() ==> is_control(#[trigger] controls[i]) && controls[i] != '\0'
                && controls[i] != '\r' && controls[i] != '\n' && controls[i] != '\t',
        forall|i: int| 0 <= i < plain.len() ==> !is_control(#[trigger] plain[i]),
        controls.len() + plain.len() <= 4096,
    ensures
        is_binary_text(controls + plain) <==> controls.len() * 10 > controls.len() + plain.len(),
        is_binary_text(plain + controls) <==> controls.len() * 10 > controls.len() + plain.len(),
{
    lemma_all_disallowed_counted(controls);
    lemma_no_controls_counted(plain);
    lemma_disallowed_controls_concat(controls, plain);
    lemma_disallowed_controls_concat(plain, controls);
    let s1 = controls + plain;
    let s2 = plain + controls;
    assert(!s1.contains('\0')) by {
        if s1.contains('\0') {
            let k = choose|k: int| 0 <= k < s1.len() && s1[k] == '\0';
            if k < controls.len() {
                assert(s1[k] == controls[k]);
            } else {
                assert(s1[k] == plain[k - controls.len()]);
                assert(is_control(plain[k - controls.len()]));
            }
        }
    }
    assert(!s2.contains('\0')) by {
        if s2.contains('\0') {
            let k = choose|k: int| 0 <= k < s2.len() && s2[k] == '\0';
            if k < plain.len() {
                assert(s2[k] == plain[k]);
                assert(is_control(plain[k]));
            } else {
                assert(s2[k] == controls[k - plain.len()]);
            }
        }
    }
    assert(scanned_part(s1) == s1);
    assert(scanned_part(s2) == s2);
}

/// Only the first 4096 characters are counted: after 4096 characters without
/// control characters, no amount of control characters (other than NUL) makes
/// text binary.
pub proof fn only_first_4096_characters_count(head: Seq<char>, tail: Seq<char>)
    requires
        head.len() >= 4096,
        forall|i: int| 0 <= i < head.len() ==> !is_control(#[trigger] head[i]),
        !tail.contains('\0'),
    ensures
        !is_binary_text(head + tail),
{
    let s = head + tail;
    let first = head.take(4096);
    assert(scanned_part(s) == first);
    assert forall|i: int| 0 <= i < first.len() implies !is_control(#[trigger] first[i]) by {
        assert(first[i] == head[i]);
    }
    lemma_no_controls_counted(first);
    assert(!s.contains('\0')) by {
        if s.contains('\0') {
            let k = choose|k: int| 0 <= k < s.len() && s[k] == '\0';
            if k < head.len() {
                assert(s[k] == head[k]);
                assert(is_control(head[k]));
            } else {
                assert(s[k] == tail[k - head.len()]);
            }
        }
    }
}

/// Text without control characters is never taken for binary content, and text
/// with a NUL character always is.
pub proof fn binary_text_is_decided_by_controls(s: Seq<char>)
    ensures
        (forall|i: int| 0 <= i < s.len() ==> !is_control(#[trigger] s[i])) ==> !is_binary_text(s),
        s.contains('\0') ==> is_binary_text(s),
{
    if forall|i: int| 0 <= i < s.len() ==> !is_control(#[trigger] s[i]) {
        let head = scanned_part(s);
        assert forall|i: int| 0 <= i < head.len() implies !is_control(#[trigger] head[i]) by {
            assert(head[i] == s[i]);
        }
        lemma_no_controls_counted(head);
        if s.contains('\0') {
            let k = choose|k: int| 0 <= k < s.len() && s[k] == '\0';
            assert(is_control(s[k]));
        }
    }
}

/// Whether decoded text is to be treated as binary content.
pub fn looks_binary(text: &str) -> (binary: bool)
    ensures
        binary == is_binary_text(text@),
{
    let chars = str_to_chars(text);
    let n = chars.len();
    for i in 0..n
        invariant
            n == chars@.len(),
            chars@ == text@,
            forall|j: int| 0 <= j < i ==> chars@[j] != '\0',
    {
        if chars[i] == '\0' {
            assert(chars@.contains('\0'));
            return true;
        }
    }
    assert(!chars@.contains('\0'));
    let limit = if n <= BINARY_SCAN_CHARS {
        n
    } else {
        BINARY_SCAN_CHARS
    };
    assert(scanned_part(chars@) == chars@.take(limit as int));
    let mut controls: usize = 0;
    for i in 0..limit
        invariant
            limit <= n,
            limit <= BINARY_SCAN_CHARS,
            n == chars@.len(),
            controls == disallowed_controls(chars@.take(i as int)),
            controls <= i,
    {
        let c = chars[i];
        assert(chars@.take(i + 1).drop_last() == chars@.take(i as int));
        if char_is_control(c) && c != '\r' && c != '\n' && c != '\t' {
            controls = controls + 1;
        }
    }
    limit > 0 && controls * 10 > limit
}


// ---------------------------------------------------------------------------
// Decoding a file's bytes

/// Whether `bytes` begins with the UTF-8 byte order mark.
pub open spec fn has_utf8_bom(bytes: Seq<u8>) -> bool {
    bytes.len() >= 3 && bytes[0] == 0xef && bytes[1] == 0xbb && bytes[2] == 0xbf
}

/// Whether `bytes` begins with the little-endian UTF-16 byte order mark.
pub open spec fn has_utf16_le_bom(bytes: Seq<u8>) -> bool {
    bytes.len() >= 2 && bytes[0] == 0xff && bytes[1] == 0xfe
}

/// Whether `bytes` begins with the big-endian UTF-16 byte order mark.
pub open spec fn has_utf16_be_bom(bytes: Seq<u8>) -> bool {
    bytes.len() >= 2 && bytes[0] == 0xfe && bytes[1] == 0xff
}

/// Whether `bytes` begins with any of the three byte order marks.
pub open spec fn has_bom(bytes: Seq<u8>) -> bool {
    has_utf8_bom(bytes) || has_utf16_le_bom(bytes) || has_utf16_be_bom(bytes)
}

/// The scalar value of a Windows-1252 byte from 0x80 to 0x9F, as the WHATWG
/// index gives it (five of the bytes stand for the C1 control of the same
/// value).
pub open spec fn windows_1252_c1_value(b: u8) -> u32 {
    let table = seq![
        0x20ACu32, 0x0081, 0x201A, 0x0192, 0x201E, 0x2026, 0x2020, 0x2021, 0x02C6, 0x2030,
        0x0160, 0x2039, 0x0152, 0x008D, 0x017D, 0x008F, 0x0090, 0x2018, 0x2019, 0x201C,
        0x201D, 0x2022, 0x2013, 0x2014, 0x02DC, 0x2122, 0x0161, 0x203A, 0x0153, 0x009D,
        0x017E, 0x0178,
    ];
    table[b - 0x80]
}

/// The character that a byte stands for in Windows-1252: the byte's own value
/// below 0x80 and from 0xA0 on, the table value from 0x80 to 0x9F.
pub open spec fn windows_1252_char(b: u8) -> char {
    if b < 0x80 || b >= 0xa0 {
        b as char
    } else {
        windows_1252_c1_value(b) as char
    }
}

/// Windows-1252 text: one character per byte.
pub open spec fn windows_1252_text(bytes: Seq<u8>) -> Seq<char> {
    bytes.map_values(|b: u8| windows_1252_char(b))
}

/// What `String::from_utf8_lossy` makes of `bytes`.
pub uninterp spec fn utf8_lossy_decode(bytes: Seq<u8>) -> Seq<char>;

/// Decodes bytes as Windows-1252.
///
/// Calls `encoding_rs::Encoding::decode` on `WINDOWS_1252`. On input without a
/// byte order mark (which `decode` would sniff and follow) it maps every byte
/// through the crate's single-byte table: the bytes below 0x80 and from 0xA0
/// on to the character of the same value, the bytes from 0x80 to 0x9F to the
/// table's entries; the contract states that mapping. `decode` panics when
/// three times the length overflows `usize`, which `requires` rules out.
#[verifier::external_body]
fn decode_windows_1252(bytes: &[u8]) -> (text: String)
    requires
        !has_bom(bytes@),
        bytes@.len() * 3 <= usize::MAX,
    ensures
        text@ == windows_1252_text(bytes@),
{
    let (text, _, _) = encoding_rs::WINDOWS_1252.decode(bytes);
    text.into_owned()
}

/// Reads bytes as UTF-8, if they are valid UTF-8.
///
/// Calls `std::str::from_utf8`, which succeeds exactly on valid UTF-8 and then
/// returns the text those bytes encode.
#[verifier::external_body]
fn utf8_str(bytes: &[u8]) -> (text: Option<&str>)
    ensures
        text is Some <==> valid_utf8(bytes@),
        text matches Some(t) ==> t@ == decode_utf8(bytes@),
{
    std::str::from_utf8(bytes).ok()
}

/// Reads bytes as UTF-8, with malformed sequences replaced by U+FFFD.
///
/// Calls `String::from_utf8_lossy`. The contract names the result and states
/// that on valid UTF-8 it is the decoded text; which replacements it makes on
/// other input is left to the name.
#[verifier::external_body]
fn utf8_lossy(bytes: &[u8]) -> (text: String)
    ensures
        text@ == utf8_lossy_decode(bytes@),
        valid_utf8(bytes@) ==> text@ == decode_utf8(bytes@),
{
    String::from_utf8_lossy(bytes).into_owned()
}

/// The text of `bytes` and the name of its encoding, before binary content is
/// rejected: a byte order mark decides the encoding; without one, valid UTF-8
/// is UTF-8 and anything else is Windows-1252. After a UTF-8 mark, malformed
/// sequences are replaced as `String::from_utf8_lossy` does. UTF-16 with an odd number of
/// bytes after its mark gives nothing.
pub open spec fn candidate_text(bytes: Seq<u8>) -> Option<(Seq<char>, Seq<char>)> {
    if has_utf8_bom(bytes) {
        let rest = bytes.subrange(3, bytes.len() as int);
        if valid_utf8(rest) {
            Some((decode_utf8(rest), "UTF-8"@))
        } else {
            Some((utf8_lossy_decode(rest), "UTF-8"@))
        }
    } else if has_utf16_le_bom(bytes) {
        let rest = bytes.subrange(2, bytes.len() as int);
        if rest.len() % 2 != 0 {
            None
        } else {
            Some((decode_utf16_units(utf16_units(rest, true)), "UTF-16 LE"@))
        }
    } else if has_utf16_be_bom(bytes) {
        let rest = bytes.subrange(2, bytes.len() as int);
        if rest.len() % 2 != 0 {
            None
        } else {
            Some((decode_utf16_units(utf16_units(rest, false)), "UTF-16 BE"@))
        }
    } else if valid_utf8(bytes) {
        Some((decode_utf8(bytes), "UTF-8"@))
    } else {
        Some((windows_1252_text(bytes), "Windows-1252"@))
    }
}

/// The decoded text of `bytes` with its encoding name, or nothing when it
/// cannot be decoded or looks binary.
pub open spec fn decoded_text(bytes: Seq<u8>) -> Option<(Seq<char>, Seq<char>)> {
    match candidate_text(bytes) {
        Some((text, encoding)) => if is_binary_text(text) {
            None
        } else {
            Some((text, encoding))
        },
        None => None,
    }
}

/// Decodes the bytes of a file for the text preview, returning the text and
/// the name of the encoding that was used, or `None` for binary content.
pub fn decode_text(bytes: &[u8]) -> (decoded: Option<(String, &'static str)>)
    requires
        bytes@.len() * 3 <= usize::MAX,
    ensures
        match decoded {
            Some((text, encoding)) => decoded_text(bytes@) == Some((text@, encoding@)),
            None => decoded_text(bytes@) is None,
        },
{
    let n = bytes.len();
    let candidate: Option<(String, &'static str)> = if n >= 3 && bytes[0] == 0xef && bytes[1] == 0xbb
        && bytes[2] == 0xbf {
        Some((utf8_lossy(slice_subrange(bytes, 3, n)), "UTF-8"))
    } else if n >= 2 && bytes[0] == 0xff && bytes[1] == 0xfe {
        let rest = slice_subrange(bytes, 2, n);
        match decode_utf16(rest, true) {
            Some(text) => Some((text, "UTF-16 LE")),
            None => None,
        }
    } else if n >= 2 && bytes[0] == 0xfe && bytes[1] == 0xff {
        let rest = slice_subrange(bytes, 2, n);
        match decode_utf16(rest, false) {
            Some(text) => Some((text, "UTF-16 BE")),
            None => None,
        }
    } else {
        match utf8_str(bytes) {
            Some(text) => Some((text.to_owned(), "UTF-8")),
            None => Some((decode_windows_1252(bytes), "Windows-1252")),
        }
    };
    match candidate {
        Some((text, encoding)) => {
            if looks_binary(text.as_str()) {
                None
            } else {
                Some((text, encoding))
            }
        },
        None => None,
    }
}


/// Only UTF-16 with an odd number of bytes after its byte order mark cannot be
/// decoded at all; any other bytes give a text, which is then shown unless it
/// looks binary.
pub proof fn only_odd_utf16_is_undecodable(bytes: Seq<u8>)
    ensures
        candidate_text(bytes) is None <==> ((has_utf16_le_bom(bytes) || has_utf16_be_bom(bytes))
            && !has_utf8_bom(bytes) && (bytes.len() - 2) % 2 != 0),
        decoded_text(bytes) is None <==> match candidate_text(bytes) {
            None => true,
            Some((text, _)) => is_binary_text(text),
        },
{
}

/// What `decode_text` accepts is never binary content: accepted text never
/// holds a NUL character.
pub proof fn decoded_text_is_not_binary(bytes: Seq<u8>)
    ensures
        decoded_text(bytes) matches Some((text, _)) ==> !is_binary_text(text) && !text.contains('\0'),
        decoded_text(bytes) matches Some((_, encoding)) ==> encoding == "UTF-8"@ || encoding
            == "UTF-16 LE"@ || encoding == "UTF-16 BE"@ || encoding == "Windows-1252"@,
{
    if let Some((text, _)) = decoded_text(bytes) {
        binary_text_is_decided_by_controls(text);
    }
}


/// A byte order mark followed by a text encoded as it announces decodes back to
/// that very text, under the announced encoding's name, unless the text looks
/// binary.
pub proof fn marked_text_decodes_back(s: Seq<char>)
    requires
        !is_binary_text(s),
    ensures
        decoded_text(seq![0xefu8, 0xbb, 0xbf] + encode_utf8(s)) == Some((s, "UTF-8"@)),
        decoded_text(seq![0xffu8, 0xfe] + utf16_bytes(encode_utf16(s), true)) == Some((s, "UTF-16 LE"@)),
        decoded_text(seq![0xfeu8, 0xff] + utf16_bytes(encode_utf16(s), false)) == Some((s, "UTF-16 BE"@)),
{
    let utf8 = seq![0xefu8, 0xbb, 0xbf] + encode_utf8(s);
    assert(utf8.subrange(3, utf8.len() as int) == encode_utf8(s));
    encode_utf8_valid_utf8(s);
    encode_utf8_decode_utf8(s);
    let le = seq![0xffu8, 0xfe] + utf16_bytes(encode_utf16(s), true);
    let be = seq![0xfeu8, 0xff] + utf16_bytes(encode_utf16(s), false);
    assert(le.subrange(2, le.len() as int) == utf16_bytes(encode_utf16(s), true));
    assert(be.subrange(2, be.len() as int) == utf16_bytes(encode_utf16(s), false));
    utf16_round_trip(s, true);
    utf16_round_trip(s, false);
}


/// Without a byte order mark, valid UTF-8 is read as the text it encodes (the
/// text encodes back to exactly the bytes), and anything else is read one
/// character per byte, each ASCII byte as itself; either way the result is
/// shown unless it looks binary.
pub proof fn unmarked_bytes_are_read_faithfully(bytes: Seq<u8>)
    requires
        !has_bom(bytes),
    ensures
        valid_utf8(bytes) ==> (candidate_text(bytes) matches Some((text, _)) && encode_utf8(text) == bytes),
        !valid_utf8(bytes) ==> (candidate_text(bytes) matches Some((text, _)) && text.len() == bytes.len()
            && forall|i: int| 0 <= i < bytes.len() && bytes[i] < 0x80 ==> #[trigger] text[i] == bytes[i] as char),
        decoded_text(bytes) is None <==> match candidate_text(bytes) {
            Some((text, _)) => is_binary_text(text),
            None => true,
        },
{
    if valid_utf8(bytes) {
        decode_utf8_encode_utf8(bytes);
    }
}

} // verus!
