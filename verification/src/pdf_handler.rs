use vstd::prelude::*;
use crate::chars::chars_to_string;
use crate::text_decode::{decode_utf16_lossy, decode_utf16_units};

verus! {

/// The PDF preview handler that the user selected.
#[derive(Clone, Copy, Debug, PartialEq, Eq, Structural)]
pub enum PdfPreviewHandler {
    /// Whatever handler Windows has registered for `.pdf`.
    WindowsDefault,
    /// The current PDF-XChange handler.
    PdfXChange,
    /// The handler of the discontinued PDF-XChange Viewer.
    PdfXChangeLegacy,
    /// The PowerToys PDF handler.
    PowerToys,
}

/// CLSID of the current PDF-XChange preview handler.
pub const PDF_XCHANGE_PREVIEW_HANDLER: u128 = 0x9b68bdf7_95f9_4a1f_851c_27d822f8e3e9;

/// CLSID of the legacy PDF-XChange Viewer preview handler.
pub const PDF_XCHANGE_LEGACY_PREVIEW_HANDLER: u128 = 0xdc6efb56_9cfa_464d_8880_44885d7dc193;

/// CLSID of the PowerToys PDF preview handler.
pub const POWERTOYS_PDF_PREVIEW_HANDLER: u128 = 0xa5a41cc7_02cb_41d4_8c9b_9087040d6098;

/// The CLSID that a selection names by itself; `None` for the Windows default,
/// which the registry decides.
pub open spec fn fixed_handler_clsid(selection: PdfPreviewHandler) -> Option<u128> {
    match selection {
        PdfPreviewHandler::WindowsDefault => None,
        PdfPreviewHandler::PdfXChange => Some(PDF_XCHANGE_PREVIEW_HANDLER),
        PdfPreviewHandler::PdfXChangeLegacy => Some(PDF_XCHANGE_LEGACY_PREVIEW_HANDLER),
        PdfPreviewHandler::PowerToys => Some(POWERTOYS_PDF_PREVIEW_HANDLER),
    }
}

/// The handler CLSID used for `selection`, given the CLSID that the registry
/// holds for `.pdf` (if it could be read).
pub open spec fn handler_clsid(selection: PdfPreviewHandler, registered: Option<u128>) -> u128 {
    match fixed_handler_clsid(selection) {
        Some(clsid) => clsid,
        None => match registered {
            Some(clsid) => clsid,
            None => PDF_XCHANGE_PREVIEW_HANDLER,
        },
    }
}

/// Picks the CLSID of the preview handler to create.
///
/// An explicit choice names its own handler. The Windows default uses the
/// handler registered for `.pdf`, and falls back to the current PDF-XChange
/// handler when none could be read.
pub fn resolve_pdf_handler_clsid(selection: PdfPreviewHandler, registered: Option<u128>) -> (clsid: u128)
    ensures
        clsid == handler_clsid(selection, registered),
{
    match selection {
        PdfPreviewHandler::WindowsDefault => match registered {
            Some(clsid) => clsid,
            None => PDF_XCHANGE_PREVIEW_HANDLER,
        },
        PdfPreviewHandler::PdfXChange => PDF_XCHANGE_PREVIEW_HANDLER,
        PdfPreviewHandler::PdfXChangeLegacy => PDF_XCHANGE_LEGACY_PREVIEW_HANDLER,
        PdfPreviewHandler::PowerToys => POWERTOYS_PDF_PREVIEW_HANDLER,
    }
}


/// An explicit choice always names its own handler, whatever the registry
/// holds; the Windows default follows the registry and falls back to the
/// current PDF-XChange handler when the registry could not be read.
pub proof fn explicit_choice_ignores_registry(
    selection: PdfPreviewHandler,
    registered: Option<u128>,
    other: Option<u128>,
)
    ensures
        selection != PdfPreviewHandler::WindowsDefault ==> handler_clsid(selection, registered)
            == handler_clsid(selection, other),
        handler_clsid(PdfPreviewHandler::WindowsDefault, None) == PDF_XCHANGE_PREVIEW_HANDLER,
        registered matches Some(c) ==> handler_clsid(PdfPreviewHandler::WindowsDefault, registered) == c,
{
}

// ---------------------------------------------------------------------------
// Registry entries

/// The upper-case hexadecimal digit for `d` (0 to 15).
pub open spec fn hex_digit(d: int) -> char {
    if d < 10 {
        (48 + d) as char
    } else {
        (55 + d) as char
    }
}

/// The last `count` hexadecimal digits of `v`, most significant first.
pub open spec fn hex_digits(v: int, count: nat) -> Seq<char>
    decreases count,
{
    if count == 0 {
        seq![]
    } else {
        hex_digits(v / 16, (count - 1) as nat).push(hex_digit(v % 16))
    }
}

/// A CLSID in registry form: 32 upper-case hexadecimal digits in groups of
/// 8, 4, 4, 4 and 12, separated by hyphens, in braces.
pub open spec fn clsid_text(clsid: u128) -> Seq<char> {
    let h = hex_digits(clsid as int, 32);
    seq!['{'] + h.subrange(0, 8) + seq!['-'] + h.subrange(8, 12) + seq!['-'] + h.subrange(12, 16)
        + seq!['-'] + h.subrange(16, 20) + seq!['-'] + h.subrange(20, 32) + seq!['}']
}

/// The registry key, under `HKEY_CLASSES_ROOT`, whose presence shows that the
/// handler of an explicit selection is installed: the `CLSID` key of the very
/// handler that the selection creates.
pub open spec fn registration_key(selection: PdfPreviewHandler) -> Option<Seq<char>> {
    match fixed_handler_clsid(selection) {
        None => None,
        Some(clsid) => Some(seq!['C', 'L', 'S', 'I', 'D', '\\'] + clsid_text(clsid)),
    }
}

fn hex_digit_exec(d: u128) -> (c: char)
    requires
        d < 16,
    ensures
        c == hex_digit(d as int),
{
    let b = d as u8;
    if b < 10 {
        (48 + b) as char
    } else {
        (55 + b) as char
    }
}

/// The last `count` hexadecimal digits of `v`.
fn hex_digits_exec(v: u128, count: usize) -> (digits: Vec<char>)
    ensures
        digits@ == hex_digits(v as int, count as nat),
        digits@.len() == count,
    decreases count,
{
    if count == 0 {
        Vec::new()
    } else {
        let mut digits = hex_digits_exec(v / 16, count - 1);
        digits.push(hex_digit_exec(v % 16));
        digits
    }
}

fn push_range(out: &mut Vec<char>, from: &Vec<char>, start: usize, end: usize)
    requires
        start <= end <= from@.len(),
    ensures
        final(out)@ == old(out)@ + from@.subrange(start as int, end as int),
{
    let ghost before = out@;
    for k in start..end
        invariant
            start <= end <= from@.len(),
            out@ == before + from@.subrange(start as int, k as int),
    {
        out.push(from[k]);
        assert(from@.subrange(start as int, k + 1) == from@.subrange(start as int, k as int).push(from@[k as int]));
    }
}

/// The `CLSID` registry key of a handler.
fn clsid_registry_key(clsid: u128) -> (key: String)
    ensures
        key@ == seq!['C', 'L', 'S', 'I', 'D', '\\'] + clsid_text(clsid),
{
    let h = hex_digits_exec(clsid, 32);
    let mut out: Vec<char> = Vec::new();
    out.push('C');
    out.push('L');
    out.push('S');
    out.push('I');
    out.push('D');
    out.push('\\');
    out.push('{');
    push_range(&mut out, &h, 0, 8);
    out.push('-');
    push_range(&mut out, &h, 8, 12);
    out.push('-');
    push_range(&mut out, &h, 12, 16);
    out.push('-');
    push_range(&mut out, &h, 16, 20);
    out.push('-');
    push_range(&mut out, &h, 20, 32);
    out.push('}');
    assert(out@ =~= seq!['C', 'L', 'S', 'I', 'D', '\\'] + clsid_text(clsid));
    chars_to_string(&out)
}

/// The registry key that shows whether the selected handler is installed, or
/// `None` for the Windows default, which is always available.
pub fn pdf_handler_registration_key(selection: PdfPreviewHandler) -> (key: Option<String>)
    ensures
        match key {
            Some(k) => registration_key(selection) == Some(k@),
            None => registration_key(selection) is None,
        },
{
    match selection {
        PdfPreviewHandler::WindowsDefault => None,
        PdfPreviewHandler::PdfXChange => Some(clsid_registry_key(PDF_XCHANGE_PREVIEW_HANDLER)),
        PdfPreviewHandler::PdfXChangeLegacy => Some(clsid_registry_key(PDF_XCHANGE_LEGACY_PREVIEW_HANDLER)),
        PdfPreviewHandler::PowerToys => Some(clsid_registry_key(POWERTOYS_PDF_PREVIEW_HANDLER)),
    }
}

/// The registry path of the preview handler registered for `.pdf`.
pub const PDF_PREVIEW_HANDLER_KEY: &'static str = ".pdf\\shellex\\{8895b1c6-b41f-4c1c-a562-0d564250836f}";

/// A White_Space character, as `char::is_whitespace` takes it.
pub open spec fn is_whitespace(c: char) -> bool {
    let v = c as u32;
    ||| 0x09 <= v <= 0x0d
    ||| v == 0x20
    ||| v == 0x85
    ||| v == 0xa0
    ||| v == 0x1680
    ||| 0x2000 <= v <= 0x200a
    ||| v == 0x2028
    ||| v == 0x2029
    ||| v == 0x202f
    ||| v == 0x205f
    ||| v == 0x3000
}

fn char_is_whitespace(c: char) -> (r: bool)
    ensures
        r == is_whitespace(c),
{
    ('\u{9}' <= c && c <= '\u{d}') || c == ' ' || c == '\u{85}' || c == '\u{a0}' || c == '\u{1680}'
        || ('\u{2000}' <= c && c <= '\u{200a}') || c == '\u{2028}' || c == '\u{2029}' || c
        == '\u{202f}' || c == '\u{205f}' || c == '\u{3000}'
}

/// `s` without its leading white space.
pub open spec fn trim_start(s: Seq<char>) -> Seq<char>
    decreases s.len(),
{
    if s.len() > 0 && is_whitespace(s[0]) {
        trim_start(s.drop_first())
    } else {
        s
    }
}

/// `s` without its trailing white space.
pub open spec fn trim_end(s: Seq<char>) -> Seq<char>
    decreases s.len(),
{
    if s.len() > 0 && is_whitespace(s.last()) {
        trim_end(s.drop_last())
    } else {
        s
    }
}

/// `s` without leading and trailing white space.
pub open spec fn trimmed(s: Seq<char>) -> Seq<char> {
    trim_end(trim_start(s))
}

proof fn lemma_trim_start(s: Seq<char>)
    ensures
        trim_start(s).len() > 0 ==> !is_whitespace(trim_start(s)[0]),
        trim_start(s).len() <= s.len(),
        trim_start(s) == s.subrange(s.len() - trim_start(s).len(), s.len() as int),
    decreases s.len(),
{
    if s.len() > 0 && is_whitespace(s[0]) {
        lemma_trim_start(s.drop_first());
        assert(s.drop_first().subrange(
            s.drop_first().len() - trim_start(s).len(),
            s.drop_first().len() as int,
        ) == s.subrange(s.len() - trim_start(s).len(), s.len() as int));
    } else {
        assert(s.subrange(0, s.len() as int) == s);
    }
}

proof fn lemma_trim_end(s: Seq<char>)
    ensures
        trim_end(s).len() > 0 ==> !is_whitespace(trim_end(s).last()),
        trim_end(s) == s.take(trim_end(s).len() as int),
        trim_end(s).len() <= s.len(),
    decreases s.len(),
{
    if s.len() > 0 && is_whitespace(s.last()) {
        lemma_trim_end(s.drop_last());
        assert(s.drop_last().take(trim_end(s).len() as int) == s.take(trim_end(s).len() as int));
    } else {
        assert(s.take(s.len() as int) == s);
    }
}

/// Only what comes before the first NUL of a registry value counts: whatever
/// follows it changes nothing.
pub proof fn registered_text_stops_at_nul(value: Seq<u16>, after: Seq<u16>)
    requires
        forall|k: int| 0 <= k < value.len() ==> value[k] != 0,
    ensures
        registered_clsid_text(value.push(0) + after) == registered_clsid_text(value),
{
    let v = value.push(0) + after;
    assert forall|k: int| 0 <= k < value.len() implies v[k] != 0 by {
        assert(v[k] == value[k]);
    }
    lemma_before_nul(v, value.len() as int);
    lemma_before_nul(value, value.len() as int);
    assert(v.take(value.len() as int) == value);
    assert(value.take(value.len() as int) == value);
}

/// The CLSID text read from the registry neither starts nor ends with white
/// space.
pub proof fn registered_text_is_trimmed(value: Seq<u16>)
    ensures
        registered_clsid_text(value) matches Some(t) ==> t.len() == 0 || (!is_whitespace(t[0])
            && !is_whitespace(t.last())),
{
    if let Some(t) = registered_clsid_text(value) {
        let s = decode_utf16_units(before_nul(value));
        lemma_trim_start(s);
        lemma_trim_end(trim_start(s));
        if t.len() > 0 {
            assert(t[0] == trim_start(s)[0]);
        }
    }
}

/// The code units of a registry string up to its first NUL.
pub open spec fn before_nul(units: Seq<u16>) -> Seq<u16>
    decreases units.len(),
{
    if units.len() == 0 || units[0] == 0 {
        seq![]
    } else {
        seq![units[0]] + before_nul(units.drop_first())
    }
}

proof fn lemma_before_nul(units: Seq<u16>, j: int)
    requires
        0 <= j <= units.len(),
        forall|k: int| 0 <= k < j ==> units[k] != 0,
        j < units.len() ==> units[j] == 0,
    ensures
        before_nul(units) == units.take(j),
    decreases j,
{
    if j > 0 {
        let t = units.drop_first();
        assert forall|k: int| 0 <= k < j - 1 implies t[k] != 0 by {
            assert(t[k] == units[k + 1]);
        }
        if j < units.len() {
            assert(t[j - 1] == units[j]);
        }
        lemma_before_nul(t, j - 1);
        assert(units.take(j) =~= seq![units[0]] + t.take(j - 1));
    } else {
        assert(units.take(0) =~= Seq::<u16>::empty());
    }
}

/// The text of a registry string value as the CLSID string to parse: the
/// value up to its first NUL, decoded from UTF-16 with U+FFFD for unpaired
/// surrogates, without surrounding white space. Nothing when the value is
/// empty.
pub open spec fn registered_clsid_text(value: Seq<u16>) -> Option<Seq<char>> {
    if before_nul(value).len() == 0 {
        None
    } else {
        Some(trimmed(decode_utf16_units(before_nul(value))))
    }
}

/// The CLSID string held by the registry value of the `.pdf` preview handler,
/// read into `value`; `None` when the value is empty.
pub fn registered_handler_text(value: &[u16]) -> (text: Option<String>)
    ensures
        match text {
            Some(t) => registered_clsid_text(value@) == Some(t@),
            None => registered_clsid_text(value@) is None,
        },
{
    let n = value.len();
    let mut len: usize = 0;
    while len < n && value[len] != 0
        invariant
            len <= n == value@.len(),
            forall|k: int| 0 <= k < len ==> value@[k] != 0,
        decreases n - len,
    {
        len = len + 1;
    }
    proof {
        lemma_before_nul(value@, len as int);
    }
    if len == 0 {
        return None;
    }
    let mut units: Vec<u16> = Vec::new();
    for k in 0..len
        invariant
            len <= n == value@.len(),
            units@ == value@.take(k as int),
    {
        units.push(value[k]);
        assert(units@ == value@.take(k + 1));
    }
    let chars = decode_utf16_lossy(&units);
    let m = chars.len();
    let mut start: usize = 0;
    assert(chars@.subrange(0, m as int) == chars@);
    while start < m && char_is_whitespace(chars[start])
        invariant
            start <= m == chars@.len(),
            trim_start(chars@) == trim_start(chars@.subrange(start as int, m as int)),
        decreases m - start,
    {
        assert(chars@.subrange(start as int, m as int).drop_first() == chars@.subrange(start + 1, m as int));
        start = start + 1;
    }
    let mut end: usize = m;
    let ghost front = chars@.subrange(start as int, m as int);
    assert(trim_start(chars@) == front);
    assert(chars@.subrange(start as int, m as int) == front);
    while end > start && char_is_whitespace(chars[end - 1])
        invariant
            start <= end <= m == chars@.len(),
            front == chars@.subrange(start as int, m as int),
            trim_end(front) == trim_end(chars@.subrange(start as int, end as int)),
        decreases end,
    {
        assert(chars@.subrange(start as int, end as int).drop_last() == chars@.subrange(start as int, end - 1));
        end = end - 1;
    }
    let mut kept: Vec<char> = Vec::new();
    for k in start..end
        invariant
            start <= end <= m == chars@.len(),
            kept@ == chars@.subrange(start as int, k as int),
    {
        kept.push(chars[k]);
        assert(kept@ == chars@.subrange(start as int, k + 1));
    }
    assert(trim_end(chars@.subrange(start as int, end as int)) == kept@);
    Some(chars_to_string(&kept))
}

} // verus!
