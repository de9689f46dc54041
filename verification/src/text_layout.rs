use vstd::prelude::*;
use crate::chars::{chars_to_string, str_to_chars};
use crate::text_decode::{char_is_control, is_control};

verus! {

// ---------------------------------------------------------------------------
// Tab expansion

/// The column at which a rendered line is cut off.
pub const MAX_RENDERED_LINE_CHARS: usize = 400;

/// Tab stops are this many columns apart.
pub const TAB_WIDTH: usize = 4;

/// What one character of a line becomes when it is rendered at `column`: a tab
/// becomes spaces up to the next tab stop, another control character is
/// dropped, anything else is kept.
pub open spec fn expanded_char(c: char, column: nat) -> Seq<char> {
    if c == '\t' {
        Seq::new((TAB_WIDTH - column % (TAB_WIDTH as nat)) as nat, |i: int| ' ')
    } else if is_control(c) {
        seq![]
    } else {
        seq![c]
    }
}

/// Renders the characters of `rest` after the output `done`, one at a time,
/// until the output reaches `MAX_RENDERED_LINE_CHARS` columns. Every output
/// character takes one column, so the column is the output's length.
pub open spec fn expand_after(rest: Seq<char>, done: Seq<char>) -> Seq<char>
    decreases rest.len(),
{
    if rest.len() == 0 || done.len() >= MAX_RENDERED_LINE_CHARS {
        done
    } else {
        expand_after(rest.drop_first(), done + expanded_char(rest[0], done.len()))
    }
}

/// A line as it is rendered: tabs expanded to four-column stops, other control
/// characters dropped, and cut off once it reaches 400 columns.
pub open spec fn expanded_line(line: Seq<char>) -> Seq<char> {
    expand_after(line, seq![])
}

/// Facts that hold of every rendering: only the `MAX_RENDERED_LINE_CHARS`
/// columns plus less than one tab stop, and neither tabs nor other control
/// characters.
pub proof fn lemma_expand_after_shape(rest: Seq<char>, done: Seq<char>)
    requires
        done.len() < MAX_RENDERED_LINE_CHARS + TAB_WIDTH,
        forall|i: int| 0 <= i < done.len() ==> !is_control(#[trigger] done[i]),
    ensures
        expand_after(rest, done).len() < MAX_RENDERED_LINE_CHARS + TAB_WIDTH,
        expand_after(rest, done).len() >= done.len(),
        forall|i: int|
            0 <= i < expand_after(rest, done).len() ==> !is_control(
                #[trigger] expand_after(rest, done)[i],
            ),
    decreases rest.len(),
{
    if rest.len() > 0 && done.len() < MAX_RENDERED_LINE_CHARS {
        let next = done + expanded_char(rest[0], done.len());
        assert forall|i: int| 0 <= i < next.len() implies !is_control(#[trigger] next[i]) by {
            if i >= done.len() {
                assert(next[i] == expanded_char(rest[0], done.len())[i - done.len()]);
            }
        }
        lemma_expand_after_shape(rest.drop_first(), next);
    }
}

/// Renders one line of text for the preview: tabs are expanded to four-column
/// stops, other control characters are dropped, and the line is cut off once
/// it reaches 400 columns.
pub fn expand_tabs(line: &str) -> (expanded: String)
    ensures
        expanded@ == expanded_line(line@),
        expanded@.len() < MAX_RENDERED_LINE_CHARS + TAB_WIDTH,
        forall|i: int| 0 <= i < expanded@.len() ==> !is_control(#[trigger] expanded@[i]),
{
    let chars = str_to_chars(line);
    let out = expand_line_chars(&chars);
    chars_to_string(&out)
}

/// `expand_tabs` on a line given as characters.
pub fn expand_line_chars(chars: &Vec<char>) -> (out: Vec<char>)
    ensures
        out@ == expanded_line(chars@),
        out@.len() < MAX_RENDERED_LINE_CHARS + TAB_WIDTH,
        forall|i: int| 0 <= i < out@.len() ==> !is_control(#[trigger] out@[i]),
{
    let ghost line = chars@;
    let n = chars.len();
    let mut out: Vec<char> = Vec::new();
    let mut column: usize = 0;
    let mut i: usize = 0;
    assert(chars@.subrange(0, n as int) == chars@);
    while i < n && column < MAX_RENDERED_LINE_CHARS
        invariant
            n == chars@.len(),
            i <= n,
            column == out@.len(),
            column < MAX_RENDERED_LINE_CHARS + TAB_WIDTH,
            expand_after(chars@.subrange(i as int, n as int), out@) == expanded_line(line),
            chars@ == line,
        decreases n - i,
    {
        let ghost rest = chars@.subrange(i as int, n as int);
        let ghost before = out@;
        let c = chars[i];
        assert(rest[0] == c);
        assert(rest.drop_first() == chars@.subrange(i + 1, n as int));
        if c == '\t' {
            let spaces = TAB_WIDTH - column % TAB_WIDTH;
            let mut k: usize = 0;
            while k < spaces
                invariant
                    k <= spaces,
                    out@ == before + Seq::new(k as nat, |j: int| ' '),
                decreases spaces - k,
            {
                out.push(' ');
                k = k + 1;
                assert(out@ == before + Seq::new(k as nat, |j: int| ' '));
            }
            column = column + spaces;
            assert(expanded_char(c, before.len()) =~= Seq::new(spaces as nat, |j: int| ' '));
        } else if !char_is_control(c) {
            assert(expanded_char(c, before.len()) == seq![c]);
            out.push(c);
            column = column + 1;
            assert(out@ =~= before + expanded_char(c, before.len()));
        } else {
            assert(expanded_char(c, before.len()) == Seq::<char>::empty());
            assert(before + expanded_char(c, before.len()) =~= before);
        }
        assert(out@ == before + expanded_char(c, before.len()));
        i = i + 1;
    }
    proof {
        let rest = chars@.subrange(i as int, n as int);
        assert(expand_after(rest, out@) == out@);
        lemma_expand_after_shape(line, seq![]);
    }
    out
}


// ---------------------------------------------------------------------------
// Lines

/// Index of the first line feed in `s`.
pub open spec fn first_newline(s: Seq<char>) -> Option<int>
    decreases s.len(),
{
    if s.len() == 0 {
        None
    } else if s[0] == '\n' {
        Some(0)
    } else {
        match first_newline(s.drop_first()) {
            Some(i) => Some(i + 1),
            None => None,
        }
    }
}

/// Where the first line feed of `s` is, stated by the characters before it.
pub proof fn lemma_first_newline(s: Seq<char>, j: int)
    requires
        0 <= j <= s.len(),
        forall|k: int| 0 <= k < j ==> s[k] != '\n',
        j < s.len() ==> s[j] == '\n',
    ensures
        first_newline(s) == (if j < s.len() {
            Some(j)
        } else {
            None::<int>
        }),
    decreases j,
{
    if j > 0 {
        let t = s.drop_first();
        assert forall|k: int| 0 <= k < j - 1 implies t[k] != '\n' by {
            assert(t[k] == s[k + 1]);
        }
        if j < s.len() {
            assert(t[j - 1] == s[j]);
        }
        lemma_first_newline(t, j - 1);
    }
}

/// A line without the carriage return of a CR LF line ending.
pub open spec fn without_carriage_return(line: Seq<char>) -> Seq<char> {
    if line.len() > 0 && line.last() == '\r' {
        line.drop_last()
    } else {
        line
    }
}

/// The lines of a text, as `str::lines` gives them: the text is cut at each
/// line feed, a carriage return just before a line feed is dropped, and a
/// final line feed does not start another line.
pub open spec fn text_lines(s: Seq<char>) -> Seq<Seq<char>>
    decreases s.len(),
{
    if s.len() == 0 {
        seq![]
    } else {
        match first_newline(s) {
            Some(i) => {
                proof {
                    lemma_first_newline_bound(s);
                }
                seq![without_carriage_return(s.take(i))] + text_lines(s.subrange(i + 1, s.len() as int))
            },
            None => seq![s],
        }
    }
}

/// A line feed that `first_newline` finds lies within the text, and none
/// comes before it; when it finds none, the text holds none.
pub proof fn lemma_first_newline_bound(s: Seq<char>)
    ensures
        first_newline(s) matches Some(i) ==> 0 <= i < s.len() && s[i] == '\n',
        first_newline(s) matches Some(i) ==> forall|k: int| 0 <= k < i ==> s[k] != '\n',
        first_newline(s) is None ==> forall|k: int| 0 <= k < s.len() ==> s[k] != '\n',
    decreases s.len(),
{
    if s.len() > 0 && s[0] != '\n' {
        lemma_first_newline_bound(s.drop_first());
        assert forall|k: int| 1 <= k < s.len() implies s[k] == s.drop_first()[k - 1] by {}
    }
}

/// The views of a vector of lines.
pub open spec fn line_views(lines: Seq<Vec<char>>) -> Seq<Seq<char>> {
    lines.map_values(|v: Vec<char>| v@)
}

/// The first `max_lines` lines of `text` (all of them when there are fewer).
pub fn first_lines(text: &Vec<char>, max_lines: usize) -> (lines: Vec<Vec<char>>)
    ensures
        line_views(lines@) == text_lines(text@).take(lines@.len() as int),
        lines@.len() == if text_lines(text@).len() < max_lines {
            text_lines(text@).len()
        } else {
            max_lines as nat
        },
{
    let n = text.len();
    let mut lines: Vec<Vec<char>> = Vec::new();
    let mut pos: usize = 0;
    assert(text@.subrange(0, n as int) == text@);
    assert(line_views(lines@) + text_lines(text@) =~= text_lines(text@));
    while pos < n && lines.len() < max_lines
        invariant
            n == text@.len(),
            pos <= n,
            lines@.len() <= max_lines,
            line_views(lines@) + text_lines(text@.subrange(pos as int, n as int)) == text_lines(text@),
        decreases n - pos,
    {
        let ghost rest = text@.subrange(pos as int, n as int);
        let ghost before = line_views(lines@);
        let mut j = pos;
        while j < n && text[j] != '\n'
            invariant
                pos <= j <= n == text@.len(),
                forall|k: int| pos <= k < j ==> text@[k] != '\n',
            decreases n - j,
        {
            j = j + 1;
        }
        proof {
            assert forall|k: int| 0 <= k < j - pos implies rest[k] != '\n' by {
                assert(rest[k] == text@[pos + k]);
            }
            if j < n {
                assert(rest[j - pos] == text@[j as int]);
            }
            lemma_first_newline(rest, j - pos);
        }
        let mut end = j;
        if j < n && end > pos && text[end - 1] == '\r' {
            end = end - 1;
        }
        let mut line: Vec<char> = Vec::new();
        for k in pos..end
            invariant
                pos <= end <= n == text@.len(),
                line@ == text@.subrange(pos as int, k as int),
        {
            line.push(text[k]);
            assert(line@ == text@.subrange(pos as int, k + 1));
        }
        let ghost piece = line@;
        lines.push(line);
        if j < n {
            assert(rest.take(j - pos) == text@.subrange(pos as int, j as int));
            assert(piece == without_carriage_return(rest.take(j - pos)));
            assert(rest.subrange(j - pos + 1, rest.len() as int) == text@.subrange(j + 1, n as int));
            assert(text_lines(rest) == seq![piece] + text_lines(text@.subrange(j + 1, n as int)));
            pos = j + 1;
        } else {
            assert(piece == rest);
            assert(text_lines(rest) == seq![piece]);
            assert(text@.subrange(n as int, n as int) == Seq::<char>::empty());
            pos = n;
        }
        assert(line_views(lines@) == before.push(piece));
        assert(line_views(lines@) + text_lines(text@.subrange(pos as int, n as int)) =~= before + text_lines(rest));
    }
    proof {
        let rest = text@.subrange(pos as int, n as int);
        let all = text_lines(text@);
        let got = line_views(lines@);
        if pos == n {
            assert(rest == Seq::<char>::empty());
            assert(got + text_lines(rest) =~= got);
        }
        assert(all.take(got.len() as int) =~= got);
        if lines@.len() < max_lines {
            assert(pos == n);
        }
    }
    lines
}

// ---------------------------------------------------------------------------
// Line numbers

/// The digit character for `d` (0 to 9).
pub open spec fn digit_char(d: nat) -> char {
    ((d + 48) as u32) as char
}

/// The decimal digits of `n`.
pub open spec fn decimal(n: nat) -> Seq<char>
    decreases n,
{
    if n < 10 {
        seq![digit_char(n)]
    } else {
        decimal(n / 10).push(digit_char(n % 10))
    }
}

/// `s` right-aligned in `width` columns with spaces before it.
pub open spec fn padded_left(s: Seq<char>, width: nat) -> Seq<char> {
    if s.len() >= width {
        s
    } else {
        Seq::new((width - s.len()) as nat, |i: int| ' ') + s
    }
}

/// The decimal digits of `n`.
pub fn decimal_chars(n: usize) -> (digits: Vec<char>)
    ensures
        digits@ == decimal(n as nat),
        digits@.len() >= 1,
    decreases n,
{
    if n < 10 {
        let d = ((n as u8) + 48) as char;
        assert(d == digit_char(n as nat));
        let mut v: Vec<char> = Vec::new();
        v.push(d);
        assert(v@ == seq![d]);
        v
    } else {
        let mut v = decimal_chars(n / 10);
        let d = (((n % 10) as u8) + 48) as char;
        assert(d == digit_char((n % 10) as nat));
        v.push(d);
        v
    }
}

/// `s` right-aligned in `width` columns.
fn pad_left(s: &Vec<char>, width: usize) -> (padded: Vec<char>)
    ensures
        padded@ == padded_left(s@, width as nat),
{
    let mut out: Vec<char> = Vec::new();
    let n = s.len();
    if n < width {
        let fill = width - n;
        for k in 0..fill
            invariant
                out@ == Seq::new(k as nat, |i: int| ' '),
        {
            out.push(' ');
            assert(out@ =~= Seq::new((k + 1) as nat, |i: int| ' '));
        }
    }
    let ghost fill = out@;
    for k in 0..n
        invariant
            n == s@.len(),
            out@ == fill + s@.take(k as int),
    {
        out.push(s[k]);
        assert(s@.take(k + 1) == s@.take(k as int).push(s@[k as int]));
        assert(out@ =~= fill + s@.take(k + 1));
    }
    assert(s@.take(n as int) == s@);
    assert(out@ =~= padded_left(s@, width as nat));
    out
}

/// One row of the preview: its right-aligned line number and its rendered
/// line.
pub struct PreviewRow {
    pub number: String,
    pub code: String,
}

/// The label of the line with index `index` (numbered from 1), right-aligned in
/// `width` columns.
pub open spec fn line_number_label(index: nat, width: nat) -> Seq<char> {
    padded_left(decimal(index + 1), width)
}

/// The rows that the preview shows of `text`: one for each of its first
/// `visible_lines` lines, numbered from 1 in `number_digits` columns.
pub fn preview_rows(text: &str, visible_lines: usize, number_digits: usize) -> (rows: Vec<PreviewRow>)
    requires
        visible_lines < usize::MAX,
    ensures
        rows@.len() == if text_lines(text@).len() < visible_lines {
            text_lines(text@).len()
        } else {
            visible_lines as nat
        },
        forall|i: int|
            0 <= i < rows@.len() ==> {
                &&& (#[trigger] rows@[i]).number@ == line_number_label(i as nat, number_digits as nat)
                &&& rows@[i].code@ == expanded_line(text_lines(text@)[i])
            },
{
    let chars = str_to_chars(text);
    let lines = first_lines(&chars, visible_lines);
    let mut rows: Vec<PreviewRow> = Vec::new();
    for i in 0..lines.len()
        invariant
            lines@.len() <= visible_lines < usize::MAX,
            lines@.len() <= text_lines(text@).len(),
            line_views(lines@) == text_lines(text@).take(lines@.len() as int),
            rows@.len() == i,
            forall|k: int|
                0 <= k < i ==> {
                    &&& (#[trigger] rows@[k]).number@ == line_number_label(k as nat, number_digits as nat)
                    &&& rows@[k].code@ == expanded_line(text_lines(text@)[k])
                },
    {
        let number = pad_left(&decimal_chars(i + 1), number_digits);
        let code = expand_line_chars(&lines[i]);
        assert(line_views(lines@)[i as int] == lines@[i as int]@);
        assert(text_lines(text@).take(lines@.len() as int)[i as int] == text_lines(text@)[i as int]);
        assert(code@ == expanded_line(text_lines(text@)[i as int]));
        rows.push(PreviewRow { number: chars_to_string(&number), code: chars_to_string(&code) });
    }
    rows
}


// ---------------------------------------------------------------------------
// Page layout

/// Height of a text row, in pixels.
pub const LINE_HEIGHT: i32 = 20;

/// Height of the header that shows the file name, on a tall enough page.
pub const HEADER_HEIGHT: i32 = 42;

/// Height of the footer that shows the encoding, on a tall enough page.
pub const FOOTER_HEIGHT: i32 = 28;

/// Gap between the header and the first row.
pub const CONTENT_TOP_GAP: i32 = 10;

/// Gap between the last row and the footer.
pub const CONTENT_BOTTOM_GAP: i32 = 8;

/// The line-number column is at least this many digits wide.
pub const MIN_NUMBER_DIGITS: usize = 3;

/// A digit is taken to be at least this many pixels wide.
pub const MIN_DIGIT_WIDTH: i32 = 8;

pub open spec fn layout_header(h: int) -> int {
    if h < HEADER_HEIGHT {
        h
    } else {
        HEADER_HEIGHT as int
    }
}

pub open spec fn layout_footer(h: int) -> int {
    let room = h - layout_header(h);
    if room < 0 {
        0
    } else if room < FOOTER_HEIGHT {
        room
    } else {
        FOOTER_HEIGHT as int
    }
}

pub open spec fn layout_content_top(h: int) -> int {
    layout_header(h) + CONTENT_TOP_GAP
}

pub open spec fn layout_content_bottom(h: int) -> int {
    h - layout_footer(h) - CONTENT_BOTTOM_GAP
}

/// How many whole rows fit between the header and the footer.
pub open spec fn layout_visible_lines(h: int) -> nat {
    let span = layout_content_bottom(h) - layout_content_top(h);
    if span <= 0 {
        0
    } else {
        (span / LINE_HEIGHT as int) as nat
    }
}

/// Width of the line-number column in digits: enough for the number of the
/// last visible row (at least for 1), and at least `MIN_NUMBER_DIGITS`.
pub open spec fn layout_number_digits(h: int) -> nat {
    let lines = layout_visible_lines(h);
    let digits = decimal(if lines < 1 {
        1
    } else {
        lines
    }).len();
    if digits < MIN_NUMBER_DIGITS {
        MIN_NUMBER_DIGITS as nat
    } else {
        digits
    }
}

/// The width of a digit as used for the gutter.
pub open spec fn effective_digit_width(digit_width: int) -> int {
    if digit_width < MIN_DIGIT_WIDTH {
        MIN_DIGIT_WIDTH as int
    } else {
        digit_width
    }
}

/// Width of the line-number gutter in pixels: the number column plus two
/// digits of margin.
pub open spec fn layout_gutter_width(h: int, digit_width: int) -> int {
    (layout_number_digits(h) + 2) * effective_digit_width(digit_width)
}

/// The vertical layout of a text page.
pub struct TextLayout {
    pub header_height: i32,
    pub footer_height: i32,
    pub content_top: i32,
    pub content_bottom: i32,
    pub visible_lines: usize,
    pub number_digits: usize,
    pub gutter_width: i32,
}

impl TextLayout {
    /// The layout of a page `height` pixels high, given the measured width of
    /// the digit `0` in the page's font.
    pub fn new(height: u32, digit_width: i32) -> (layout: TextLayout)
        requires
            height <= i32::MAX,
            layout_gutter_width(height as int, digit_width as int) <= i32::MAX,
        ensures
            layout.header_height == layout_header(height as int),
            layout.footer_height == layout_footer(height as int),
            layout.content_top == layout_content_top(height as int),
            layout.content_bottom == layout_content_bottom(height as int),
            layout.visible_lines == layout_visible_lines(height as int),
            layout.number_digits == layout_number_digits(height as int),
            layout.gutter_width == layout_gutter_width(height as int, digit_width as int),
            layout.content_top >= 0,
            layout.content_top + LINE_HEIGHT * layout.visible_lines <= i32::MAX,
    {
        let h = height as i32;
        let header = if h < HEADER_HEIGHT {
            h
        } else {
            HEADER_HEIGHT
        };
        let room = h - header;
        let footer = if room < FOOTER_HEIGHT {
            room
        } else {
            FOOTER_HEIGHT
        };
        let content_top = header + CONTENT_TOP_GAP;
        let content_bottom = h - footer - CONTENT_BOTTOM_GAP;
        let span = content_bottom - content_top;
        let visible: usize = if span > 0 {
            (span / LINE_HEIGHT) as usize
        } else {
            0
        };
        let numbered = if visible < 1 {
            1
        } else {
            visible
        };
        let digits_of_last = decimal_chars(numbered).len();
        let digits = if digits_of_last < MIN_NUMBER_DIGITS {
            MIN_NUMBER_DIGITS
        } else {
            digits_of_last
        };
        let width = if digit_width < MIN_DIGIT_WIDTH {
            MIN_DIGIT_WIDTH
        } else {
            digit_width
        };
        proof {
            assert(digits == layout_number_digits(height as int));
            assert(digits + 2 <= (digits + 2) * effective_digit_width(digit_width as int)) by (nonlinear_arith)
                requires
                    effective_digit_width(digit_width as int) >= 1,
            ;
        }
        let gutter = (digits as i32 + 2) * width;
        TextLayout {
            header_height: header,
            footer_height: footer,
            content_top,
            content_bottom,
            visible_lines: visible,
            number_digits: digits,
            gutter_width: gutter,
        }
    }

    /// The top of the row with index `index`.
    pub fn row_top(&self, index: usize) -> (top: i32)
        requires
            index < self.visible_lines,
            self.content_top >= 0,
            self.content_top + LINE_HEIGHT * self.visible_lines <= i32::MAX,
        ensures
            top == self.content_top + LINE_HEIGHT * index,
    {
        self.content_top + LINE_HEIGHT * (index as i32)
    }
}


// ---------------------------------------------------------------------------
// Laws

proof fn lemma_expand_plain_prefix(p: Seq<char>, rest: Seq<char>, done: Seq<char>)
    requires
        forall|i: int| 0 <= i < p.len() ==> !is_control(#[trigger] p[i]),
        done.len() + p.len() <= MAX_RENDERED_LINE_CHARS,
    ensures
        expand_after(p + rest, done) == expand_after(rest, done + p) || (done.len() + p.len()
            == MAX_RENDERED_LINE_CHARS && expand_after(p + rest, done) == done + p),
        done.len() + p.len() < MAX_RENDERED_LINE_CHARS ==> expand_after(p + rest, done)
            == expand_after(rest, done + p),
    decreases p.len(),
{
    if p.len() == 0 {
        assert(p + rest == rest);
        assert(done + p == done);
    } else {
        let c = p[0];
        assert((p + rest)[0] == c);
        assert((p + rest).drop_first() == p.drop_first() + rest);
        assert(expanded_char(c, done.len()) == seq![c]);
        assert(done + seq![c] + p.drop_first() == done + p);
        assert forall|i: int| 0 <= i < p.drop_first().len() implies !is_control(
            #[trigger] p.drop_first()[i],
        ) by {
            assert(p.drop_first()[i] == p[i + 1]);
        }
        lemma_expand_plain_prefix(p.drop_first(), rest, done + seq![c]);
    }
}

/// A line of at most 400 characters without tabs or other control characters
/// is rendered as it is.
pub proof fn plain_lines_render_unchanged(line: Seq<char>)
    requires
        line.len() <= 400,
        forall|i: int| 0 <= i < line.len() ==> !is_control(#[trigger] line[i]),
    ensures
        expanded_line(line) == line,
{
    lemma_expand_plain_prefix(line, seq![], seq![]);
    assert(line + Seq::<char>::empty() == line);
    assert(Seq::<char>::empty() + line == line);
}

/// A longer line without tabs or other control characters is cut to its
/// first 400 characters.
pub proof fn long_plain_lines_are_cut_at_400(line: Seq<char>)
    requires
        line.len() >= 400,
        forall|i: int| 0 <= i < line.len() ==> !is_control(#[trigger] line[i]),
    ensures
        expanded_line(line) == line.take(400),
{
    let p = line.take(400);
    let rest = line.subrange(400, line.len() as int);
    assert(p + rest == line);
    assert forall|i: int| 0 <= i < p.len() implies !is_control(#[trigger] p[i]) by {
        assert(p[i] == line[i]);
    }
    lemma_expand_plain_prefix(p, rest, seq![]);
    assert(Seq::<char>::empty() + p == p);
}

/// A tab after plain text fills with spaces up to the next multiple of four
/// columns: always at least one space and at most four.
pub proof fn tab_reaches_next_stop(prefix: Seq<char>)
    requires
        prefix.len() < 400,
        forall|i: int| 0 <= i < prefix.len() ==> !is_control(#[trigger] prefix[i]),
    ensures
        expanded_line(prefix.push('\t')) == prefix + Seq::new(
            (4 - prefix.len() % 4) as nat,
            |i: int| ' ',
        ),
        expanded_line(prefix.push('\t')).len() % 4 == 0,
        prefix.len() < expanded_line(prefix.push('\t')).len() <= prefix.len() + 4,
{
    let tab = seq!['\t'];
    assert(prefix.push('\t') == prefix + tab);
    lemma_expand_plain_prefix(prefix, tab, seq![]);
    assert(Seq::<char>::empty() + prefix == prefix);
    let spaces = expanded_char('\t', prefix.len());
    assert(expand_after(tab, prefix) == expand_after(tab.drop_first(), prefix + spaces));
    assert(tab.drop_first().len() == 0);
}

/// Splitting a text at a line feed splits its lines there: the lines of
/// `a`, a line feed, then `b` are the lines of `a` with its line feed followed
/// by the lines of `b`, for every `a` and `b`. A single line feed is one empty
/// line, and text without line feeds followed by one is that single line (less
/// a carriage return before the line feed). So every line feed ends a line,
/// and consecutive line feeds give empty lines between their neighbours.
pub proof fn lines_split_at_every_line_feed(a: Seq<char>, b: Seq<char>)
    ensures
        text_lines(a.push('\n') + b) == text_lines(a.push('\n')) + text_lines(b),
        text_lines(seq!['\n']) == seq![Seq::<char>::empty()],
        (forall|k: int| 0 <= k < a.len() ==> a[k] != '\n') ==> text_lines(a.push('\n')) == seq![
            without_carriage_return(a),
        ],
    decreases a.len(),
{
    let s = a.push('\n') + b;
    let t = a.push('\n');
    lemma_first_newline_bound(a);
    assert(seq!['\n'].subrange(1, 1) == Seq::<char>::empty());
    assert(seq!['\n'].take(0) == Seq::<char>::empty());
    assert(first_newline(seq!['\n']) == Some(0int));
    match first_newline(a) {
        Some(i) => {
            assert(s[i] == '\n' && t[i] == '\n');
            assert forall|k: int| 0 <= k < i implies s[k] != '\n' && t[k] != '\n' by {
                assert(s[k] == a[k] && t[k] == a[k]);
            }
            lemma_first_newline(s, i);
            lemma_first_newline(t, i);
            let rest = a.subrange(i + 1, a.len() as int);
            assert(s.take(i) == a.take(i));
            assert(t.take(i) == a.take(i));
            assert(s.subrange(i + 1, s.len() as int) == rest.push('\n') + b);
            assert(t.subrange(i + 1, t.len() as int) == rest.push('\n'));
            lines_split_at_every_line_feed(rest, b);
            assert(text_lines(s) == seq![without_carriage_return(a.take(i))] + text_lines(rest.push('\n') + b));
            assert(text_lines(t) == seq![without_carriage_return(a.take(i))] + text_lines(rest.push('\n')));
            assert(text_lines(s) =~= text_lines(t) + text_lines(b));
        },
        None => {
            let i = a.len() as int;
            assert forall|k: int| 0 <= k < i implies s[k] != '\n' && t[k] != '\n' by {
                assert(s[k] == a[k] && t[k] == a[k]);
            }
            assert(s[i] == '\n' && t[i] == '\n');
            lemma_first_newline(s, i);
            lemma_first_newline(t, i);
            assert(s.take(i) == a);
            assert(t.take(i) == a);
            assert(s.subrange(i + 1, s.len() as int) == b);
            assert(t.subrange(i + 1, t.len() as int) == Seq::<char>::empty());
            assert(text_lines(t) == seq![without_carriage_return(a)] + text_lines(Seq::<char>::empty()));
            assert(text_lines(t) =~= seq![without_carriage_return(a)]);
            assert(text_lines(s) =~= text_lines(t) + text_lines(b));
        },
    }
}

/// A carriage return is dropped only where it ends a line just before a line
/// feed: text without line feeds followed by CR LF is that text as one line,
/// and a carriage return at the very end of a text, with no line feed after
/// it, stays in the last line.
pub proof fn carriage_returns_end_lines_only_before_line_feeds(a: Seq<char>)
    requires
        forall|k: int| 0 <= k < a.len() ==> a[k] != '\n',
    ensures
        text_lines(a.push('\r').push('\n')) == seq![a],
        text_lines(a.push('\r')) == seq![a.push('\r')],
        a.len() > 0 && a.last() != '\r' ==> text_lines(a.push('\n')) == seq![a],
{
    let cr = a.push('\r');
    assert forall|k: int| 0 <= k < cr.len() implies cr[k] != '\n' by {
        if k < a.len() {
            assert(cr[k] == a[k]);
        }
    }
    lines_split_at_every_line_feed(cr, Seq::<char>::empty());
    lines_split_at_every_line_feed(a, Seq::<char>::empty());
    assert(cr.drop_last() == a);
    lemma_first_newline(cr, cr.len() as int);
}

/// How many line feeds a text holds.
pub open spec fn line_feed_count(s: Seq<char>) -> nat
    decreases s.len(),
{
    if s.len() == 0 {
        0
    } else {
        (if s[0] == '\n' {
            1nat
        } else {
            0nat
        }) + line_feed_count(s.drop_first())
    }
}

proof fn lemma_line_feed_count_skip(s: Seq<char>, k: int)
    requires
        0 <= k <= s.len(),
        forall|j: int| 0 <= j < k ==> s[j] != '\n',
    ensures
        line_feed_count(s) == line_feed_count(s.subrange(k, s.len() as int)),
    decreases k,
{
    if k > 0 {
        let t = s.drop_first();
        assert forall|j: int| 0 <= j < k - 1 implies t[j] != '\n' by {
            assert(t[j] == s[j + 1]);
        }
        lemma_line_feed_count_skip(t, k - 1);
        assert(t.subrange(k - 1, t.len() as int) == s.subrange(k, s.len() as int));
    } else {
        assert(s.subrange(0, s.len() as int) == s);
    }
}

/// A text has one line for each line feed, plus one for a last line that is
/// not ended by a line feed: no line is dropped and none is added.
pub proof fn line_count_follows_line_feeds(s: Seq<char>)
    ensures
        text_lines(s).len() == line_feed_count(s) + if s.len() > 0 && s.last() != '\n' {
            1nat
        } else {
            0nat
        },
    decreases s.len(),
{
    if s.len() > 0 {
        lemma_first_newline_bound(s);
        match first_newline(s) {
            Some(i) => {
                let rest = s.subrange(i + 1, s.len() as int);
                lemma_line_feed_count_skip(s, i);
                let from_i = s.subrange(i, s.len() as int);
                assert(from_i[0] == '\n');
                assert(from_i.drop_first() == rest);
                line_count_follows_line_feeds(rest);
                if rest.len() > 0 {
                    assert(rest.last() == s.last());
                } else {
                    assert(s.last() == s[i]);
                }
            },
            None => {
                lemma_line_feed_count_skip(s, s.len() as int);
                assert(s.subrange(s.len() as int, s.len() as int) == Seq::<char>::empty());
                assert(s.last() != '\n');
            },
        }
    }
}

/// The number a right-aligned numeral stands for: its digits read in base ten,
/// spaces left out.
pub open spec fn numeral_value(s: Seq<char>) -> int
    decreases s.len(),
{
    if s.len() == 0 {
        0
    } else if s.last() == ' ' {
        numeral_value(s.drop_last())
    } else {
        numeral_value(s.drop_last()) * 10 + (s.last() as int - '0' as int)
    }
}

proof fn lemma_decimal_value(n: nat)
    ensures
        numeral_value(decimal(n)) == n,
        forall|i: int| 0 <= i < decimal(n).len() ==> '0' <= #[trigger] decimal(n)[i] <= '9',
    decreases n,
{
    assert(digit_char(n % 10) as int == n % 10 + 48);
    assert(digit_char(n % 10) != ' ');
    assert('0' as int == 48);
    if n < 10 {
        assert(decimal(n).drop_last() =~= Seq::<char>::empty());
        assert(decimal(n).last() == digit_char(n % 10));
        assert(numeral_value(Seq::<char>::empty()) == 0);
    } else {
        lemma_decimal_value(n / 10);
        let d = decimal(n);
        assert(d.last() == digit_char(n % 10));
        assert((n / 10) * 10 + n % 10 == n);
        assert(d.drop_last() == decimal(n / 10));
        assert forall|i: int| 0 <= i < d.len() implies '0' <= #[trigger] d[i] <= '9' by {
            if i < d.len() - 1 {
                assert(d[i] == decimal(n / 10)[i]);
            }
        }
    }
}

proof fn lemma_value_after_spaces(k: nat, x: Seq<char>)
    ensures
        numeral_value(Seq::new(k, |i: int| ' ') + x) == numeral_value(x),
    decreases x.len(), k,
{
    let sp = Seq::new(k, |i: int| ' ');
    if x.len() == 0 {
        assert(sp + x == sp);
        if k > 0 {
            assert(sp.drop_last() == Seq::new((k - 1) as nat, |i: int| ' '));
            assert(Seq::new((k - 1) as nat, |i: int| ' ') + x == Seq::new((k - 1) as nat, |i: int| ' '));
            lemma_value_after_spaces((k - 1) as nat, x);
        }
    } else {
        assert((sp + x).drop_last() == sp + x.drop_last());
        assert((sp + x).last() == x.last());
        lemma_value_after_spaces(k, x.drop_last());
    }
}

/// Rows are numbered from 1: the label of the row with index `i` is made of
/// spaces and then decimal digits that read `i + 1`, and it is as wide as the
/// column, or as wide as the number when the number is wider.
pub proof fn row_labels_count_from_one(index: nat, width: nat)
    ensures
        numeral_value(line_number_label(index, width)) == index + 1,
        forall|i: int|
            0 <= i < line_number_label(index, width).len() ==> (#[trigger] line_number_label(index, width)[i]
                == ' ' || ('0' <= line_number_label(index, width)[i] <= '9')),
        line_number_label(index, width).len() >= width,
        line_number_label(index, width).len() == width || line_number_label(index, width) == decimal(
            index + 1,
        ),
{
    let d = decimal(index + 1);
    lemma_decimal_value(index + 1);
    if d.len() < width {
        let k = (width - d.len()) as nat;
        lemma_value_after_spaces(k, d);
        let label = line_number_label(index, width);
        assert forall|i: int| 0 <= i < label.len() implies (#[trigger] label[i] == ' ' || ('0' <= label[i]
            <= '9')) by {
            if i >= k {
                assert(label[i] == d[i - k]);
            }
        }
    }
}

/// A page at least 70 pixels tall has a 42-pixel header and a 28-pixel
/// footer; its rows start 10 pixels below the header and end at least 8
/// pixels above the footer, 20 pixels each. A shorter page gives the header
/// what there is (up to 42 pixels) and the footer the rest.
pub proof fn page_layout_by_height(height: int)
    requires
        height >= 0,
    ensures
        height >= 70 ==> layout_header(height) == 42 && layout_footer(height) == 28
            && layout_content_top(height) == 52 && layout_content_bottom(height) == height - 36,
        height >= 70 ==> layout_visible_lines(height) == if height > 88 {
            (height - 88) / 20
        } else {
            0
        },
        height < 42 ==> layout_header(height) == height && layout_footer(height) == 0
            && layout_visible_lines(height) == 0,
        42 <= height < 70 ==> layout_header(height) == 42 && layout_footer(height) == height - 42
            && layout_visible_lines(height) == 0,
{
}

proof fn lemma_decimal_len_monotonic(a: nat, b: nat)
    requires
        a <= b,
    ensures
        decimal(a).len() <= decimal(b).len(),
    decreases b,
{
    if a >= 10 {
        lemma_decimal_len_monotonic(a / 10, b / 10);
    }
}

/// The line-number column fits the number of every visible row: each label is
/// exactly `number_digits` characters wide.
pub proof fn line_numbers_fit_column(height: int, index: nat)
    requires
        index < layout_visible_lines(height),
    ensures
        line_number_label(index, layout_number_digits(height)).len() == layout_number_digits(height),
{
    lemma_decimal_len_monotonic(index + 1, layout_visible_lines(height));
}

/// The visible rows fit between the header and the footer, and one more row
/// would not.
pub proof fn rows_fit_between_header_and_footer(height: int)
    requires
        height >= 0,
    ensures
        layout_content_top(height) + LINE_HEIGHT * layout_visible_lines(height) <= layout_content_bottom(
            height,
        ) || layout_visible_lines(height) == 0,
        layout_content_top(height) + LINE_HEIGHT * (layout_visible_lines(height) + 1) > layout_content_bottom(
            height,
        ),
        layout_header(height) + layout_footer(height) <= height,
        layout_header(height) >= 0 && layout_footer(height) >= 0,
{
}

} // verus!
