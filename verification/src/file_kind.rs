use vstd::prelude::*;
use crate::chars::str_to_chars;

verus! {

// ---------------------------------------------------------------------------
// File names and extensions
//
// A path is read with the rules of Windows paths: an optional prefix (a drive
// `C:`, a share `\\server\share`, a device `\\.\name`, or a verbatim `\\?\...`
// form), then components. `/` and `\` both separate components, except in a
// verbatim path, where only `\` does.

/// A path separator outside verbatim paths: `/` or `\`.
pub open spec fn is_separator(c: char) -> bool {
    c == '/' || c == '\\'
}

/// Whether `c` separates components: `\` always, `/` except in a verbatim path.
pub open spec fn separates(c: char, verbatim: bool) -> bool {
    c == '\\' || (!verbatim && c == '/')
}

pub open spec fn is_ascii_letter(c: char) -> bool {
    ('a' <= c && c <= 'z') || ('A' <= c && c <= 'Z')
}

/// Index of the first separator in `s`, or its length when it has none.
pub open spec fn first_separator(s: Seq<char>, verbatim: bool) -> int
    decreases s.len(),
{
    if s.len() == 0 {
        0
    } else if separates(s[0], verbatim) {
        0
    } else {
        1 + first_separator(s.drop_first(), verbatim)
    }
}

/// The characters of `s` before its first separator.
pub open spec fn leading_component(s: Seq<char>, verbatim: bool) -> Seq<char> {
    s.take(first_separator(s, verbatim))
}

/// The characters of `s` after its first separator (none when it has none).
pub open spec fn after_leading_component(s: Seq<char>, verbatim: bool) -> Seq<char> {
    if first_separator(s, verbatim) < s.len() {
        s.subrange(first_separator(s, verbatim) + 1, s.len() as int)
    } else {
        seq![]
    }
}

/// Where the first separator of `s` is.
pub proof fn lemma_first_separator(s: Seq<char>, verbatim: bool)
    ensures
        0 <= first_separator(s, verbatim) <= s.len(),
        forall|i: int| 0 <= i < first_separator(s, verbatim) ==> !separates(#[trigger] s[i], verbatim),
        first_separator(s, verbatim) < s.len() ==> separates(s[first_separator(s, verbatim)], verbatim),
    decreases s.len(),
{
    if s.len() > 0 && !separates(s[0], verbatim) {
        lemma_first_separator(s.drop_first(), verbatim);
        assert forall|i: int| 0 <= i < first_separator(s, verbatim) implies !separates(
            #[trigger] s[i],
            verbatim,
        ) by {
            if i > 0 {
                assert(s[i] == s.drop_first()[i - 1]);
            }
        }
    }
}

/// Whether the path begins with a drive such as `C:`.
pub open spec fn has_drive(p: Seq<char>) -> bool {
    p.len() >= 2 && is_ascii_letter(p[0]) && p[1] == ':'
}

/// Whether the path begins with two separators.
pub open spec fn starts_with_two_separators(p: Seq<char>) -> bool {
    p.len() >= 2 && is_separator(p[0]) && is_separator(p[1])
}

/// Whether the path begins with `\\?\`, written with backslashes only.
pub open spec fn starts_verbatim(p: Seq<char>) -> bool {
    p.len() >= 4 && p[0] == '\\' && p[1] == '\\' && p[2] == '?' && p[3] == '\\'
}

/// Whether the path begins with `\\.\` (either separator in each place).
pub open spec fn starts_device(p: Seq<char>) -> bool {
    starts_with_two_separators(p) && p.len() >= 4 && p[2] == '.' && is_separator(p[3])
}

/// Whether a verbatim path goes on with `UNC\` (either separator at the end).
pub open spec fn starts_verbatim_unc(p: Seq<char>) -> bool {
    p.len() >= 8 && p[4] == 'U' && p[5] == 'N' && p[6] == 'C' && is_separator(p[7])
}

/// Whether a verbatim path goes on with exactly a drive: `\\?\C:` at the end of
/// the path or before a separator.
pub open spec fn starts_verbatim_drive(p: Seq<char>) -> bool {
    p.len() >= 6 && is_ascii_letter(p[4]) && p[5] == ':' && (p.len() == 6 || is_separator(p[6]))
}

/// The length of a share prefix whose server starts at `from`, in a path where
/// `verbatim` says which separators count: the server, and the share after it
/// when there is one.
pub open spec fn share_prefix_end(p: Seq<char>, from: int, verbatim: bool) -> int {
    let rest = p.subrange(from, p.len() as int);
    let server = leading_component(rest, verbatim);
    let share = leading_component(after_leading_component(rest, verbatim), verbatim);
    from + server.len() + if share.len() > 0 {
        1 + share.len()
    } else {
        0
    }
}

/// The prefix of a path: how many characters it takes, and whether the path is
/// verbatim. A path without a prefix has a prefix of length 0.
///
/// - `\\?\UNC\server\share`: verbatim share.
/// - `\\?\C:`: verbatim drive.
/// - `\\?\name`: other verbatim prefix, up to the next `\`.
/// - `\\.\name`: device, up to the next separator.
/// - `\\server\share`: share, when both parts are non-empty.
/// - `C:`: drive.
pub open spec fn path_prefix(p: Seq<char>) -> (int, bool) {
    if starts_with_two_separators(p) {
        if starts_verbatim(p) {
            if starts_verbatim_unc(p) {
                (share_prefix_end(p, 8, true), true)
            } else if starts_verbatim_drive(p) {
                (6, true)
            } else {
                (4 + leading_component(p.subrange(4, p.len() as int), true).len() as int, true)
            }
        } else if starts_device(p) {
            (4 + leading_component(p.subrange(4, p.len() as int), false).len() as int, false)
        } else {
            let rest = p.subrange(2, p.len() as int);
            let server = leading_component(rest, false);
            let share = leading_component(after_leading_component(rest, false), false);
            if server.len() > 0 && share.len() > 0 {
                (2 + server.len() + 1 + share.len() as int, false)
            } else {
                (0, false)
            }
        }
    } else if has_drive(p) {
        (2, false)
    } else {
        (0, false)
    }
}

/// Bounds of a share prefix.
pub proof fn lemma_share_prefix_end(p: Seq<char>, from: int, verbatim: bool)
    requires
        0 <= from <= p.len(),
    ensures
        from <= share_prefix_end(p, from, verbatim) <= p.len(),
{
    let rest = p.subrange(from, p.len() as int);
    lemma_first_separator(rest, verbatim);
    let after = after_leading_component(rest, verbatim);
    lemma_first_separator(after, verbatim);
}

/// A prefix never runs past the end of its path.
pub proof fn lemma_path_prefix_bound(p: Seq<char>)
    ensures
        0 <= path_prefix(p).0 <= p.len(),
{
    if starts_with_two_separators(p) {
        if p.len() >= 4 {
            lemma_first_separator(p.subrange(4, p.len() as int), true);
            lemma_first_separator(p.subrange(4, p.len() as int), false);
        }
        if starts_verbatim(p) && starts_verbatim_unc(p) {
            lemma_share_prefix_end(p, 8, true);
        }
        let rest = p.subrange(2, p.len() as int);
        lemma_first_separator(rest, false);
        lemma_first_separator(after_leading_component(rest, false), false);
    }
}

/// Where the last component of `p` begins: just after its last separator, or
/// at 0 when it has none.
pub open spec fn component_start(p: Seq<char>, verbatim: bool) -> int
    decreases p.len(),
{
    if p.len() == 0 {
        0
    } else if separates(p.last(), verbatim) {
        p.len() as int
    } else {
        component_start(p.drop_last(), verbatim)
    }
}

/// Facts about where the last component of a path begins.
pub proof fn lemma_component_start(p: Seq<char>, verbatim: bool)
    ensures
        0 <= component_start(p, verbatim) <= p.len(),
        p.len() > 0 && !separates(p.last(), verbatim) ==> component_start(p, verbatim) < p.len(),
        forall|i: int|
            component_start(p, verbatim) <= i < p.len() ==> !separates(#[trigger] p[i], verbatim),
        component_start(p, verbatim) > 0 ==> separates(p[component_start(p, verbatim) - 1], verbatim),
    decreases p.len(),
{
    if p.len() > 0 && !separates(p.last(), verbatim) {
        lemma_component_start(p.drop_last(), verbatim);
        assert forall|i: int| component_start(p, verbatim) <= i < p.len() implies !separates(
            #[trigger] p[i],
            verbatim,
        ) by {
            if i < p.len() - 1 {
                assert(p.drop_last()[i] == p[i]);
            }
        }
        if component_start(p, verbatim) > 0 {
            assert(p.drop_last()[component_start(p, verbatim) - 1] == p[component_start(p, verbatim)
                - 1]);
        }
    }
}

/// The name of the last component of the part of a path after its prefix.
/// Trailing separators are passed over; so is a `.` component, except in a
/// verbatim path, where it names the current directory. Nothing when there is
/// no component left or the last one is `..` (or a verbatim `.`).
pub open spec fn last_name(p: Seq<char>, verbatim: bool) -> Option<Seq<char>>
    decreases p.len(),
{
    if p.len() == 0 {
        None
    } else if separates(p.last(), verbatim) {
        last_name(p.drop_last(), verbatim)
    } else {
        let start = component_start(p, verbatim);
        let component = p.subrange(start, p.len() as int);
        proof {
            lemma_component_start(p, verbatim);
        }
        if component == seq!['.'] {
            if verbatim {
                None
            } else {
                last_name(p.subrange(0, start), verbatim)
            }
        } else if component == seq!['.', '.'] {
            None
        } else {
            Some(component)
        }
    }
}

/// The file name of a path: the name of its last component after its prefix.
pub open spec fn path_file_name(p: Seq<char>) -> Option<Seq<char>> {
    let (len, verbatim) = path_prefix(p);
    last_name(p.subrange(len, p.len() as int), verbatim)
}

/// Index of the last `.` in `name`.
pub open spec fn last_dot(name: Seq<char>) -> Option<int>
    decreases name.len(),
{
    if name.len() == 0 {
        None
    } else if name.last() == '.' {
        Some(name.len() - 1)
    } else {
        last_dot(name.drop_last())
    }
}

/// The extension of a file name: what follows its last `.`; nothing when it has
/// no `.`, or when its only `.` is its first character.
pub open spec fn file_extension(name: Seq<char>) -> Option<Seq<char>> {
    match last_dot(name) {
        None => None,
        Some(i) => if i == 0 {
            None
        } else {
            Some(name.subrange(i + 1, name.len() as int))
        },
    }
}

/// ASCII lowercase of one character.
pub open spec fn ascii_lower_char(c: char) -> char {
    if 'A' <= c && c <= 'Z' {
        ((c as u32) + 32) as char
    } else {
        c
    }
}

/// ASCII lowercase of a text.
pub open spec fn ascii_lower(s: Seq<char>) -> Seq<char> {
    s.map_values(|c: char| ascii_lower_char(c))
}

fn is_separator_exec(c: char) -> (r: bool)
    ensures
        r == is_separator(c),
{
    c == '/' || c == '\\'
}

fn separates_exec(c: char, verbatim: bool) -> (r: bool)
    ensures
        r == separates(c, verbatim),
{
    c == '\\' || (!verbatim && c == '/')
}

fn is_ascii_letter_exec(c: char) -> (r: bool)
    ensures
        r == is_ascii_letter(c),
{
    ('a' <= c && c <= 'z') || ('A' <= c && c <= 'Z')
}

/// The characters `v[from..to]`.
fn copy_range(v: &Vec<char>, from: usize, to: usize) -> (r: Vec<char>)
    requires
        from <= to <= v@.len(),
    ensures
        r@ == v@.subrange(from as int, to as int),
{
    let mut r: Vec<char> = Vec::new();
    for i in from..to
        invariant
            from <= to <= v@.len(),
            r@ == v@.subrange(from as int, i as int),
    {
        r.push(v[i]);
        assert(r@ == v@.subrange(from as int, i + 1));
    }
    r
}

/// Index of the first separator in `p` at or after `start`, or the length of
/// `p` when there is none.
fn find_separator(p: &Vec<char>, start: usize, verbatim: bool) -> (end: usize)
    requires
        start <= p@.len(),
    ensures
        start <= end <= p@.len(),
        end - start == first_separator(p@.subrange(start as int, p@.len() as int), verbatim),
{
    let n = p.len();
    let mut j = start;
    while j < n && !separates_exec(p[j], verbatim)
        invariant
            start <= j <= n == p@.len(),
            first_separator(p@.subrange(start as int, n as int), verbatim) == (j - start)
                + first_separator(p@.subrange(j as int, n as int), verbatim),
        decreases n - j,
    {
        assert(p@.subrange(j as int, n as int).drop_first() == p@.subrange(j + 1, n as int));
        j = j + 1;
    }
    j
}

/// Length of the share prefix whose server starts at `from` (see
/// `share_prefix_end`).
fn share_prefix_end_exec(p: &Vec<char>, from: usize, verbatim: bool) -> (end: usize)
    requires
        from <= p@.len(),
    ensures
        end as int == share_prefix_end(p@, from as int, verbatim),
        end <= p@.len(),
{
    let n = p.len();
    let ghost rest = p@.subrange(from as int, n as int);
    let server_end = find_separator(p, from, verbatim);
    proof {
        lemma_first_separator(rest, verbatim);
        assert(leading_component(rest, verbatim).len() == server_end - from);
    }
    if server_end == n {
        assert(after_leading_component(rest, verbatim) == Seq::<char>::empty());
        assert(leading_component(Seq::<char>::empty(), verbatim).len() == 0);
        return server_end;
    }
    assert(after_leading_component(rest, verbatim) == p@.subrange(server_end + 1, n as int));
    let share_end = find_separator(p, server_end + 1, verbatim);
    proof {
        lemma_first_separator(p@.subrange(server_end + 1, n as int), verbatim);
    }
    if share_end == server_end + 1 {
        server_end
    } else {
        share_end
    }
}

/// The prefix of a path (see `path_prefix`).
fn prefix_of(p: &Vec<char>) -> (prefix: (usize, bool))
    ensures
        prefix.0 as int == path_prefix(p@).0,
        prefix.1 == path_prefix(p@).1,
        prefix.0 <= p@.len(),
{
    let n = p.len();
    proof {
        lemma_path_prefix_bound(p@);
    }
    if n >= 2 && is_separator_exec(p[0]) && is_separator_exec(p[1]) {
        if n >= 4 && p[0] == '\\' && p[1] == '\\' && p[2] == '?' && p[3] == '\\' {
            if n >= 8 && p[4] == 'U' && p[5] == 'N' && p[6] == 'C' && is_separator_exec(p[7]) {
                (share_prefix_end_exec(p, 8, true), true)
            } else if n >= 6 && is_ascii_letter_exec(p[4]) && p[5] == ':' && (n == 6
                || is_separator_exec(p[6])) {
                (6, true)
            } else {
                let end = find_separator(p, 4, true);
                proof {
                    lemma_first_separator(p@.subrange(4, n as int), true);
                }
                (end, true)
            }
        } else if n >= 4 && p[2] == '.' && is_separator_exec(p[3]) {
            let end = find_separator(p, 4, false);
            proof {
                lemma_first_separator(p@.subrange(4, n as int), false);
            }
            (end, false)
        } else {
            let ghost rest = p@.subrange(2, n as int);
            let server_end = find_separator(p, 2, false);
            proof {
                lemma_first_separator(rest, false);
            }
            if server_end == 2 || server_end == n {
                proof {
                    if server_end == n {
                        assert(after_leading_component(rest, false) == Seq::<char>::empty());
                    }
                }
                return (0, false);
            }
            assert(after_leading_component(rest, false) == p@.subrange(server_end + 1, n as int));
            let share_end = find_separator(p, server_end + 1, false);
            proof {
                lemma_first_separator(p@.subrange(server_end + 1, n as int), false);
            }
            if share_end == server_end + 1 {
                (0, false)
            } else {
                (share_end, false)
            }
        }
    } else if n >= 2 && is_ascii_letter_exec(p[0]) && p[1] == ':' {
        (2, false)
    } else {
        (0, false)
    }
}

/// Start of the last component of `q[..end]`, found by walking back.
fn find_component_start(q: &Vec<char>, end: usize, verbatim: bool) -> (start: usize)
    requires
        end <= q@.len(),
    ensures
        start as int == component_start(q@.subrange(0, end as int), verbatim),
{
    let ghost whole = q@.subrange(0, end as int);
    let mut start = end;
    while start > 0 && !separates_exec(q[start - 1], verbatim)
        invariant
            start <= end <= q@.len(),
            whole == q@.subrange(0, end as int),
            component_start(whole, verbatim) == component_start(q@.subrange(0, start as int), verbatim),
        decreases start,
    {
        let ghost prefix = q@.subrange(0, start as int);
        assert(prefix.drop_last() == q@.subrange(0, start - 1));
        start = start - 1;
    }
    start
}

/// The file name of a path (see `path_file_name`).
pub fn file_name_of(path: &Vec<char>) -> (name: Option<Vec<char>>)
    ensures
        match name {
            Some(n) => path_file_name(path@) == Some(n@),
            None => path_file_name(path@) is None,
        },
{
    let n = path.len();
    let (len, verbatim) = prefix_of(path);
    let q = copy_range(path, len, n);
    let mut end = q.len();
    assert(q@.subrange(0, end as int) == q@);
    loop
        invariant
            end <= q@.len(),
            q@ == path@.subrange(path_prefix(path@).0, path@.len() as int),
            verbatim == path_prefix(path@).1,
            last_name(q@.subrange(0, end as int), verbatim) == last_name(q@, verbatim),
        decreases end,
    {
        let ghost p = q@.subrange(0, end as int);
        if end == 0 {
            return None;
        }
        if separates_exec(q[end - 1], verbatim) {
            assert(p.drop_last() == q@.subrange(0, end - 1));
            end = end - 1;
        } else {
            let start = find_component_start(&q, end, verbatim);
            proof {
                lemma_component_start(p, verbatim);
            }
            let component = copy_range(&q, start, end);
            assert(component@ == p.subrange(start as int, p.len() as int));
            if end - start == 1 && q[start] == '.' {
                assert(component@ == seq!['.']);
                if verbatim {
                    return None;
                }
                assert(p.subrange(0, start as int) == q@.subrange(0, start as int));
                end = start;
            } else if end - start == 2 && q[start] == '.' && q[start + 1] == '.' {
                assert(component@ == seq!['.', '.']);
                return None;
            } else {
                assert(component@.len() == end - start);
                assert(component@[0] == q@[start as int]);
                if end - start == 2 {
                    assert(component@[1] == q@[start + 1]);
                }
                assert(component@ != seq!['.']) by {
                    if component@.len() == 1 {
                        assert(seq!['.'][0] == '.');
                    }
                }
                assert(component@ != seq!['.', '.']) by {
                    if component@.len() == 2 {
                        assert(seq!['.', '.'][0] == '.');
                        assert(seq!['.', '.'][1] == '.');
                    }
                }
                return Some(component);
            }
        }
    }
}

/// The extension of a file name (see `file_extension`).
pub fn extension_of(name: &Vec<char>) -> (ext: Option<Vec<char>>)
    ensures
        match ext {
            Some(e) => file_extension(name@) == Some(e@),
            None => file_extension(name@) is None,
        },
{
    let n = name.len();
    let mut end = n;
    assert(name@.subrange(0, n as int) == name@);
    while end > 0 && name[end - 1] != '.'
        invariant
            end <= n == name@.len(),
            last_dot(name@) == last_dot(name@.subrange(0, end as int)),
        decreases end,
    {
        assert(name@.subrange(0, end as int).drop_last() == name@.subrange(0, end - 1));
        end = end - 1;
    }
    if end == 0 {
        assert(last_dot(name@) is None);
        None
    } else if end == 1 {
        assert(last_dot(name@) == Some(0int));
        None
    } else {
        assert(last_dot(name@) == Some(end - 1));
        Some(copy_range(name, end, n))
    }
}

/// ASCII lowercase of a sequence of characters.
pub fn to_ascii_lower(s: &Vec<char>) -> (lower: Vec<char>)
    ensures
        lower@ == ascii_lower(s@),
{
    let mut lower: Vec<char> = Vec::new();
    for i in 0..s.len()
        invariant
            lower@ == ascii_lower(s@.take(i as int)),
    {
        let c = s[i];
        let d = if 'A' <= c && c <= 'Z' {
            ((c as u8) + 32) as char
        } else {
            c
        };
        assert(d == ascii_lower_char(c));
        lower.push(d);
        assert(ascii_lower(s@.take(i + 1)) == ascii_lower(s@.take(i as int)).push(ascii_lower_char(c)));
    }
    assert(s@.take(s@.len() as int) == s@);
    lower
}


// ---------------------------------------------------------------------------
// Which files are previewed as text

/// The lowercase extensions of the files previewed as text.
pub open spec fn text_extensions() -> Seq<Seq<char>> {
    seq![
        "txt"@, "md"@, "markdown"@, "log"@, "ini"@, "cfg"@, "conf"@, "rs"@, "py"@, "pyw"@,
        "js"@, "jsx"@, "mjs"@, "cjs"@, "ts"@, "tsx"@, "c"@, "h"@, "cc"@, "cpp"@, "cxx"@, "hh"@,
        "hpp"@, "hxx"@, "cs"@, "java"@, "go"@, "rb"@, "php"@, "swift"@, "kt"@, "kts"@, "html"@,
        "htm"@, "css"@, "scss"@, "sass"@, "less"@, "xml"@, "json"@, "jsonc"@, "yaml"@, "yml"@,
        "toml"@, "sql"@, "sh"@, "bash"@, "zsh"@, "ps1"@, "psm1"@, "psd1"@, "bat"@, "cmd"@,
        "lua"@, "r"@, "dart"@, "vue"@, "svelte"@, "gradle"@, "properties"@, "env"@
    ]
}

/// The lowercase names of extensionless (or dot-named) files previewed as text.
pub open spec fn text_file_names() -> Seq<Seq<char>> {
    seq![
        "dockerfile"@, "makefile"@, "jenkinsfile"@, "readme"@, "license"@, "authors"@,
        "changelog"@, ".env"@, ".gitignore"@, ".gitattributes"@, ".editorconfig"@
    ]
}

/// Whether the file that `path` names is previewed as text: its extension, in
/// lowercase, is one of `text_extensions`, or its whole name, in lowercase, is
/// one of `text_file_names`. A path with no file name is not.
pub open spec fn is_text_preview_path(path: Seq<char>) -> bool {
    match path_file_name(path) {
        None => false,
        Some(name) => {
            ||| (match file_extension(name) {
                Some(ext) => text_extensions().contains(ascii_lower(ext)),
                None => false,
            })
            ||| text_file_names().contains(ascii_lower(name))
        },
    }
}

fn text_extension_list() -> (list: Vec<&'static str>)
    ensures
        list@.map_values(|s: &'static str| s@) == text_extensions(),
{
    let list: Vec<&'static str> = vec![
        "txt", "md", "markdown", "log", "ini", "cfg", "conf", "rs", "py", "pyw", "js", "jsx",
        "mjs", "cjs", "ts", "tsx", "c", "h", "cc", "cpp", "cxx", "hh", "hpp", "hxx", "cs",
        "java", "go", "rb", "php", "swift", "kt", "kts", "html", "htm", "css", "scss", "sass",
        "less", "xml", "json", "jsonc", "yaml", "yml", "toml", "sql", "sh", "bash", "zsh",
        "ps1", "psm1", "psd1", "bat", "cmd", "lua", "r", "dart", "vue", "svelte", "gradle",
        "properties", "env"
    ];
    assert(list@.map_values(|s: &'static str| s@) =~= text_extensions());
    list
}

fn text_file_name_list() -> (list: Vec<&'static str>)
    ensures
        list@.map_values(|s: &'static str| s@) == text_file_names(),
{
    let list: Vec<&'static str> = vec![
        "dockerfile", "makefile", "jenkinsfile", "readme", "license", "authors", "changelog",
        ".env", ".gitignore", ".gitattributes", ".editorconfig"
    ];
    assert(list@.map_values(|s: &'static str| s@) =~= text_file_names());
    list
}

/// Whether the characters `a` spell the string `b`.
fn chars_equal_str(a: &Vec<char>, b: &str) -> (equal: bool)
    ensures
        equal == (a@ == b@),
{
    let n = b.unicode_len();
    if a.len() != n {
        return false;
    }
    for i in 0..n
        invariant
            n == b@.len() == a@.len(),
            forall|j: int| 0 <= j < i ==> a@[j] == b@[j],
    {
        if a[i] != b.get_char(i) {
            return false;
        }
    }
    assert(a@ =~= b@);
    true
}

/// Whether `name` is one of the strings in `list`.
fn listed(name: &Vec<char>, list: &Vec<&'static str>) -> (found: bool)
    ensures
        found == list@.map_values(|s: &'static str| s@).contains(name@),
{
    let ghost views = list@.map_values(|s: &'static str| s@);
    for i in 0..list.len()
        invariant
            views == list@.map_values(|s: &'static str| s@),
            forall|j: int| 0 <= j < i ==> views[j] != name@,
    {
        if chars_equal_str(name, list[i]) {
            assert(views[i as int] == name@);
            return true;
        }
    }
    assert(!views.contains(name@));
    false
}

/// Whether the file at `path` is shown as a text preview, judged by its name:
/// its extension (compared without regard to ASCII case) is a known text
/// extension, or its whole name is a known text file name such as
/// `Dockerfile` or `.gitignore`.
pub fn is_text_preview_file(path: &str) -> (text: bool)
    ensures
        text == is_text_preview_path(path@),
{
    let chars = str_to_chars(path);
    let name = match file_name_of(&chars) {
        Some(name) => name,
        None => return false,
    };
    let lower_name = to_ascii_lower(&name);
    let by_extension = match extension_of(&name) {
        Some(ext) => {
            let lower_ext = to_ascii_lower(&ext);
            listed(&lower_ext, &text_extension_list())
        },
        None => false,
    };
    by_extension || listed(&lower_name, &text_file_name_list())
}


// ---------------------------------------------------------------------------
// Laws

proof fn lemma_lower_char(c: char)
    ensures
        is_separator(ascii_lower_char(c)) == is_separator(c),
        (ascii_lower_char(c) == '.') == (c == '.'),
        (ascii_lower_char(c) == ':') == (c == ':'),
        is_ascii_letter(ascii_lower_char(c)) == is_ascii_letter(c),
        ascii_lower_char(ascii_lower_char(c)) == ascii_lower_char(c),
{
}

proof fn lemma_lower_subrange(s: Seq<char>, a: int, b: int)
    requires
        0 <= a <= b <= s.len(),
    ensures
        ascii_lower(s).subrange(a, b) == ascii_lower(s.subrange(a, b)),
{
    assert(ascii_lower(s).subrange(a, b) =~= ascii_lower(s.subrange(a, b)));
}

proof fn lemma_lower_idempotent(s: Seq<char>)
    ensures
        ascii_lower(ascii_lower(s)) == ascii_lower(s),
{
    assert forall|i: int| 0 <= i < s.len() implies #[trigger] ascii_lower(ascii_lower(s))[i]
        == ascii_lower(s)[i] by {
        lemma_lower_char(s[i]);
    }
    assert(ascii_lower(ascii_lower(s)) =~= ascii_lower(s));
}

proof fn lemma_lower_last_dot(n: Seq<char>)
    ensures
        last_dot(ascii_lower(n)) == last_dot(n),
    decreases n.len(),
{
    if n.len() > 0 {
        lemma_lower_char(n.last());
        lemma_lower_subrange(n, 0, n.len() - 1);
        assert(ascii_lower(n).drop_last() == ascii_lower(n.drop_last()));
        lemma_lower_last_dot(n.drop_last());
    }
}

proof fn lemma_lower_extension(n: Seq<char>)
    ensures
        file_extension(ascii_lower(n)) == match file_extension(n) {
            Some(e) => Some(ascii_lower(e)),
            None => None::<Seq<char>>,
        },
{
    lemma_lower_last_dot(n);
    if let Some(i) = last_dot(n) {
        if i != 0 {
            lemma_last_dot_bound(n);
            lemma_lower_subrange(n, i + 1, n.len() as int);
        }
    }
}

proof fn lemma_last_dot_bound(n: Seq<char>)
    ensures
        last_dot(n) matches Some(i) ==> 0 <= i < n.len(),
    decreases n.len(),
{
    if n.len() > 0 && n.last() != '.' {
        lemma_last_dot_bound(n.drop_last());
    }
}

/// Case does not matter: two paths whose file names are equal up to ASCII case
/// are either both previewed as text or both not.
pub proof fn text_preview_ignores_case_of_name(path: Seq<char>, other: Seq<char>)
    requires
        path_file_name(path) is Some,
        path_file_name(other) is Some,
        ascii_lower(path_file_name(path)->0) == ascii_lower(path_file_name(other)->0),
    ensures
        is_text_preview_path(path) == is_text_preview_path(other),
{
    let a = path_file_name(path)->0;
    let b = path_file_name(other)->0;
    lemma_lower_extension(a);
    lemma_lower_extension(b);
    if let Some(e) = file_extension(a) {
        lemma_lower_idempotent(e);
    }
    if let Some(e) = file_extension(b) {
        lemma_lower_idempotent(e);
    }
}

proof fn lemma_component_start_after_separator(x: Seq<char>, sep: char, name: Seq<char>, verbatim: bool)
    requires
        separates(sep, verbatim),
        forall|i: int| 0 <= i < name.len() ==> !separates(#[trigger] name[i], verbatim),
    ensures
        component_start(x.push(sep) + name, verbatim) == x.len() + 1,
    decreases name.len(),
{
    let p = x.push(sep) + name;
    if name.len() == 0 {
        assert(p == x.push(sep));
    } else {
        assert(p.last() == name.last());
        assert(p.drop_last() == x.push(sep) + name.drop_last());
        lemma_component_start_after_separator(x, sep, name.drop_last(), verbatim);
    }
}

proof fn lemma_component_start_plain(name: Seq<char>)
    requires
        forall|i: int| 0 <= i < name.len() ==> !is_separator(#[trigger] name[i]),
    ensures
        component_start(name, false) == 0,
    decreases name.len(),
{
    if name.len() > 0 {
        lemma_component_start_plain(name.drop_last());
    }
}

/// A plain file name: not empty, without separators, not `.` or `..`, and not
/// starting with a drive.
pub open spec fn is_plain_file_name(name: Seq<char>) -> bool {
    &&& name.len() > 0
    &&& forall|i: int| 0 <= i < name.len() ==> !is_separator(#[trigger] name[i])
    &&& name != seq!['.']
    &&& name != seq!['.', '.']
    &&& !has_drive(name)
}

/// A plain file name on its own is its own file name.
proof fn lemma_plain_name_is_file_name(name: Seq<char>)
    requires
        is_plain_file_name(name),
    ensures
        path_prefix(name) == (0int, false),
        path_file_name(name) == Some(name),
{
    assert(path_prefix(name) == (0int, false)) by {
        if name.len() >= 2 {
            assert(!is_separator(name[0]));
        }
    }
    assert(name.subrange(0, name.len() as int) == name);
    lemma_component_start_plain(name);
}

proof fn lemma_last_dot_at(name: Seq<char>, i: int)
    requires
        0 <= i < name.len(),
        name[i] == '.',
        forall|j: int| i < j < name.len() ==> name[j] != '.',
    ensures
        last_dot(name) == Some(i),
    decreases name.len(),
{
    if name.len() - 1 > i {
        assert(name.last() != '.');
        assert forall|j: int| i < j < name.drop_last().len() implies name.drop_last()[j] != '.' by {
            assert(name.drop_last()[j] == name[j]);
        }
        lemma_last_dot_at(name.drop_last(), i);
    }
}

proof fn lemma_no_last_dot(name: Seq<char>)
    requires
        forall|j: int| 0 <= j < name.len() ==> name[j] != '.',
    ensures
        last_dot(name) is None,
    decreases name.len(),
{
    if name.len() > 0 {
        assert(name.last() != '.');
        assert forall|j: int| 0 <= j < name.drop_last().len() implies name.drop_last()[j] != '.' by {
            assert(name.drop_last()[j] == name[j]);
        }
        lemma_no_last_dot(name.drop_last());
    }
}

/// The extension of a file name is everything after its last `.`, whenever
/// that `.` is not the first character, whatever the first character is (so
/// `.gitlab-ci.yml` has the extension `yml`); a name with no `.` after its
/// first character has no extension.
pub proof fn extension_is_text_after_last_dot(name: Seq<char>, i: int)
    ensures
        0 < i < name.len() && name[i] == '.' && (forall|j: int| i < j < name.len() ==> name[j] != '.')
            ==> file_extension(name) == Some(name.subrange(i + 1, name.len() as int)),
        (forall|j: int| 0 < j < name.len() ==> name[j] != '.') ==> file_extension(name) is None,
{
    if 0 < i < name.len() && name[i] == '.' && (forall|j: int| i < j < name.len() ==> name[j] != '.') {
        lemma_last_dot_at(name, i);
    }
    if forall|j: int| 0 < j < name.len() ==> name[j] != '.' {
        if name.len() > 0 && name[0] == '.' {
            lemma_last_dot_at(name, 0);
        } else {
            lemma_no_last_dot(name);
        }
    }
}

/// A plain file name `stem.ext`, with a non-empty stem (which may itself start
/// with `.` or hold dots) and an extension without dots, is previewed as text
/// whenever its extension, in lowercase, is one of the text extensions; for
/// example `.gitlab-ci.yml` or `.eslintrc.json`, and the same inside any
/// directory where `text_preview_ignores_directory` applies.
pub proof fn listed_extension_makes_text_file(stem: Seq<char>, ext: Seq<char>)
    requires
        stem.len() > 0,
        forall|j: int| 0 <= j < ext.len() ==> ext[j] != '.',
        is_plain_file_name(stem.push('.') + ext),
        text_extensions().contains(ascii_lower(ext)),
    ensures
        is_text_preview_path(stem.push('.') + ext),
{
    let name = stem.push('.') + ext;
    lemma_plain_name_is_file_name(name);
    let i = stem.len() as int;
    assert(name[i] == '.');
    assert forall|j: int| i < j < name.len() implies name[j] != '.' by {
        assert(name[j] == ext[j - i - 1]);
    }
    lemma_last_dot_at(name, i);
    assert(name.subrange(i + 1, name.len() as int) == ext);
}

/// The directory does not matter: a plain file name joined to a directory by a
/// separator is previewed as text exactly when the file name alone is, as long
/// as the path's prefix lies within the directory and, in a verbatim path, the
/// separator is `\`. (Otherwise the name is read as part of the prefix, as in
/// `\\server` joined with `readme`, or, after `/` in a verbatim path, as part
/// of a longer component.)
pub proof fn text_preview_ignores_directory(dir: Seq<char>, sep: char, name: Seq<char>)
    requires
        is_plain_file_name(name),
        is_separator(sep),
        path_prefix(dir.push(sep) + name).0 <= dir.len(),
        path_prefix(dir.push(sep) + name).1 ==> sep == '\\',
    ensures
        path_file_name(dir.push(sep) + name) == Some(name),
        path_file_name(name) == Some(name),
        is_text_preview_path(dir.push(sep) + name) == is_text_preview_path(name),
{
    let p = dir.push(sep) + name;
    let (k, verbatim) = path_prefix(p);
    lemma_path_prefix_bound(p);
    lemma_plain_name_is_file_name(name);
    // The path's last component is the name.
    let x = dir.subrange(k, dir.len() as int);
    let body = p.subrange(k, p.len() as int);
    assert(body == x.push(sep) + name);
    assert forall|i: int| 0 <= i < name.len() implies !separates(#[trigger] name[i], verbatim) by {
        assert(!is_separator(name[i]));
    }
    lemma_component_start_after_separator(x, sep, name, verbatim);
    assert(body.last() == name.last());
    assert(!separates(name.last(), verbatim)) by {
        assert(!is_separator(name[name.len() - 1]));
    }
    assert(body.subrange(x.len() + 1int, body.len() as int) == name);
}

} // verus!
