//! Edits that reshape the content of a buffer: aligning lines on a delimiter, and
//! toggling line comments over a range of lines.

use crate::paths;
use crate::pattern;
use crate::project;
use crate::text;
use crate::utf8;
use regex::Regex;
use vstd::prelude::*;
use vstd::string::StringExecFns;
use vstd::string::StringSliceAdditionalSpecFns;
use vstd::utf8::*;

verus! {

// ── lines ───────────────────────────────────────────────────────────────────────

/// The Windows line ending.
pub open spec fn crlf() -> Seq<char> {
    seq!['\r', '\n']
}

/// The text ends in a line feed.
pub open spec fn ends_line(s: Seq<char>) -> bool {
    s.len() > 0 && s.last() == '\n'
}

/// Position `k` holds a line feed, and a carriage return stands before it just where
/// `cr` says so.
pub open spec fn feed_at(s: Seq<char>, k: int, cr: bool) -> bool {
    &&& 0 <= k < s.len()
    &&& s[k] == '\n'
    &&& cr == (k > 0 && s[k - 1] == '\r')
}

/// How many line feeds follow a carriage return or, where `cr` is not set, how many do
/// not.
pub open spec fn feeds(s: Seq<char>, cr: bool) -> nat
    decreases s.len(),
{
    if s.len() == 0 {
        0
    } else {
        feeds(s.drop_last(), cr) + (if feed_at(s, s.len() - 1, cr) {
            1nat
        } else {
            0
        })
    }
}

/// The dominant line ending of a text: CRLF where there is one and at least as many line
/// feeds follow a carriage return as do not, else a line feed.
pub open spec fn eol_of(s: Seq<char>) -> Seq<char> {
    if feeds(s, true) > 0 && feeds(s, true) >= feeds(s, false) {
        crlf()
    } else {
        seq!['\n']
    }
}

/// The pieces between the line feeds, each without a carriage return at its end.
pub open spec fn stripped_pieces(s: Seq<char>) -> Seq<Seq<char>> {
    text::split(s, '\n').map_values(|p: Seq<char>| text::strip_cr(p))
}

/// The lines of a text. What stands behind a final line feed is no line.
pub open spec fn lines_of(s: Seq<char>) -> Seq<Seq<char>> {
    if ends_line(s) {
        stripped_pieces(s).drop_last()
    } else {
        stripped_pieces(s)
    }
}

/// The text made of `lines`, which ends in `eol` where `trailing` says so and there is
/// any text to end.
pub open spec fn joined(lines: Seq<Seq<char>>, eol: Seq<char>, trailing: bool) -> Seq<char> {
    let out = text::join(lines, eol);
    if trailing && out.len() > 0 {
        out + eol
    } else {
        out
    }
}

/// Whether CRLF is the dominant line ending.
fn prefers_crlf(chars: &Vec<char>) -> (r: bool)
    ensures
        r == (feeds(chars@, true) > 0 && feeds(chars@, true) >= feeds(chars@, false)),
{
    let mut windows: usize = 0;
    let mut bare: usize = 0;
    let mut i: usize = 0;
    while i < chars.len()
        invariant
            i <= chars@.len(),
            windows == feeds(chars@.take(i as int), true),
            bare == feeds(chars@.take(i as int), false),
            windows + bare <= i,
        decreases chars@.len() - i,
    {
        proof {
            assert(chars@.take(i + 1).drop_last() == chars@.take(i as int));
        }
        if chars[i] == '\n' {
            if i > 0 && chars[i - 1] == '\r' {
                windows += 1;
            } else {
                bare += 1;
            }
        }
        i += 1;
    }
    assert(chars@.take(chars@.len() as int) == chars@);
    windows > 0 && windows >= bare
}

/// The lines of `content`, its dominant line ending, and whether it ends in a line feed.
pub fn split_lines(content: &str) -> (r: (Vec<String>, &'static str, bool))
    ensures
        text::views(r.0@) == lines_of(content@),
        r.1@ == eol_of(content@),
        r.2 == ends_line(content@),
{
    proof {
        reveal_strlit("\r\n");
        reveal_strlit("\n");
        assert("\r\n"@ == crlf());
        assert("\n"@ == seq!['\n']);
        text::lemma_split_pieces(content@, '\n');
    }
    let chars = text::to_chars(content);
    let eol: &'static str = if prefers_crlf(&chars) {
        "\r\n"
    } else {
        "\n"
    };
    let trailing: bool = chars.len() > 0 && chars[chars.len() - 1] == '\n';
    let pieces = text::split_text(content, '\n');
    let mut lines: Vec<String> = Vec::new();
    let mut i: usize = 0;
    while i < pieces.len()
        invariant
            i <= pieces@.len(),
            text::views(pieces@) == text::split(content@, '\n'),
            text::views(lines@) == stripped_pieces(content@).take(i as int),
        decreases pieces@.len() - i,
    {
        let ghost before = lines@;
        let line = text::without_cr(pieces[i].as_str());
        proof {
            text::lemma_views_push(before, line);
            assert(text::views(pieces@)[i as int] == pieces@[i as int]@);
            assert(stripped_pieces(content@).take(i + 1) == stripped_pieces(content@).take(
                i as int,
            ).push(line@));
        }
        lines.push(line);
        i += 1;
    }
    proof {
        assert(stripped_pieces(content@).take(pieces@.len() as int) == stripped_pieces(content@));
    }
    if trailing {
        let ghost all = lines@;
        let _ = lines.pop();
        assert(text::views(lines@) == text::views(all).drop_last());
    }
    (lines, eol, trailing)
}

/// The text made of `lines`, each two with `eol` between them, and `eol` behind the
/// last where the text is to end in one.
pub fn join_lines(lines: &[String], eol: &str, had_trailing_nl: bool) -> (s: String)
    ensures
        s@ == joined(text::views(lines@), eol@, had_trailing_nl),
{
    let mut out = text::join_text(lines, eol);
    if had_trailing_nl && !out.as_str().is_empty() {
        out.append(eol);
    }
    out
}

// ── line comments ───────────────────────────────────────────────────────────────

/// The line-comment prefix of the language that a file extension stands for.
pub open spec fn prefix_for(ext: Seq<char>) -> Option<Seq<char>> {
    if ext == "rs"@ || ext == "js"@ || ext == "mjs"@ || ext == "cjs"@ || ext == "ts"@ || ext
        == "tsx"@ || ext == "jsx"@ || ext == "go"@ || ext == "c"@ || ext == "h"@ || ext == "cc"@
        || ext == "cpp"@ || ext == "cxx"@ || ext == "hpp"@ || ext == "hh"@ || ext == "java"@ || ext
        == "swift"@ || ext == "kt"@ || ext == "kts"@ || ext == "scala"@ || ext == "dart"@ || ext
        == "php"@ || ext == "cs"@ || ext == "zig"@ {
        Some("//"@)
    } else if ext == "py"@ || ext == "rb"@ || ext == "sh"@ || ext == "bash"@ || ext == "zsh"@ || ext
        == "pl"@ || ext == "pm"@ || ext == "stk"@ || ext == "yaml"@ || ext == "yml"@ || ext
        == "toml"@ || ext == "conf"@ || ext == "cfg"@ || ext == "ini"@ || ext == "r"@ || ext
        == "jl"@ || ext == "ex"@ || ext == "exs"@ || ext == "nim"@ || ext == "tcl"@ || ext == "mk"@
        || ext == "make"@ || ext == "dockerfile"@ || ext == "gitignore"@ {
        Some("#"@)
    } else if ext == "lua"@ || ext == "sql"@ || ext == "hs"@ || ext == "elm"@ || ext == "adb"@
        || ext == "ads"@ {
        Some("--"@)
    } else if ext == "lisp"@ || ext == "el"@ || ext == "clj"@ || ext == "cljs"@ || ext == "scm"@
        || ext == "rkt"@ || ext == "asm"@ || ext == "s"@ {
        Some(";"@)
    } else if ext == "vim"@ || ext == "vimrc"@ {
        Some("\""@)
    } else {
        None
    }
}

/// Whether `s` is one of the texts in `list`.
fn one_of(s: &str, list: &[&str]) -> (r: bool)
    ensures
        r == exists|i: int| 0 <= i < list@.len() && s@ == (#[trigger] list@[i])@,
{
    let mut i: usize = 0;
    while i < list.len()
        invariant
            i <= list@.len(),
            forall|j: int| 0 <= j < i ==> s@ != (#[trigger] list@[j])@,
        decreases list@.len() - i,
    {
        if text::same_text(s, list[i]) {
            return true;
        }
        i += 1;
    }
    false
}

/// The line-comment prefix for a file extension, or `None` when the language has no
/// known line comment.
pub fn comment_prefix(ext: &str) -> (r: Option<&'static str>)
    ensures
        match r {
            Some(p) => prefix_for(ext@) == Some(p@),
            None => prefix_for(ext@) is None,
        },
{
    if one_of(ext, &["rs", "js", "mjs", "cjs", "ts", "tsx", "jsx", "go", "c", "h", "cc", "cpp",
        "cxx", "hpp", "hh", "java", "swift", "kt", "kts", "scala", "dart", "php", "cs", "zig"]) {
        Some("//")
    } else if one_of(ext, &["py", "rb", "sh", "bash", "zsh", "pl", "pm", "stk", "yaml", "yml",
        "toml", "conf", "cfg", "ini", "r", "jl", "ex", "exs", "nim", "tcl", "mk", "make",
        "dockerfile", "gitignore"]) {
        Some("#")
    } else if one_of(ext, &["lua", "sql", "hs", "elm", "adb", "ads"]) {
        Some("--")
    } else if one_of(ext, &["lisp", "el", "clj", "cljs", "scm", "rkt", "asm", "s"]) {
        Some(";")
    } else if one_of(ext, &["vim", "vimrc"]) {
        Some("\"")
    } else {
        None
    }
}

/// A line of white space alone, or none.
pub open spec fn is_blank(line: Seq<char>) -> bool {
    text::trim(line).len() == 0
}

/// What stands at the start of a line, behind its indentation, is the prefix.
pub open spec fn is_commented(line: Seq<char>, prefix: Seq<char>) -> bool {
    text::starts_with(text::trim_start(line), prefix)
}

/// A line with the prefix and a space put in behind its indentation; a line without
/// text as it was.
pub open spec fn comment_line(line: Seq<char>, prefix: Seq<char>) -> Seq<char> {
    let body = text::trim_start(line);
    if body.len() == 0 {
        line
    } else {
        line.take(text::lead(line) as int) + prefix + seq![' '] + body
    }
}

/// A line without the prefix behind its indentation and without one space behind the
/// prefix; a line that has no such prefix as it was.
pub open spec fn uncomment_line(line: Seq<char>, prefix: Seq<char>) -> Seq<char> {
    let body = text::trim_start(line);
    if text::starts_with(body, prefix) {
        let rest = body.skip(prefix.len() as int);
        line.take(text::lead(line) as int) + (if rest.len() > 0 && rest[0] == ' ' {
            rest.skip(1)
        } else {
            rest
        })
    } else {
        line
    }
}

/// Line `i` lies in the range from `start` to `end`, both taken in.
pub open spec fn in_range(i: int, start: int, end: int) -> bool {
    start <= i <= end
}

/// Every line of the range that has text is commented.
pub open spec fn all_commented(
    lines: Seq<Seq<char>>,
    start: int,
    end: int,
    prefix: Seq<char>,
) -> bool {
    forall|i: int|
        0 <= i < lines.len() && #[trigger] in_range(i, start, end) && !is_blank(lines[i])
            ==> is_commented(lines[i], prefix)
}

/// The range from `start` to `end` takes in a line.
pub open spec fn range_has_line(lines: Seq<Seq<char>>, start: int, end: int) -> bool {
    start <= end && start < lines.len()
}

/// The lines once the comments of the range are toggled: uncommented if every line of
/// the range that has text is commented, else commented.
pub open spec fn toggled(
    lines: Seq<Seq<char>>,
    start: int,
    end: int,
    prefix: Seq<char>,
) -> Seq<Seq<char>> {
    lines.map(
        |i: int, line: Seq<char>|
            if !in_range(i, start, end) {
                line
            } else if all_commented(lines, start, end, prefix) {
                uncomment_line(line, prefix)
            } else {
                comment_line(line, prefix)
            },
    )
}

/// How many lines of `new` differ from those of `old`.
pub open spec fn count_changed(old_lines: Seq<Seq<char>>, new_lines: Seq<Seq<char>>) -> nat
    decreases new_lines.len(),
{
    if new_lines.len() == 0 {
        0
    } else {
        let i = new_lines.len() - 1;
        count_changed(old_lines, new_lines.drop_last()) + (if new_lines[i] != old_lines[i] {
            1nat
        } else {
            0
        })
    }
}

/// A line has text exactly where something is left behind its indentation.
pub proof fn lemma_blank(line: Seq<char>)
    ensures
        is_blank(line) <==> text::trim_start(line).len() == 0,
{
    let body = text::trim_start(line);
    text::lemma_lead(line);
    text::lemma_trail(body);
    if body.len() > 0 {
        assert(body[0] == line[text::lead(line) as int]);
        if text::trail(body) == body.len() {
            assert(text::is_white(body[0]));
        }
    }
}

/// The line with the comment put in or, where `remove` says so, taken out.
fn toggle_line(line: &str, prefix: &str, remove: bool) -> (r: String)
    ensures
        r@ == (if remove {
            uncomment_line(line@, prefix@)
        } else {
            comment_line(line@, prefix@)
        }),
{
    let v = text::to_chars(line);
    let n: usize = v.len();
    let body: usize = text::skip_white(&v, 0, n);
    let ghost whole = line@;
    proof {
        assert(v@.subrange(0, n as int) == whole);
        assert(v@.subrange(0, body as int) == whole.take(body as int));
    }
    let mut out = text::substring(&v, 0, body);
    if remove {
        let p = text::to_chars(prefix);
        let starts: bool = text::matches_at(&v, &p, body);
        proof {
            let tail = text::trim_start(whole);
            assert(text::occurs_at(whole, prefix@, body as int) == text::starts_with(
                tail,
                prefix@,
            )) by {
                if prefix@.len() <= tail.len() {
                    assert(tail.subrange(0, prefix@.len() as int) == whole.subrange(
                        body as int,
                        body + prefix@.len(),
                    ));
                }
            }
        }
        if starts {
            let mut from: usize = body + p.len();
            let ghost rest = text::trim_start(whole).skip(prefix@.len() as int);
            assert(v@.subrange(from as int, n as int) == rest);
            if from < n && v[from] == ' ' {
                assert(rest[0] == v@[from as int]);
                from += 1;
                assert(v@.subrange(from as int, n as int) == rest.skip(1));
            }
            out.append(text::substring(&v, from, n).as_str());
            return out;
        }
    } else if body < n {
        out.append(prefix);
        out.push(' ');
        out.append(text::substring(&v, body, n).as_str());
        assert(out@ == whole.take(body as int) + prefix@ + seq![' '] + text::trim_start(whole));
        return out;
    }
    out.append(text::substring(&v, body, n).as_str());
    assert(out@ == whole);
    out
}

/// Whether every line of the range that has text is commented.
fn range_commented(lines: &Vec<String>, start: usize, end: usize, prefix: &str) -> (r: bool)
    requires
        end < lines@.len(),
    ensures
        r == all_commented(text::views(lines@), start as int, end as int, prefix@),
{
    let p = text::to_chars(prefix);
    let mut i: usize = start;
    while i <= end
        invariant
            start <= i,
            i <= end + 1 || i == start,
            end < lines.len(),
            p@ == prefix@,
            forall|j: int|
                start <= j < i && j <= end && !is_blank(#[trigger] text::views(lines@)[j])
                    ==> is_commented(text::views(lines@)[j], prefix@),
        decreases end + 1 - i,
    {
        let v = text::to_chars(lines[i].as_str());
        let body: usize = text::skip_white(&v, 0, v.len());
        let commented: bool = text::matches_at(&v, &p, body);
        proof {
            let line = text::views(lines@)[i as int];
            assert(line == v@);
            assert(v@.subrange(0, v@.len() as int) == line);
            lemma_blank(line);
            let tail = text::trim_start(line);
            assert(commented == is_commented(line, prefix@)) by {
                if prefix@.len() <= tail.len() {
                    assert(tail.subrange(0, prefix@.len() as int) == line.subrange(
                        body as int,
                        body + prefix@.len(),
                    ));
                }
            }
        }
        if body < v.len() && !commented {
            assert(in_range(i as int, start as int, end as int));
            return false;
        }
        i += 1;
    }
    true
}

/// What toggling the comments of a range of lines gives: the lines, whether they were
/// commented, and how many changed.
pub open spec fn is_toggle(
    lines: Seq<Seq<char>>,
    start: int,
    end: int,
    prefix: Seq<char>,
    r: (Vec<String>, bool, usize),
) -> bool {
    &&& text::views(r.0@) == toggled(lines, start, end, prefix)
    &&& r.1 == (range_has_line(lines, start, end) && !all_commented(lines, start, end, prefix))
    &&& r.2 == count_changed(lines, text::views(r.0@))
}

/// Toggle line comments over `lines[start..=end]`, counted from zero, with an `end`
/// behind the last line taken as the last line. If every line of the range that has
/// text starts, behind its indentation, with the prefix, the range is uncommented; else
/// it is commented. Returns the lines, whether they were commented, and how many
/// changed.
pub fn toggle_comment(lines: Vec<String>, start: usize, end: usize, prefix: &str) -> (r: (
    Vec<String>,
    bool,
    usize,
))
    ensures
        is_toggle(text::views(lines@), start as int, end as int, prefix@, r),
{
    let ghost old_lines = text::views(lines@);
    let n: usize = lines.len();
    let last: usize = if n > 0 && end >= n {
        n - 1
    } else {
        end
    };
    proof {
        assert(all_commented(old_lines, start as int, end as int, prefix@) == all_commented(
            old_lines,
            start as int,
            last as int,
            prefix@,
        )) by {
            if all_commented(old_lines, start as int, end as int, prefix@) {
                assert forall|i: int|
                    0 <= i < old_lines.len() && #[trigger] in_range(i, start as int, last as int)
                        && !is_blank(old_lines[i]) implies is_commented(old_lines[i], prefix@) by {
                    assert(in_range(i, start as int, end as int));
                }
            }
            if all_commented(old_lines, start as int, last as int, prefix@) {
                assert forall|i: int|
                    0 <= i < old_lines.len() && #[trigger] in_range(i, start as int, end as int)
                        && !is_blank(old_lines[i]) implies is_commented(old_lines[i], prefix@) by {
                    assert(in_range(i, start as int, last as int));
                }
            }
        }
    }
    if n == 0 || start > last {
        proof {
            assert(toggled(old_lines, start as int, end as int, prefix@) == old_lines);
            lemma_count_same(old_lines);
        }
        return (lines, false, 0);
    }
    let remove: bool = range_commented(&lines, start, last, prefix);
    let mut out: Vec<String> = Vec::new();
    let mut changed: usize = 0;
    let mut i: usize = 0;
    let ghost goal = toggled(old_lines, start as int, end as int, prefix@);
    while i < n
        invariant
            n == lines@.len(),
            i <= n,
            old_lines == text::views(lines@),
            goal == toggled(old_lines, start as int, end as int, prefix@),
            last < n,
            last == end || (last == n - 1 && end >= n),
            remove == all_commented(old_lines, start as int, end as int, prefix@),
            text::views(out@) == goal.take(i as int),
            changed == count_changed(old_lines, text::views(out@)),
            changed <= i,
        decreases n - i,
    {
        let line = if start <= i && i <= last {
            toggle_line(lines[i].as_str(), prefix, remove)
        } else {
            lines[i].clone()
        };
        let ghost before = out@;
        proof {
            assert(old_lines[i as int] == lines@[i as int]@);
            assert(goal[i as int] == line@);
            text::lemma_views_push(before, line);
            assert(text::views(before).push(line@).drop_last() == text::views(before));
            assert(goal.take(i + 1) == goal.take(i as int).push(line@));
        }
        if line != lines[i] {
            changed += 1;
        }
        out.push(line);
        i += 1;
    }
    assert(goal.take(n as int) == goal);
    (out, !remove, changed)
}

/// Nothing differs from itself.
proof fn lemma_count_same(lines: Seq<Seq<char>>)
    ensures
        count_changed(lines, lines) == 0,
{
    lemma_count_same_prefix(lines, lines.len());
}

/// No line at the start of a list differs from the list.
proof fn lemma_count_same_prefix(lines: Seq<Seq<char>>, n: nat)
    requires
        n <= lines.len(),
    ensures
        count_changed(lines, lines.take(n as int)) == 0,
        n == lines.len() ==> lines.take(n as int) == lines,
    decreases n,
{
    if n > 0 {
        lemma_count_same_prefix(lines, (n - 1) as nat);
        assert(lines.take(n as int).drop_last() == lines.take(n - 1));
    }
}

// ── aligning on a delimiter ─────────────────────────────────────────────────────

/// What to align on, and whether to write the outcome.
#[derive(Debug)]
pub struct AlignOpts {
    /// The delimiter: a literal text unless `regex` is set.
    pub separator: String,
    pub regex: Option<bool>,
    /// Rewrite the file; otherwise only look.
    pub apply: Option<bool>,
}

impl Default for AlignOpts {
    /// No delimiter, taken literally, and only a look.
    fn default() -> (r: AlignOpts)
        ensures
            r.separator@.len() == 0,
            r.regex is None,
            r.apply is None,
    {
        AlignOpts { separator: String::new(), regex: None, apply: None }
    }
}

/// What an alignment does to a file.
#[derive(Debug)]
pub struct AlignResult {
    /// How many lines change.
    pub changed_lines: usize,
    /// How many lines hold the delimiter.
    pub matched_lines: usize,
    pub differs: bool,
    pub applied: bool,
}

/// A line that holds the delimiter: the text before it, the delimiter, and the text
/// behind it.
pub struct Parts {
    pub left: Seq<char>,
    pub sep: Seq<char>,
    pub rest: Seq<char>,
}

/// The parts of a line around a match, without white space before the delimiter and
/// behind it. A match of no length at the very start is none.
pub open spec fn parts_of(line: Seq<char>, found: Option<(int, int)>) -> Option<Parts> {
    match found {
        Some((start, end)) => if start > 0 || end > start {
            Some(
                Parts {
                    left: text::trim_end(utf8::slice_of(line, 0, start)),
                    sep: utf8::slice_of(line, start, end),
                    rest: text::trim_start(utf8::slice_of(line, end, encode_utf8(line).len() as int)),
                },
            )
        } else {
            None
        },
        None => None,
    }
}

/// The parts of each line.
pub open spec fn all_parts(
    lines: Seq<Seq<char>>,
    found: Seq<Option<(int, int)>>,
) -> Seq<Option<Parts>> {
    lines.map(|i: int, line: Seq<char>| parts_of(line, found[i]))
}

/// The length of the longest text before a delimiter.
pub open spec fn widest(parts: Seq<Option<Parts>>) -> nat
    decreases parts.len(),
{
    if parts.len() == 0 {
        0
    } else {
        let before = widest(parts.drop_last());
        match parts.last() {
            Some(p) => if p.left.len() > before {
                p.left.len()
            } else {
                before
            },
            None => before,
        }
    }
}

/// How many lines hold the delimiter.
pub open spec fn count_matched(parts: Seq<Option<Parts>>) -> nat
    decreases parts.len(),
{
    if parts.len() == 0 {
        0
    } else {
        count_matched(parts.drop_last()) + (if parts.last() is Some {
            1nat
        } else {
            0
        })
    }
}

/// `n` spaces.
pub open spec fn spaces(n: nat) -> Seq<char> {
    Seq::new(n, |i: int| ' ')
}

/// A line whose delimiter stands one space behind column `width`, with one space
/// before what follows it.
pub open spec fn rebuilt(p: Parts, width: nat) -> Seq<char> {
    let head = p.left + spaces((width - p.left.len()) as nat) + seq![' '] + p.sep;
    if p.rest.len() == 0 {
        head
    } else {
        head + seq![' '] + p.rest
    }
}

/// The lines once those with a delimiter are aligned on it.
pub open spec fn aligned(
    lines: Seq<Seq<char>>,
    found: Seq<Option<(int, int)>>,
) -> Seq<Seq<char>> {
    let parts = all_parts(lines, found);
    lines.map(
        |i: int, line: Seq<char>|
            match parts[i] {
                Some(p) => rebuilt(p, widest(parts)),
                None => line,
            },
    )
}

/// No text before a delimiter is longer than the widest.
pub proof fn lemma_widest(parts: Seq<Option<Parts>>)
    ensures
        forall|i: int|
            0 <= i < parts.len() && (#[trigger] parts[i]) is Some ==> parts[i]->0.left.len()
                <= widest(parts),
    decreases parts.len(),
{
    if parts.len() > 0 {
        let t = parts.drop_last();
        lemma_widest(t);
        assert forall|i: int| 0 <= i < parts.len() && (#[trigger] parts[i]) is Some implies parts[i]->0.left.len()
            <= widest(parts) by {
            if i < t.len() {
                assert(parts[i] == t[i]);
            }
        }
    }
}

/// The three parts of `line` around the bytes from `start` to `end`.
fn cut<'a>(line: &'a str, start: usize, end: usize) -> (r: (&'a str, &'a str, &'a str))
    requires
        pattern::is_span(line@, start as int, end as int),
    ensures
        r.0@ == utf8::slice_of(line@, 0, start as int),
        r.1@ == utf8::slice_of(line@, start as int, end as int),
        r.2@ == utf8::slice_of(line@, end as int, encode_utf8(line@).len() as int),
{
    let ghost bytes = encode_utf8(line@);
    proof {
        encode_utf8_valid_utf8(line@);
        utf8::lemma_boundary_in_tail(bytes, start as int, end as int);
    }
    let (left, tail) = line.split_at(start);
    let (sep, rest) = tail.split_at(end - start);
    proof {
        assert(sep.spec_bytes() == bytes.subrange(start as int, end as int));
        assert(rest.spec_bytes() == bytes.subrange(end as int, bytes.len() as int));
        utf8::lemma_text_of_bytes(left@, bytes.subrange(0, start as int));
        utf8::lemma_text_of_bytes(sep@, bytes.subrange(start as int, end as int));
        utf8::lemma_text_of_bytes(rest@, bytes.subrange(end as int, bytes.len() as int));
    }
    (left, sep, rest)
}

/// The offsets of the matches as mathematical numbers.
pub open spec fn offsets(found: Seq<Option<(usize, usize)>>) -> Seq<Option<(int, int)>> {
    found.map_values(
        |m: Option<(usize, usize)>|
            match m {
                Some((start, end)) => Some((start as int, end as int)),
                None => None,
            },
    )
}

/// The matches lie within their lines.
pub open spec fn spans_fit(lines: Seq<Seq<char>>, found: Seq<Option<(usize, usize)>>) -> bool {
    &&& found.len() == lines.len()
    &&& forall|i: int|
        0 <= i < found.len() ==> match #[trigger] found[i] {
            Some((start, end)) => pattern::is_span(lines[i], start as int, end as int),
            None => true,
        }
}

/// Every match lies between characters of its line.
pub open spec fn are_spans(lines: Seq<Seq<char>>, found: Seq<Option<(int, int)>>) -> bool {
    &&& found.len() == lines.len()
    &&& forall|i: int|
        0 <= i < found.len() ==> match #[trigger] found[i] {
            Some((start, end)) => pattern::is_span(lines[i], start, end),
            None => true,
        }
}

/// `s` without the white space it ends with.
fn right_trimmed(s: &str) -> (r: String)
    ensures
        r@ == text::trim_end(s@),
{
    let v = text::to_chars(s);
    let to: usize = text::drop_white(&v, 0, v.len());
    assert(v@.subrange(0, v@.len() as int) == s@);
    text::substring(&v, 0, to)
}

/// `s` without the white space it begins with.
fn left_trimmed(s: &str) -> (r: String)
    ensures
        r@ == text::trim_start(s@),
{
    let v = text::to_chars(s);
    let from: usize = text::skip_white(&v, 0, v.len());
    assert(v@.subrange(0, v@.len() as int) == s@);
    text::substring(&v, from, v.len())
}

/// Put the delimiter of a line at a column: `pad` spaces and one more behind the text
/// before it.
fn rebuild(left: &str, sep: &str, rest: &str, pad: usize) -> (r: String)
    ensures
        r@ == rebuilt(
            Parts { left: left@, sep: sep@, rest: rest@ },
            (left@.len() + pad) as nat,
        ),
{
    let mut out = left.to_owned();
    let mut k: usize = 0;
    assert(left@ + spaces(0) == left@);
    while k < pad
        invariant
            k <= pad,
            out@ == left@ + spaces(k as nat),
        decreases pad - k,
    {
        out.push(' ');
        k += 1;
        assert(spaces(k as nat) == spaces((k - 1) as nat).push(' '));
        assert(left@ + spaces(k as nat) == (left@ + spaces((k - 1) as nat)).push(' '));
    }
    out.push(' ');
    assert(out@ == left@ + spaces(pad as nat) + seq![' ']);
    out.append(sep);
    if !rest.is_empty() {
        out.push(' ');
        assert(out@ == left@ + spaces(pad as nat) + seq![' '] + sep@ + seq![' ']);
        out.append(rest);
    }
    out
}

/// The lines with those that hold the delimiter aligned on it, how many of them
/// changed, and how many hold the delimiter. `found` tells for each line where, in
/// bytes, the delimiter stands.
pub fn align_lines(lines: &Vec<String>, found: &Vec<Option<(usize, usize)>>) -> (r: (
    Vec<String>,
    usize,
    usize,
))
    requires
        spans_fit(text::views(lines@), found@),
    ensures
        text::views(r.0@) == aligned(text::views(lines@), offsets(found@)),
        r.1 == count_changed(text::views(lines@), text::views(r.0@)),
        r.2 == count_matched(all_parts(text::views(lines@), offsets(found@))),
{
    let ghost texts = text::views(lines@);
    let ghost parts = all_parts(texts, offsets(found@));
    let n: usize = lines.len();

    // The widest text before a delimiter.
    let mut cuts: Vec<Option<(String, String, String)>> = Vec::new();
    let mut max_left: usize = 0;
    let mut matched: usize = 0;
    let mut i: usize = 0;
    while i < n
        invariant
            n == lines@.len(),
            i <= n,
            texts == text::views(lines@),
            parts == all_parts(texts, offsets(found@)),
            spans_fit(texts, found@),
            cuts@.len() == i,
            forall|j: int|
                0 <= j < i ==> match (#[trigger] cuts@[j], parts[j]) {
                    (Some((left, sep, rest)), Some(p)) => left@ == p.left && sep@ == p.sep && rest@
                        == p.rest,
                    (None, None) => true,
                    _ => false,
                },
            max_left == widest(parts.take(i as int)),
            matched == count_matched(parts.take(i as int)),
            matched <= i,
        decreases n - i,
    {
        proof {
            assert(parts.take(i + 1).drop_last() == parts.take(i as int));
            assert(parts.take(i + 1).last() == parts[i as int]);
            assert(texts[i as int] == lines@[i as int]@);
            assert(offsets(found@)[i as int] == match found@[i as int] {
                Some((start, end)) => Some((start as int, end as int)),
                None => None::<(int, int)>,
            });
        }
        let line: &str = lines[i].as_str();
        match found[i] {
            Some((start, end)) => {
                if start > 0 || end > start {
                    let (before, sep, after) = cut(line, start, end);
                    let left = right_trimmed(before);
                    let rest = left_trimmed(after);
                    let width: usize = left.as_str().unicode_len();
                    if width > max_left {
                        max_left = width;
                    }
                    matched += 1;
                    cuts.push(Some((left, sep.to_owned(), rest)));
                } else {
                    cuts.push(None);
                }
            },
            None => {
                cuts.push(None);
            },
        }
        i += 1;
    }
    assert(parts.take(n as int) == parts);

    // Each line with a delimiter at the common column.
    proof {
        lemma_widest(parts);
    }
    let ghost goal = aligned(texts, offsets(found@));
    let mut out: Vec<String> = Vec::new();
    let mut changed: usize = 0;
    let mut k: usize = 0;
    while k < n
        invariant
            n == lines@.len(),
            k <= n,
            texts == text::views(lines@),
            parts == all_parts(texts, offsets(found@)),
            parts.len() == n,
            goal == aligned(texts, offsets(found@)),
            cuts@.len() == n,
            forall|j: int|
                0 <= j < n ==> match (#[trigger] cuts@[j], parts[j]) {
                    (Some((left, sep, rest)), Some(p)) => left@ == p.left && sep@ == p.sep && rest@
                        == p.rest,
                    (None, None) => true,
                    _ => false,
                },
            max_left == widest(parts),
            forall|j: int|
                0 <= j < n && (#[trigger] parts[j]) is Some ==> parts[j]->0.left.len() <= widest(
                    parts,
                ),
            text::views(out@) == goal.take(k as int),
            changed == count_changed(texts, text::views(out@)),
            changed <= k,
        decreases n - k,
    {
        let line: String = match &cuts[k] {
            Some((left, sep, rest)) => {
                assert(parts[k as int] is Some);
                let width: usize = left.as_str().unicode_len();
                rebuild(left.as_str(), sep.as_str(), rest.as_str(), max_left - width)
            },
            None => lines[k].clone(),
        };
        let ghost before = out@;
        proof {
            assert(texts[k as int] == lines@[k as int]@);
            assert(goal[k as int] == line@);
            text::lemma_views_push(before, line);
            assert(text::views(before).push(line@).drop_last() == text::views(before));
            assert(goal.take(k + 1) == goal.take(k as int).push(line@));
        }
        if line != lines[k] {
            changed += 1;
        }
        out.push(line);
        k += 1;
    }
    assert(goal.take(n as int) == goal);
    (out, changed, matched)
}

/// Where a regular expression first matches in each line.
pub open spec fn regex_matches(lines: Seq<Seq<char>>, pattern: Seq<char>) -> Seq<
    Option<(int, int)>,
> {
    lines.map_values(|line: Seq<char>| pattern::regex_match(pattern, line))
}

/// What aligning the lines of a text on a pattern gives: the text, how many lines changed,
/// and how many matched.
pub open spec fn is_aligned_by(
    content: Seq<char>,
    pattern: Seq<char>,
    r: (String, usize, usize),
) -> bool {
    let lines = lines_of(content);
    let found = regex_matches(lines, pattern);
    &&& r.0@ == joined(aligned(lines, found), eol_of(content), ends_line(content))
    &&& r.1 == count_changed(lines, aligned(lines, found))
    &&& r.2 == count_matched(all_parts(lines, found))
    &&& are_spans(lines, found)
}

/// Align every line of `content` in which `re` matches so that the first match starts
/// at the same column in each: the text before it, without trailing white space, is
/// padded to the widest such text, the match follows after one space, and what is
/// behind it after one more. Lines without a match stay. Returns the text, how many
/// lines changed, and how many matched.
pub fn align_text(content: &str, re: &Regex) -> (r: (String, usize, usize))
    ensures
        is_aligned_by(content@, pattern::regex_pattern(*re), r),
{
    let (lines, eol, trailing) = split_lines(content);
    let ghost texts = text::views(lines@);
    let ghost wanted = regex_matches(texts, pattern::regex_pattern(*re));
    let mut found: Vec<Option<(usize, usize)>> = Vec::new();
    let mut i: usize = 0;
    while i < lines.len()
        invariant
            i <= lines@.len(),
            texts == text::views(lines@),
            wanted == regex_matches(texts, pattern::regex_pattern(*re)),
            found@.len() == i,
            offsets(found@) == wanted.take(i as int),
            forall|j: int|
                0 <= j < i ==> match #[trigger] found@[j] {
                    Some((start, end)) => pattern::is_span(texts[j], start as int, end as int),
                    None => true,
                },
        decreases lines@.len() - i,
    {
        let m: Option<(usize, usize)> = pattern::find_match(re, lines[i].as_str());
        let ghost before = found@;
        found.push(m);
        proof {
            assert(texts[i as int] == lines@[i as int]@);
            assert(offsets(found@) =~= offsets(before).push(offsets(found@)[i as int]));
            assert(wanted.take(i + 1) =~= wanted.take(i as int).push(wanted[i as int]));
            assert(offsets(found@)[i as int] == wanted[i as int]);
        }
        i += 1;
    }
    assert(wanted.take(lines@.len() as int) == wanted);
    assert(are_spans(texts, wanted)) by {
        assert forall|j: int| 0 <= j < wanted.len() implies match #[trigger] wanted[j] {
            Some((start, end)) => pattern::is_span(texts[j], start, end),
            None => true,
        } by {
            assert(offsets(found@)[j] == wanted[j]);
            assert(found@[j] is Some == wanted[j] is Some);
        }
    }
    let (out, changed, matched) = align_lines(&lines, &found);
    (join_lines(out.as_slice(), eol, trailing), changed, matched)
}

// ── whole files ─────────────────────────────────────────────────────────────────

/// The content of a text file, told by its size and its bytes: a file that is too
/// large, cannot be read or holds binary data is refused.
pub open spec fn file_text(len: Option<u64>, bytes: Result<Seq<u8>, Seq<char>>) -> Result<
    Seq<char>,
    Seq<char>,
> {
    if !project::within(len, project::MAX_GREP_FILE_BYTES) {
        Err("file too large or unreadable"@)
    } else {
        match bytes {
            Err(e) => Err(e),
            Ok(b) => if project::has_early_nul(b) {
                Err("binary file"@)
            } else {
                Ok(utf8::lossy(b))
            },
        }
    }
}

/// The content of a text file from its size, where it is known, and what reading it
/// gave.
pub fn read_text_file(len: Option<u64>, bytes: Result<Vec<u8>, String>) -> (r: Result<
    String,
    String,
>)
    ensures
        text::result_view(r) == file_text(
            len,
            match bytes {
                Ok(b) => Ok(b@),
                Err(e) => Err(e@),
            },
        ),
{
    if !project::may_read(len, project::MAX_GREP_FILE_BYTES) {
        return Err("file too large or unreadable".to_owned());
    }
    match bytes {
        Err(e) => Err(e),
        Ok(b) => if project::looks_binary(b.as_slice()) {
            Err("binary file".to_owned())
        } else {
            Ok(utf8::lossy_text(b.as_slice()))
        },
    }
}

/// The pattern by which a delimiter is searched.
pub open spec fn delimiter_pattern(sep: Seq<char>, regex: bool) -> Seq<char> {
    if regex {
        sep
    } else {
        pattern::quoted(sep)
    }
}

/// Where the delimiter first stands in each line: as a pattern or as a literal text.
pub open spec fn delimiter_matches(lines: Seq<Seq<char>>, sep: Seq<char>, regex: bool) -> Seq<
    Option<(int, int)>,
> {
    lines.map_values(
        |line: Seq<char>|
            if regex {
                pattern::regex_match(sep, line)
            } else {
                pattern::literal_match(sep, line)
            },
    )
}

/// The lines of `content` aligned on the delimiter, as one text.
pub open spec fn aligned_text(content: Seq<char>, sep: Seq<char>, regex: bool) -> Seq<char> {
    let lines = lines_of(content);
    joined(
        aligned(lines, delimiter_matches(lines, sep, regex)),
        eol_of(content),
        ends_line(content),
    )
}

/// Why an alignment is refused: no delimiter, a pattern that does not compile, or a file
/// that could not be read, in this order.
pub open spec fn align_refusal(
    content: Result<Seq<char>, Seq<char>>,
    sep: Seq<char>,
    regex: bool,
) -> Option<Seq<char>> {
    if sep.len() == 0 {
        Some("empty delimiter"@)
    } else if pattern::regex_error(delimiter_pattern(sep, regex)) is Some {
        Some("bad pattern: "@ + pattern::regex_error(delimiter_pattern(sep, regex))->0)
    } else {
        match content {
            Ok(_) => None,
            Err(e) => Some(e),
        }
    }
}

/// What aligning the lines of a file on a delimiter comes to.
pub open spec fn align_outcome(
    content: Result<Seq<char>, Seq<char>>,
    separator: Seq<char>,
    regex: bool,
    apply: bool,
    r: Result<(AlignResult, Option<String>), String>,
) -> bool {
    let sep = text::trim(separator);
    match r {
        Err(e) => align_refusal(content, sep, regex) == Some(e@),
        Ok((res, out)) => {
            &&& align_refusal(content, sep, regex) is None
            &&& content is Ok
            &&& ({
                let before = content->Ok_0;
                let lines = lines_of(before);
                let found = delimiter_matches(lines, sep, regex);
                let after = aligned_text(before, sep, regex);
                &&& res.changed_lines == count_changed(lines, aligned(lines, found))
                &&& res.matched_lines == count_matched(all_parts(lines, found))
                &&& are_spans(lines, found)
                &&& res.differs == (after != before)
                &&& res.applied == (apply && after != before)
                &&& text::opt_view(out) == (if res.applied {
                    Some(after)
                } else {
                    None
                })
            })
        },
    }
}

/// Align the lines of a file on a delimiter. `content` is what reading the file gave.
/// Returns what the alignment does and, where it is to be written, the new content.
pub fn align_columns(content: Result<String, String>, opts: &AlignOpts) -> (r: Result<
    (AlignResult, Option<String>),
    String,
>)
    ensures
        align_outcome(
            text::result_view(content),
            opts.separator@,
            text::is_set(opts.regex),
            text::is_set(opts.apply),
            r,
        ),
{
    let sep = text::trimmed(opts.separator.as_str());
    if sep.as_str().is_empty() {
        return Err("empty delimiter".to_owned());
    }
    let regex: bool = opts.regex.unwrap_or(false);
    let source: String = if regex {
        sep.clone()
    } else {
        regex::escape(sep.as_str())
    };
    let re: Regex = match pattern::compile(source.as_str()) {
        Ok(re) => re,
        Err(e) => {
            let mut msg = "bad pattern: ".to_owned();
            msg.append(e.as_str());
            return Err(msg);
        },
    };
    let content: String = match content {
        Ok(c) => c,
        Err(e) => {
            return Err(e);
        },
    };
    let (out, changed_lines, matched_lines) = align_text(content.as_str(), &re);
    proof {
        let lines = lines_of(content@);
        assert(regex_matches(lines, pattern::regex_pattern(re)) =~= delimiter_matches(
            lines,
            sep@,
            regex,
        ));
    }
    let differs: bool = out != content;
    let applied: bool = opts.apply.unwrap_or(false) && differs;
    let res = AlignResult { changed_lines, matched_lines, differs, applied };
    if applied {
        Ok((res, Some(out)))
    } else {
        Ok((res, None))
    }
}

/// What toggling comments does to a file.
#[derive(Debug)]
pub struct CommentResult {
    /// The range ended up commented.
    pub commented: bool,
    /// How many lines change.
    pub changed_lines: usize,
    pub differs: bool,
    pub applied: bool,
    /// The prefix that was used.
    pub prefix: String,
}

/// A line number counted from one, counted from zero; zero stays.
pub open spec fn zero_based(line: int) -> int {
    if line > 0 {
        line - 1
    } else {
        0
    }
}

/// The lines of `content` with the comments of a range of them toggled, as one text.
pub open spec fn toggled_text(
    content: Seq<char>,
    start_line: int,
    end_line: int,
    prefix: Seq<char>,
) -> Seq<char> {
    joined(
        toggled(lines_of(content), zero_based(start_line), zero_based(end_line), prefix),
        eol_of(content),
        ends_line(content),
    )
}

/// Why toggling comments is refused: a language without line comments, a file that could
/// not be read, or a range behind the end of the file, in this order.
pub open spec fn toggle_refusal(
    ext: Seq<char>,
    content: Result<Seq<char>, Seq<char>>,
    start_line: int,
) -> Option<Seq<char>> {
    if prefix_for(ext) is None {
        Some("no line comment for ."@ + ext)
    } else {
        match content {
            Err(e) => Some(e),
            Ok(c) => if zero_based(start_line) >= lines_of(c).len() {
                Some("start line past end of file"@)
            } else {
                None
            },
        }
    }
}

/// What toggling the comments of a file with extension `ext` comes to.
pub open spec fn toggle_outcome(
    ext: Seq<char>,
    content: Result<Seq<char>, Seq<char>>,
    start_line: int,
    end_line: int,
    apply: bool,
    r: Result<(CommentResult, Option<String>), String>,
) -> bool {
    match r {
        Err(e) => toggle_refusal(ext, content, start_line) == Some(e@),
        Ok((res, out)) => {
            &&& toggle_refusal(ext, content, start_line) is None
            &&& ({
                let prefix = prefix_for(ext)->0;
                let before = content->Ok_0;
                let lines = lines_of(before);
                let start = zero_based(start_line);
                let end = zero_based(end_line);
                let after = toggled_text(before, start_line, end_line, prefix);
                &&& res.commented == (range_has_line(lines, start, end) && !all_commented(
                    lines,
                    start,
                    end,
                    prefix,
                ))
                &&& res.changed_lines == count_changed(lines, toggled(lines, start, end, prefix))
                &&& res.differs == (after != before)
                &&& res.applied == (apply && after != before)
                &&& res.prefix@ == prefix
                &&& text::opt_view(out) == (if res.applied {
                    Some(after)
                } else {
                    None
                })
            })
        },
    }
}

/// Comment or uncomment the lines from `start_line` to `end_line`, counted from one, of
/// a file with extension `ext`. `content` is what reading the file gave. Returns what
/// the toggle does and, where it is to be written, the new content.
pub fn toggle_for_ext(
    ext: &str,
    content: Result<String, String>,
    start_line: usize,
    end_line: usize,
    apply: Option<bool>,
) -> (r: Result<(CommentResult, Option<String>), String>)
    ensures
        toggle_outcome(
            ext@,
            text::result_view(content),
            start_line as int,
            end_line as int,
            text::is_set(apply),
            r,
        ),
{
    let prefix: &'static str = match comment_prefix(ext) {
        Some(p) => p,
        None => {
            let mut msg = "no line comment for .".to_owned();
            msg.append(ext);
            return Err(msg);
        },
    };
    let content: String = match content {
        Ok(c) => c,
        Err(e) => {
            return Err(e);
        },
    };
    let (lines, eol, trailing) = split_lines(content.as_str());
    assert(text::views(lines@).len() == lines@.len());
    let start: usize = start_line.saturating_sub(1);
    let end: usize = end_line.saturating_sub(1);
    if start >= lines.len() {
        return Err("start line past end of file".to_owned());
    }
    let (new_lines, commented, changed_lines) = toggle_comment(lines, start, end, prefix);
    let out = join_lines(new_lines.as_slice(), eol, trailing);
    let differs: bool = out != content;
    let applied: bool = apply.unwrap_or(false) && differs;
    let res = CommentResult {
        commented,
        changed_lines,
        differs,
        applied,
        prefix: prefix.to_owned(),
    };
    if applied {
        Ok((res, Some(out)))
    } else {
        Ok((res, None))
    }
}

/// Comment or uncomment the lines from `start_line` to `end_line`, counted from one, of
/// the file at `path`, with the line-comment prefix of its language.
pub fn comment_toggle(
    path: &str,
    content: Result<String, String>,
    start_line: usize,
    end_line: usize,
    apply: Option<bool>,
) -> (r: Result<(CommentResult, Option<String>), String>)
    ensures
        exists|ext: Seq<char>|
            paths::is_ext_of(path@, ext) && #[trigger] toggle_outcome(
                ext,
                text::result_view(content),
                start_line as int,
                end_line as int,
                text::is_set(apply),
                r,
            ),
{
    let ext = paths::ext_of(path);
    toggle_for_ext(ext.as_str(), content, start_line, end_line, apply)
}

} // verus!
