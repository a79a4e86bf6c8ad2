//! What the edits do to each line, told by the characters of the lines.

use crate::edit_ops;
use crate::edit_ops::AlignResult;
use crate::edit_ops::CommentResult;
use crate::pattern;
use crate::picks;
use crate::project;
use crate::text;
use crate::text_laws;
use crate::utf8;
use vstd::prelude::*;
use vstd::utf8::*;

verus! {

// ── lines ───────────────────────────────────────────────────────────────────────

/// A text ends in a carriage return.
pub open spec fn ends_in_cr(s: Seq<char>) -> bool {
    s.len() > 0 && s.last() == '\r'
}

/// How line `i` of some lines can end: with a carriage return and a line feed, or with a
/// line feed alone where the line does not end in a carriage return. The last line of a
/// text without an end has nothing in its place, or a carriage return.
pub open spec fn is_line_end(
    lines: Seq<Seq<char>>,
    i: int,
    end: Seq<char>,
    trailing: bool,
) -> bool {
    if i < lines.len() - 1 || trailing {
        end == seq!['\r', '\n'] || (end == seq!['\n'] && !ends_in_cr(lines[i]))
    } else {
        end == seq!['\r'] || (end == Seq::<char>::empty() && !ends_in_cr(lines[i]))
    }
}

/// Lines, and the ends that they have in a text.
pub open spec fn are_lines(
    lines: Seq<Seq<char>>,
    ends: Seq<Seq<char>>,
    trailing: bool,
) -> bool {
    &&& lines.len() > 0
    &&& ends.len() == lines.len()
    &&& forall|i: int| 0 <= i < lines.len() ==> !(#[trigger] lines[i]).contains('\n')
    &&& forall|i: int|
        0 <= i < lines.len() ==> is_line_end(lines, i, #[trigger] ends[i], trailing)
    &&& !trailing && lines.len() > 1 ==> (lines.last() + ends.last()).len() > 0
}

/// Pieces with a line feed behind each, and a last one without, are the pieces joined by
/// line feeds.
pub proof fn lemma_flatten_join(pieces: Seq<Seq<char>>, last: Seq<char>)
    ensures
        pieces.map_values(|p: Seq<char>| p.push('\n')).flatten() + last == text::join(
            pieces.push(last),
            seq!['\n'],
        ),
    decreases pieces.len(),
{
    let fed = pieces.map_values(|p: Seq<char>| p.push('\n'));
    if pieces.len() == 0 {
        assert(fed.flatten() + last =~= last);
        assert(pieces.push(last) =~= seq![last]);
    } else {
        let t = pieces.drop_last();
        let x = pieces.last();
        lemma_flatten_join(t, x);
        let before = t.map_values(|p: Seq<char>| p.push('\n'));
        assert(fed =~= before.push(x.push('\n')));
        before.lemma_flatten_push(x.push('\n'));
        assert(t.push(x) =~= pieces);
        text::lemma_join_push(pieces, seq!['\n'], last);
        assert(before.flatten() + x.push('\n') + last =~= before.flatten() + x + seq!['\n'] + last);
    }
}

/// The lines of a text are what stands between its line ends: a text of any lines and ends
/// has those lines, and ends in a line feed just where its last line has an end.
pub proof fn law_lines(lines: Seq<Seq<char>>, ends: Seq<Seq<char>>, trailing: bool)
    requires
        are_lines(lines, ends, trailing),
    ensures
        ({
            let s = Seq::new(lines.len(), |i: int| lines[i] + ends[i]).flatten();
            &&& edit_ops::lines_of(s) == lines
            &&& edit_ops::ends_line(s) == trailing
        }),
{
    let n = lines.len() as int;
    let all = Seq::new(lines.len(), |i: int| lines[i] + ends[i]);
    let s = all.flatten();
    // The pieces between the line feeds.
    let piece = |i: int|
        if i < n - 1 || trailing {
            lines[i] + ends[i].drop_last()
        } else {
            lines[i] + ends[i]
        };
    let pieces = Seq::new(lines.len(), piece);
    let split = if trailing {
        pieces.push(Seq::empty())
    } else {
        pieces
    };
    let head = split.drop_last();
    let last = split.last();
    let fed = head.map_values(|p: Seq<char>| p.push('\n'));
    lemma_flatten_join(head, last);
    assert(head.push(last) =~= split);
    assert forall|i: int| 0 <= i < head.len() implies fed[i] == all[i] by {
        assert(is_line_end(lines, i, ends[i], trailing));
        assert(ends[i].last() == '\n');
        assert((lines[i] + ends[i].drop_last()).push('\n') =~= lines[i] + ends[i]);
    }
    if trailing {
        assert(fed =~= all);
        assert(fed.flatten() + last =~= fed.flatten());
    } else {
        assert(all =~= fed.push(last));
        fed.lemma_flatten_push(last);
    }
    assert(s == text::join(split, seq!['\n']));
    assert forall|i: int| 0 <= i < split.len() implies !(#[trigger] split[i]).contains('\n') by {
        if i < n {
            assert(is_line_end(lines, i, ends[i], trailing));
            if split[i].contains('\n') {
                let k = choose|k: int| 0 <= k < split[i].len() && split[i][k] == '\n';
                if k < lines[i].len() {
                    assert(lines[i][k] == '\n');
                    assert(lines[i].contains('\n'));
                } else {
                    assert(ends[i][k - lines[i].len()] == '\n');
                }
            }
        }
    }
    text::lemma_split_join(split, '\n');
    let stripped = edit_ops::stripped_pieces(s);
    assert forall|i: int| 0 <= i < n implies stripped[i] == lines[i] by {
        assert(is_line_end(lines, i, ends[i], trailing));
        text_laws::law_strip_cr(lines[i]);
        assert(stripped[i] == text::strip_cr(split[i]));
        if i < n - 1 || trailing {
            if ends[i] == seq!['\r', '\n'] {
                assert(split[i] =~= lines[i].push('\r'));
            } else {
                assert(split[i] =~= lines[i]);
            }
        } else if ends[i] == seq!['\r'] {
            assert(split[i] =~= lines[i].push('\r'));
        } else {
            assert(split[i] =~= lines[i]);
        }
    }
    if trailing {
        assert(is_line_end(lines, n - 1, ends[n - 1], trailing));
        assert(fed.drop_last().push(fed.last()) =~= fed);
        fed.drop_last().lemma_flatten_push(fed.last());
        assert(s =~= fed.drop_last().flatten() + fed.last());
        assert(fed.last().last() == '\n');
        assert(s.last() == '\n');
        assert(stripped.drop_last() =~= lines);
    } else {
        assert(s == fed.flatten() + last);
        assert(stripped =~= lines);
        if last.len() > 0 {
            assert(s.last() == last.last());
            assert(last == split[n - 1]);
            assert(!split[n - 1].contains('\n'));
            assert(last[last.len() - 1] == last.last());
        } else {
            assert(lines.last() + ends.last() == last);
            assert(fed.len() == 0);
            assert(fed.flatten().len() == 0);
        }
    }
}

/// Lines that are put together again: each with the line ending behind it but the last,
/// which has one only where that is asked for and there is any text.
pub proof fn law_joined(lines: Seq<Seq<char>>, last: Seq<char>, eol: Seq<char>)
    ensures
        ({
            let all = lines.map_values(|l: Seq<char>| l + eol).flatten() + last;
            &&& edit_ops::joined(lines.push(last), eol, false) == all
            &&& edit_ops::joined(lines.push(last), eol, true) == (if all.len() == 0 {
                all
            } else {
                all + eol
            })
        }),
        edit_ops::joined(Seq::empty(), eol, true) == Seq::<char>::empty(),
        edit_ops::joined(Seq::empty(), eol, false) == Seq::<char>::empty(),
    decreases lines.len(),
{
    let ended = lines.map_values(|l: Seq<char>| l + eol);
    if lines.len() == 0 {
        assert(lines.push(last) =~= seq![last]);
        assert(ended.flatten() + last =~= last);
    } else {
        let t = lines.drop_last();
        let x = lines.last();
        law_joined(t, x, eol);
        let before = t.map_values(|l: Seq<char>| l + eol);
        assert(ended =~= before.push(x + eol));
        before.lemma_flatten_push(x + eol);
        assert(t.push(x) =~= lines);
        text::lemma_join_push(lines, eol, last);
        assert(before.flatten() + (x + eol) + last =~= before.flatten() + x + eol + last);
    }
}

/// The line feeds of a text that follow a carriage return, or those that do not.
spec fn feed_wanted(s: Seq<char>, cr: bool) -> spec_fn(int) -> bool {
    |k: int| 0 <= k < s.len() && s[k] == '\n' && cr == (k > 0 && s[k - 1] == '\r')
}

/// As many line feeds are counted as there are.
proof fn lemma_feeds(s: Seq<char>, cr: bool) -> (at: Seq<int>)
    ensures
        picks::lists_all(at, feed_wanted(s, cr), picks::ascending()),
        edit_ops::feeds(s, cr) == at.len(),
    decreases s.len(),
{
    let wanted = feed_wanted(s, cr);
    if s.len() == 0 {
        picks::lemma_lists_none(wanted, picks::ascending());
        Seq::empty()
    } else {
        let t = s.drop_last();
        let i = s.len() - 1;
        let before = lemma_feeds(t, cr);
        let in_before = feed_wanted(t, cr);
        assert forall|k: int| k != i implies (#[trigger] wanted(k) <==> in_before(k)) by {
            if 0 <= k < t.len() {
                assert(t[k] == s[k]);
                if k > 0 {
                    assert(t[k - 1] == s[k - 1]);
                }
            }
        }
        picks::lemma_lists_next(before, i, in_before, wanted, picks::ascending());
        picks::with_next(before, i, wanted(i))
    }
}

/// The line ending that a text keeps is the one that most of its lines have: a carriage
/// return and a line feed where there are any of these and no fewer than line feeds alone,
/// and else a line feed.
pub proof fn law_dominant_ending(s: Seq<char>) -> (at: (Seq<int>, Seq<int>))
    ensures
        picks::lists_all(
            at.0,
            |k: int| 0 <= k < s.len() && s[k] == '\n' && true == (k > 0 && s[k - 1] == '\r'),
            |a: int, b: int| a < b,
        ),
        picks::lists_all(
            at.1,
            |k: int| 0 <= k < s.len() && s[k] == '\n' && false == (k > 0 && s[k - 1] == '\r'),
            |a: int, b: int| a < b,
        ),
        at.0.len() > 0 && at.0.len() >= at.1.len() ==> edit_ops::eol_of(s) == seq!['\r', '\n'],
        at.0.len() == 0 || at.0.len() < at.1.len() ==> edit_ops::eol_of(s) == seq!['\n'],
{
    let windows = lemma_feeds(s, true);
    let bare = lemma_feeds(s, false);
    (windows, bare)
}

/// The lines that differ from those that were there.
spec fn change_wanted(old_lines: Seq<Seq<char>>, new_lines: Seq<Seq<char>>) -> spec_fn(
    int,
) -> bool {
    |i: int| 0 <= i < new_lines.len() && new_lines[i] != old_lines[i]
}

/// As many lines count as changed as differ from those that were there.
proof fn lemma_changed(old_lines: Seq<Seq<char>>, new_lines: Seq<Seq<char>>) -> (at: Seq<int>)
    ensures
        picks::lists_all(at, change_wanted(old_lines, new_lines), picks::ascending()),
        edit_ops::count_changed(old_lines, new_lines) == at.len(),
    decreases new_lines.len(),
{
    let wanted = change_wanted(old_lines, new_lines);
    if new_lines.len() == 0 {
        picks::lemma_lists_none(wanted, picks::ascending());
        Seq::empty()
    } else {
        let t = new_lines.drop_last();
        let i = new_lines.len() - 1;
        let before = lemma_changed(old_lines, t);
        let in_before = change_wanted(old_lines, t);
        assert forall|k: int| k != i implies (#[trigger] wanted(k) <==> in_before(k)) by {
            if 0 <= k < t.len() {
                assert(t[k] == new_lines[k]);
            }
        }
        picks::lemma_lists_next(before, i, in_before, wanted, picks::ascending());
        picks::with_next(before, i, wanted(i))
    }
}

// ── comments ────────────────────────────────────────────────────────────────────

/// A line is its indentation and what follows: white space, and then nothing or a text that
/// does not begin with any.
pub open spec fn is_indented(line: Seq<char>, indent: Seq<char>, body: Seq<char>) -> bool {
    &&& line == indent + body
    &&& text_laws::all_white(indent)
    &&& body.len() > 0 ==> !text::is_white(body[0])
}

/// A line that has a text, which begins with the prefix.
pub open spec fn is_under_prefix(line: Seq<char>, prefix: Seq<char>) -> bool {
    exists|indent: Seq<char>, rest: Seq<char>|
        #[trigger] is_indented(line, indent, prefix + rest)
}

/// A line that has a text.
pub open spec fn has_body(line: Seq<char>) -> bool {
    exists|i: int| 0 <= i < line.len() && !text::is_white(#[trigger] line[i])
}

/// What a line is cut into by its indentation.
proof fn lemma_indented(line: Seq<char>, indent: Seq<char>, body: Seq<char>)
    requires
        is_indented(line, indent, body),
    ensures
        text::lead(line) == indent.len(),
        text::trim_start(line) == body,
        line.take(indent.len() as int) == indent,
        has_body(line) <==> body.len() > 0,
{
    text_laws::law_trim_start(indent, body);
    assert(line.take(indent.len() as int) =~= indent);
    if body.len() > 0 {
        assert(line[indent.len() as int] == body[0]);
    } else {
        assert forall|i: int| 0 <= i < line.len() implies text::is_white(#[trigger] line[i]) by {
            assert(line[i] == indent[i]);
        }
    }
}

/// Every line is an indentation and what follows.
proof fn lemma_is_indented(line: Seq<char>)
    ensures
        is_indented(line, line.take(text::lead(line) as int), text::trim_start(line)),
{
    text::lemma_lead(line);
    assert(line =~= line.take(text::lead(line) as int) + text::trim_start(line));
}

/// A line counts as commented, and as blank, by its text.
proof fn lemma_commented(line: Seq<char>, prefix: Seq<char>)
    ensures
        edit_ops::is_blank(line) <==> !has_body(line),
        edit_ops::is_commented(line, prefix) <==> is_under_prefix(line, prefix),
{
    let indent = line.take(text::lead(line) as int);
    let body = text::trim_start(line);
    lemma_is_indented(line);
    lemma_indented(line, indent, body);
    edit_ops::lemma_blank(line);
    text_laws::law_starts_with(body, prefix);
    if edit_ops::is_commented(line, prefix) {
        let rest = choose|b: Seq<char>| body == #[trigger] (prefix + b);
        assert(is_indented(line, indent, prefix + rest));
    }
    if is_under_prefix(line, prefix) {
        let (i, rest) = choose|i: Seq<char>, rest: Seq<char>|
            #[trigger] is_indented(line, i, prefix + rest);
        lemma_indented(line, i, prefix + rest);
    }
}

/// A line of a range that has a text, which does not begin with the prefix.
pub open spec fn lacks_prefix(
    lines: Seq<Seq<char>>,
    start: int,
    end: int,
    prefix: Seq<char>,
    i: int,
) -> bool {
    &&& 0 <= i < lines.len()
    &&& start <= i <= end
    &&& has_body(lines[i])
    &&& !is_under_prefix(lines[i], prefix)
}

/// Some line of a range lacks the prefix.
pub open spec fn some_lacks_prefix(
    lines: Seq<Seq<char>>,
    start: int,
    end: int,
    prefix: Seq<char>,
) -> bool {
    exists|i: int| lacks_prefix(lines, start, end, prefix, i)
}

/// A range is commented just where no line of it lacks the prefix.
proof fn lemma_direction(lines: Seq<Seq<char>>, start: int, end: int, prefix: Seq<char>)
    ensures
        edit_ops::all_commented(lines, start, end, prefix) <==> !some_lacks_prefix(
            lines,
            start,
            end,
            prefix,
        ),
{
    if !edit_ops::all_commented(lines, start, end, prefix) {
        let i = choose|i: int|
            0 <= i < lines.len() && #[trigger] edit_ops::in_range(i, start, end)
                && !edit_ops::is_blank(lines[i]) && !edit_ops::is_commented(lines[i], prefix);
        lemma_commented(lines[i], prefix);
        assert(lacks_prefix(lines, start, end, prefix, i));
    }
    if some_lacks_prefix(lines, start, end, prefix) {
        let i = choose|i: int| lacks_prefix(lines, start, end, prefix, i);
        lemma_commented(lines[i], prefix);
        assert(edit_ops::in_range(i, start, end));
    }
}

/// A line that is uncommented keeps its indentation and loses the prefix behind it, with
/// one space behind that where there is one; what is left stays as it was, however long the
/// prefix is.
pub proof fn law_uncommented_line(
    lines: Seq<Seq<char>>,
    start: int,
    end: int,
    prefix: Seq<char>,
    i: int,
    indent: Seq<char>,
    rest: Seq<char>,
)
    requires
        0 <= i < lines.len(),
        start <= i <= end,
        !some_lacks_prefix(lines, start, end, prefix),
        is_indented(lines[i], indent, prefix + rest),
    ensures
        ({
            let line = edit_ops::toggled(lines, start, end, prefix)[i];
            &&& rest.len() > 0 && rest[0] == ' ' ==> line == indent + rest.skip(1)
            &&& rest.len() == 0 || rest[0] != ' ' ==> line == indent + rest
        }),
{
    let line = lines[i];
    let body = prefix + rest;
    lemma_direction(lines, start, end, prefix);
    lemma_indented(line, indent, body);
    text_laws::law_starts_with(body, prefix);
    assert(edit_ops::in_range(i, start, end));
    assert(body.skip(prefix.len() as int) =~= rest);
}

/// A line that is commented keeps its indentation, and has the prefix and one space between
/// that and its text.
pub proof fn law_commented_line(
    lines: Seq<Seq<char>>,
    start: int,
    end: int,
    prefix: Seq<char>,
    i: int,
    indent: Seq<char>,
    body: Seq<char>,
)
    requires
        0 <= i < lines.len(),
        start <= i <= end,
        some_lacks_prefix(lines, start, end, prefix),
        is_indented(lines[i], indent, body),
        body.len() > 0,
    ensures
        edit_ops::toggled(lines, start, end, prefix)[i] == indent + prefix + seq![' '] + body,
{
    lemma_direction(lines, start, end, prefix);
    lemma_indented(lines[i], indent, body);
    assert(edit_ops::in_range(i, start, end));
}

/// Toggling keeps the number of lines, and every line that is not in the range or has no
/// text.
pub proof fn law_other_lines_stay(
    lines: Seq<Seq<char>>,
    start: int,
    end: int,
    prefix: Seq<char>,
    i: int,
)
    requires
        0 <= i < lines.len(),
        !(start <= i <= end) || !has_body(lines[i]),
    ensures
        edit_ops::toggled(lines, start, end, prefix).len() == lines.len(),
        edit_ops::toggled(lines, start, end, prefix)[i] == lines[i],
{
    let line = lines[i];
    let indent = line.take(text::lead(line) as int);
    let body = text::trim_start(line);
    lemma_is_indented(line);
    lemma_indented(line, indent, body);
    if start <= i <= end {
        assert(edit_ops::in_range(i, start, end));
        assert(body.len() == 0);
        assert(indent + body =~= line);
        if text::starts_with(body, prefix) {
            assert(prefix.len() == 0);
            assert(body.skip(0) =~= body);
        }
    } else {
        assert(!edit_ops::in_range(i, start, end));
    }
}

/// What is told of a toggle: the range counts as commented where it takes in a line and some
/// line of it lacked the prefix, and as many lines change as come out different.
pub proof fn law_toggle_is_told(
    lines: Seq<Seq<char>>,
    start: int,
    end: int,
    prefix: Seq<char>,
    r: (Vec<String>, bool, usize),
) -> (at: Seq<int>)
    requires
        edit_ops::is_toggle(lines, start, end, prefix, r),
        0 <= start,
    ensures
        r.0@.len() == lines.len(),
        forall|i: int|
            0 <= i < lines.len() ==> (#[trigger] r.0@[i])@ == edit_ops::toggled(
                lines,
                start,
                end,
                prefix,
            )[i],
        r.1 <==> some_lacks_prefix(lines, start, end, prefix),
        picks::lists_all(
            at,
            |i: int| 0 <= i < lines.len() && r.0@[i]@ != lines[i],
            |a: int, b: int| a < b,
        ),
        r.2 == at.len(),
{
    let texts = text::views(r.0@);
    assert(texts.len() == r.0@.len());
    assert forall|i: int| 0 <= i < lines.len() implies (#[trigger] r.0@[i])@ == edit_ops::toggled(
        lines,
        start,
        end,
        prefix,
    )[i] by {
        assert(texts[i] == r.0@[i]@);
    }
    lemma_direction(lines, start, end, prefix);
    let at = lemma_changed(lines, texts);
    let wanted = |i: int| 0 <= i < lines.len() && r.0@[i]@ != lines[i];
    let changed = change_wanted(lines, texts);
    assert forall|i: int| changed(i) == #[trigger] wanted(i) by {
        if 0 <= i < lines.len() {
            assert(texts[i] == r.0@[i]@);
        }
    }
    assert(changed =~= wanted);
    at
}

/// The place of a line that is counted from one; zero counts as the first.
pub open spec fn place_of_line(line: int) -> int {
    if line == 0 {
        0
    } else {
        line - 1
    }
}

/// A file that is toggled has the toggled lines, with the line ending that it had and an end
/// where it had one. It is written just where that is asked for and is not what it was.
pub proof fn law_toggled_file(
    ext: Seq<char>,
    content: Seq<char>,
    start_line: int,
    end_line: int,
    apply: bool,
    r: Result<(CommentResult, Option<String>), String>,
) -> (at: Seq<int>)
    requires
        edit_ops::toggle_outcome(ext, Ok(content), start_line, end_line, apply, r),
        r is Ok,
        start_line >= 0,
        end_line >= 0,
    ensures
        edit_ops::prefix_for(ext) is Some,
        ({
            let (res, out) = r->Ok_0;
            let lines = edit_ops::lines_of(content);
            let start = place_of_line(start_line);
            let end = place_of_line(end_line);
            let prefix = edit_ops::prefix_for(ext)->0;
            let new_lines = edit_ops::toggled(lines, start, end, prefix);
            let after = edit_ops::joined(
                new_lines,
                edit_ops::eol_of(content),
                edit_ops::ends_line(content),
            );
            &&& start < lines.len()
            &&& res.commented <==> some_lacks_prefix(lines, start, end, prefix)
            &&& picks::lists_all(
                at,
                |i: int| 0 <= i < new_lines.len() && new_lines[i] != lines[i],
                |a: int, b: int| a < b,
            )
            &&& res.changed_lines == at.len()
            &&& res.prefix@ == prefix
            &&& res.differs <==> after != content
            &&& res.applied <==> apply && after != content
            &&& out is Some <==> res.applied
            &&& out is Some ==> out->0@ == after
        }),
{
    let lines = edit_ops::lines_of(content);
    let start = place_of_line(start_line);
    let end = place_of_line(end_line);
    let prefix = edit_ops::prefix_for(ext)->0;
    lemma_direction(lines, start, end, prefix);
    lemma_changed(lines, edit_ops::toggled(lines, start, end, prefix))
}

/// A toggle is refused just where the language has no line comment, the file could not be
/// read, or the range starts behind its last line, and the reason is told in this order.
pub proof fn law_toggle_refused(
    ext: Seq<char>,
    content: Result<Seq<char>, Seq<char>>,
    start_line: int,
    end_line: int,
    apply: bool,
    r: Result<(CommentResult, Option<String>), String>,
)
    requires
        edit_ops::toggle_outcome(ext, content, start_line, end_line, apply, r),
        start_line >= 0,
    ensures
        r is Ok <==> edit_ops::prefix_for(ext) is Some && content is Ok && place_of_line(start_line)
            < edit_ops::lines_of(content->Ok_0).len(),
        edit_ops::prefix_for(ext) is None ==> r->Err_0@ == "no line comment for ."@ + ext,
        edit_ops::prefix_for(ext) is Some && content is Err ==> r->Err_0@ == content->Err_0,
        edit_ops::prefix_for(ext) is Some && content is Ok && r is Err ==> r->Err_0@
            == "start line past end of file"@,
{
}

// ── aligning ────────────────────────────────────────────────────────────────────

/// A match by which a line takes part in an alignment: any but one of no length at the very
/// start.
pub open spec fn takes_part(found: Option<(int, int)>) -> bool {
    found is Some && found->0 != (0int, 0int)
}

/// A line is what stands before a match, the match, and what stands behind it.
pub open spec fn is_cut(
    line: Seq<char>,
    found: Option<(int, int)>,
    left: Seq<char>,
    sep: Seq<char>,
    rest: Seq<char>,
) -> bool {
    &&& found is Some
    &&& line == left + sep + rest
    &&& encode_utf8(left).len() == (found->0).0
    &&& encode_utf8(left + sep).len() == (found->0).1
}

/// The parts of a line are those that the match cuts it into.
proof fn lemma_cut(
    line: Seq<char>,
    found: Option<(int, int)>,
    left: Seq<char>,
    sep: Seq<char>,
    rest: Seq<char>,
)
    requires
        is_cut(line, found, left, sep, rest),
        takes_part(found),
    ensures
        edit_ops::parts_of(line, found) == Some(
            edit_ops::Parts { left: text::trim_end(left), sep, rest: text::trim_start(rest) },
        ),
{
    let i = left.len() as int;
    let j = (left + sep).len() as int;
    let n = line.len() as int;
    assert(line.take(0) =~= Seq::<char>::empty());
    assert(encode_utf8(Seq::<char>::empty()).len() == 0);
    assert(line.take(i) =~= left);
    assert(line.take(j) =~= left + sep);
    assert(line.take(n) =~= line);
    utf8::lemma_slice(line, 0, i);
    utf8::lemma_slice(line, i, j);
    utf8::lemma_slice(line, j, n);
    assert(line.subrange(0, i) =~= left);
    assert(line.subrange(i, j) =~= sep);
    assert(line.subrange(j, n) =~= rest);
}

/// A match between characters cuts a line.
proof fn lemma_is_cut(line: Seq<char>, found: Option<(int, int)>)
    requires
        found is Some,
        pattern::is_span(line, (found->0).0, (found->0).1),
    ensures
        ({
            let (start, end) = found->0;
            is_cut(
                line,
                found,
                utf8::slice_of(line, 0, start),
                utf8::slice_of(line, start, end),
                utf8::slice_of(line, end, encode_utf8(line).len() as int),
            )
        }),
{
    let (start, end) = found->0;
    let bytes = encode_utf8(line);
    let n = bytes.len() as int;
    encode_utf8_valid_utf8(line);
    encode_utf8_decode_utf8(line);
    utf8::lemma_boundary_in_tail(bytes, start, end);
    valid_utf8_split(bytes, start);
    valid_utf8_split(bytes, end);
    decode_utf8_split(bytes, start);
    decode_utf8_split(bytes, end);
    let tail = bytes.subrange(start, n);
    valid_utf8_split(tail, end - start);
    decode_utf8_split(tail, end - start);
    assert(tail.subrange(0, end - start) =~= bytes.subrange(start, end));
    assert(tail.subrange(end - start, tail.len() as int) =~= bytes.subrange(end, n));
    let left = utf8::slice_of(line, 0, start);
    let sep = utf8::slice_of(line, start, end);
    let rest = utf8::slice_of(line, end, n);
    assert(left + (sep + rest) =~= left + sep + rest);
    decode_utf8_encode_utf8(bytes.subrange(0, start));
    decode_utf8_encode_utf8(bytes.subrange(start, end));
    utf8::lemma_encode_concat(left, sep);
}

/// The width that an alignment gives to what stands before the delimiter: no line needs
/// more, and some line needs it unless it is nothing.
pub open spec fn is_width(
    lines: Seq<Seq<char>>,
    found: Seq<Option<(int, int)>>,
    width: nat,
) -> bool {
    &&& forall|i: int, left: Seq<char>, sep: Seq<char>, rest: Seq<char>|
        0 <= i < lines.len() && takes_part(found[i]) && #[trigger] is_cut(
            lines[i],
            found[i],
            left,
            sep,
            rest,
        ) ==> text::trim_end(left).len() <= width
    &&& width > 0 ==> exists|i: int, left: Seq<char>, sep: Seq<char>, rest: Seq<char>|
        0 <= i < lines.len() && takes_part(found[i]) && #[trigger] is_cut(
            lines[i],
            found[i],
            left,
            sep,
            rest,
        ) && text::trim_end(left).len() == width
}

/// The widest text before a delimiter is that of some line.
proof fn lemma_widest_is_some(parts: Seq<Option<edit_ops::Parts>>) -> (i: int)
    requires
        edit_ops::widest(parts) > 0,
    ensures
        0 <= i < parts.len(),
        parts[i] is Some,
        parts[i]->0.left.len() == edit_ops::widest(parts),
    decreases parts.len(),
{
    let t = parts.drop_last();
    let last = parts.len() - 1;
    if parts[last] is Some && parts[last]->0.left.len() == edit_ops::widest(parts) {
        last
    } else {
        let i = lemma_widest_is_some(t);
        assert(t[i] == parts[i]);
        i
    }
}

/// An alignment puts the delimiters of all lines that take part at one column. There is a
/// width, which the longest text before a delimiter just fills; each such text, without the
/// white space behind it, is padded to it, then come a space and the delimiter, and then a
/// space and what follows, without the white space before it, where there is anything. The
/// other lines stay as they were.
pub proof fn law_aligned_lines(lines: Seq<Seq<char>>, found: Seq<Option<(int, int)>>) -> (width:
    nat)
    requires
        edit_ops::are_spans(lines, found),
    ensures
        is_width(lines, found, width),
        edit_ops::aligned(lines, found).len() == lines.len(),
        forall|i: int|
            0 <= i < lines.len() && !takes_part(#[trigger] found[i]) ==> edit_ops::aligned(
                lines,
                found,
            )[i] == lines[i],
        forall|i: int, left: Seq<char>, sep: Seq<char>, rest: Seq<char>|
            0 <= i < lines.len() && takes_part(found[i]) && #[trigger] is_cut(
                lines[i],
                found[i],
                left,
                sep,
                rest,
            ) ==> edit_ops::aligned(lines, found)[i] == text::trim_end(left) + Seq::new(
                (width + 1 - text::trim_end(left).len()) as nat,
                |k: int| ' ',
            ) + sep + (if text::trim_start(rest).len() == 0 {
                Seq::empty()
            } else {
                seq![' '] + text::trim_start(rest)
            }),
{
    let parts = edit_ops::all_parts(lines, found);
    let width = edit_ops::widest(parts);
    let out = edit_ops::aligned(lines, found);
    edit_ops::lemma_widest(parts);
    assert forall|i: int| 0 <= i < lines.len() && !takes_part(#[trigger] found[i]) implies out[i]
        == lines[i] by {
        if found[i] is Some {
            assert(pattern::is_span(lines[i], (found[i]->0).0, (found[i]->0).1));
        }
        assert(parts[i] is None);
    }
    assert forall|i: int, left: Seq<char>, sep: Seq<char>, rest: Seq<char>|
        0 <= i < lines.len() && takes_part(found[i]) && #[trigger] is_cut(
            lines[i],
            found[i],
            left,
            sep,
            rest,
        ) implies text::trim_end(left).len() <= width && out[i] == text::trim_end(left) + Seq::new(
        (width + 1 - text::trim_end(left).len()) as nat,
        |k: int| ' ',
    ) + sep + (if text::trim_start(rest).len() == 0 {
        Seq::empty()
    } else {
        seq![' '] + text::trim_start(rest)
    }) by {
        lemma_cut(lines[i], found[i], left, sep, rest);
        let l = text::trim_end(left);
        let r = text::trim_start(rest);
        assert(parts[i] is Some);
        assert(parts[i]->0.left.len() <= width);
        let gap = Seq::new((width + 1 - l.len()) as nat, |k: int| ' ');
        assert(edit_ops::spaces((width - l.len()) as nat) + seq![' '] =~= gap);
        if r.len() == 0 {
            assert(out[i] =~= l + gap + sep + Seq::<char>::empty());
        } else {
            assert(out[i] =~= l + gap + sep + (seq![' '] + r));
        }
    }
    if width > 0 {
        let i = lemma_widest_is_some(parts);
        assert(parts[i] == edit_ops::parts_of(lines[i], found[i]));
        let (start, end) = found[i]->0;
        assert(pattern::is_span(lines[i], start, end));
        let left = utf8::slice_of(lines[i], 0, start);
        let sep = utf8::slice_of(lines[i], start, end);
        let rest = utf8::slice_of(lines[i], end, encode_utf8(lines[i]).len() as int);
        lemma_is_cut(lines[i], found[i]);
        assert(is_cut(lines[i], found[i], left, sep, rest));
        assert(takes_part(found[i]));
    }
    width
}

/// Every line that takes part is cut into three by its match, so the law above speaks of all
/// of them.
pub proof fn law_every_match_cuts(lines: Seq<Seq<char>>, found: Seq<Option<(int, int)>>, i: int)
    requires
        edit_ops::are_spans(lines, found),
        0 <= i < lines.len(),
        found[i] is Some,
    ensures
        exists|left: Seq<char>, sep: Seq<char>, rest: Seq<char>|
            is_cut(lines[i], found[i], left, sep, rest),
{
    assert(pattern::is_span(lines[i], (found[i]->0).0, (found[i]->0).1));
    lemma_is_cut(lines[i], found[i]);
}

/// The lines that take part.
spec fn part_wanted(lines: Seq<Seq<char>>, found: Seq<Option<(int, int)>>) -> spec_fn(int) -> bool {
    |i: int| 0 <= i < lines.len() && takes_part(found[i])
}

/// As many lines count as matched as have parts.
proof fn lemma_matched(parts: Seq<Option<edit_ops::Parts>>) -> (at: Seq<int>)
    ensures
        picks::lists_all(
            at,
            |i: int| 0 <= i < parts.len() && parts[i] is Some,
            picks::ascending(),
        ),
        edit_ops::count_matched(parts) == at.len(),
    decreases parts.len(),
{
    let wanted = |i: int| 0 <= i < parts.len() && parts[i] is Some;
    if parts.len() == 0 {
        picks::lemma_lists_none(wanted, picks::ascending());
        Seq::empty()
    } else {
        let t = parts.drop_last();
        let i = parts.len() - 1;
        let before = lemma_matched(t);
        let in_before = |i: int| 0 <= i < t.len() && t[i] is Some;
        assert forall|k: int| k != i implies (#[trigger] wanted(k) <==> in_before(k)) by {
            if 0 <= k < t.len() {
                assert(t[k] == parts[k]);
            }
        }
        picks::lemma_lists_next(before, i, in_before, wanted, picks::ascending());
        picks::with_next(before, i, wanted(i))
    }
}

/// As many lines count as matched as take part.
proof fn lemma_taking_part(lines: Seq<Seq<char>>, found: Seq<Option<(int, int)>>) -> (at: Seq<int>)
    requires
        edit_ops::are_spans(lines, found),
    ensures
        picks::lists_all(at, part_wanted(lines, found), picks::ascending()),
        edit_ops::count_matched(edit_ops::all_parts(lines, found)) == at.len(),
{
    let parts = edit_ops::all_parts(lines, found);
    let at = lemma_matched(parts);
    let with_parts = |i: int| 0 <= i < parts.len() && parts[i] is Some;
    let wanted = part_wanted(lines, found);
    assert forall|i: int| with_parts(i) == #[trigger] wanted(i) by {
        if 0 <= i < lines.len() {
            assert(parts[i] == edit_ops::parts_of(lines[i], found[i]));
            if found[i] is Some {
                let (start, end) = found[i]->0;
                assert(pattern::is_span(lines[i], start, end));
                encode_utf8_valid_utf8(lines[i]);
                utf8::lemma_boundary_in_tail(encode_utf8(lines[i]), start, end);
            }
        }
    }
    assert(with_parts =~= wanted);
    at
}

/// Where a literal text first stands in a line, in bytes; nothing where it does not stand
/// there.
pub open spec fn is_literal_match(
    sep: Seq<char>,
    line: Seq<char>,
    found: Option<(int, int)>,
) -> bool {
    match found {
        Some((start, end)) => exists|a: Seq<char>, b: Seq<char>|
            line == #[trigger] (a + sep + b) && encode_utf8(a).len() == start && encode_utf8(
                a + sep,
            ).len() == end && is_shortest_before(sep, line, a),
        None => forall|a: Seq<char>, b: Seq<char>| line != #[trigger] (a + sep + b),
    }
}

/// No shorter text stands before the separator.
pub open spec fn is_shortest_before(sep: Seq<char>, line: Seq<char>, a: Seq<char>) -> bool {
    forall|x: Seq<char>, y: Seq<char>| line == #[trigger] (x + sep + y) ==> a.len() <= x.len()
}

/// A literal match is the first.
proof fn lemma_literal(sep: Seq<char>, line: Seq<char>)
    ensures
        is_literal_match(sep, line, pattern::literal_match(sep, line)),
{
    text::lemma_find(line, sep);
    text_laws::law_contains(line, sep);
    match text::find(line, sep) {
        Some(i) => {
            let a = line.take(i);
            let b = line.skip(i + sep.len());
            assert(line.subrange(i, i + sep.len()) == sep);
            assert(line =~= a + line.subrange(i, i + sep.len()) + b);
            assert(line.take(i + sep.len()) =~= a + sep);
            assert forall|x: Seq<char>, y: Seq<char>| line == #[trigger] (x + sep + y) implies a.len()
                <= x.len() by {
                text_laws::law_occurrence(line, sep, x.len() as int);
            }
            assert(is_shortest_before(sep, line, a));
        },
        None => {},
    }
}

/// The matches that an alignment goes by: for every line, where the regular expression
/// first matches in it or where the literal text first stands in it.
pub open spec fn are_matches(
    lines: Seq<Seq<char>>,
    sep: Seq<char>,
    regex: bool,
    found: Seq<Option<(int, int)>>,
) -> bool {
    &&& found.len() == lines.len()
    &&& forall|i: int|
        0 <= i < lines.len() ==> if regex {
            #[trigger] found[i] == pattern::regex_match(sep, lines[i])
        } else {
            is_literal_match(sep, lines[i], found[i])
        }
}

/// A file that is aligned has its lines aligned on the matches of the delimiter, which is
/// taken without the white space around it: every line in which it matches takes part. It
/// keeps its line ending, and is written just where that is asked for and is not what it
/// was.
pub proof fn law_aligned_file(
    content: Seq<char>,
    separator: Seq<char>,
    regex: bool,
    apply: bool,
    r: Result<(AlignResult, Option<String>), String>,
) -> (told: (Seq<Option<(int, int)>>, Seq<int>, Seq<int>))
    requires
        edit_ops::align_outcome(Ok(content), separator, regex, apply, r),
        r is Ok,
    ensures
        ({
            let (found, matched, changed) = told;
            let (res, out) = r->Ok_0;
            let lines = edit_ops::lines_of(content);
            let new_lines = edit_ops::aligned(lines, found);
            let after = edit_ops::joined(
                new_lines,
                edit_ops::eol_of(content),
                edit_ops::ends_line(content),
            );
            &&& are_matches(lines, text::trim(separator), regex, found)
            &&& edit_ops::are_spans(lines, found)
            &&& picks::lists_all(
                matched,
                |i: int| 0 <= i < lines.len() && takes_part(found[i]),
                |a: int, b: int| a < b,
            )
            &&& res.matched_lines == matched.len()
            &&& picks::lists_all(
                changed,
                |i: int| 0 <= i < new_lines.len() && new_lines[i] != lines[i],
                |a: int, b: int| a < b,
            )
            &&& res.changed_lines == changed.len()
            &&& res.differs <==> after != content
            &&& res.applied <==> apply && after != content
            &&& out is Some <==> res.applied
            &&& out is Some ==> out->0@ == after
        }),
{
    let lines = edit_ops::lines_of(content);
    let sep = text::trim(separator);
    let found = edit_ops::delimiter_matches(lines, sep, regex);
    assert forall|i: int| 0 <= i < lines.len() implies if regex {
        #[trigger] found[i] == pattern::regex_match(sep, lines[i])
    } else {
        is_literal_match(sep, lines[i], found[i])
    } by {
        lemma_literal(sep, lines[i]);
    }
    let matched = lemma_taking_part(lines, found);
    let changed = lemma_changed(lines, edit_ops::aligned(lines, found));
    (found, matched, changed)
}

/// With a regular expression, a file is aligned as its text is aligned on the expression
/// that the delimiter stands for.
pub proof fn law_regex_aligns_text(
    content: Seq<char>,
    separator: Seq<char>,
    apply: bool,
    r: Result<(AlignResult, Option<String>), String>,
    by_text: (String, usize, usize),
)
    requires
        edit_ops::align_outcome(Ok(content), separator, true, apply, r),
        r is Ok,
        edit_ops::is_aligned_by(content, text::trim(separator), by_text),
    ensures
        r->Ok_0.0.changed_lines == by_text.1,
        r->Ok_0.0.matched_lines == by_text.2,
        r->Ok_0.0.differs <==> by_text.0@ != content,
        r->Ok_0.1 is Some <==> apply && by_text.0@ != content,
        r->Ok_0.1 is Some ==> r->Ok_0.1->0@ == by_text.0@,
{
    let lines = edit_ops::lines_of(content);
    let sep = text::trim(separator);
    assert(edit_ops::regex_matches(lines, sep) =~= edit_ops::delimiter_matches(lines, sep, true));
}

/// A text that is aligned on a regular expression has every line take part in which it
/// matches, at the offsets of its first match there.
pub proof fn law_aligned_text(content: Seq<char>, sep: Seq<char>, r: (String, usize, usize)) -> (
told: (Seq<Option<(int, int)>>, Seq<int>, Seq<int>))
    requires
        edit_ops::is_aligned_by(content, sep, r),
    ensures
        ({
            let (found, matched, changed) = told;
            let lines = edit_ops::lines_of(content);
            let new_lines = edit_ops::aligned(lines, found);
            &&& found.len() == lines.len()
            &&& forall|i: int|
                0 <= i < lines.len() ==> #[trigger] found[i] == pattern::regex_match(sep, lines[i])
            &&& edit_ops::are_spans(lines, found)
            &&& r.0@ == edit_ops::joined(
                new_lines,
                edit_ops::eol_of(content),
                edit_ops::ends_line(content),
            )
            &&& picks::lists_all(
                changed,
                |i: int| 0 <= i < new_lines.len() && new_lines[i] != lines[i],
                |a: int, b: int| a < b,
            )
            &&& r.1 == changed.len()
            &&& picks::lists_all(
                matched,
                |i: int| 0 <= i < lines.len() && takes_part(found[i]),
                |a: int, b: int| a < b,
            )
            &&& r.2 == matched.len()
        }),
{
    let lines = edit_ops::lines_of(content);
    let found = edit_ops::regex_matches(lines, sep);
    let matched = lemma_taking_part(lines, found);
    let changed = lemma_changed(lines, edit_ops::aligned(lines, found));
    (found, matched, changed)
}

/// An alignment is refused just where the delimiter is white space alone, its pattern does
/// not compile, or the file could not be read, and the reason is told in this order.
pub proof fn law_align_refused(
    content: Result<Seq<char>, Seq<char>>,
    separator: Seq<char>,
    regex: bool,
    apply: bool,
    r: Result<(AlignResult, Option<String>), String>,
)
    requires
        edit_ops::align_outcome(content, separator, regex, apply, r),
    ensures
        ({
            let sep = text::trim(separator);
            let error = pattern::regex_error(if regex {
                sep
            } else {
                pattern::quoted(sep)
            });
            &&& r is Ok <==> sep.len() > 0 && error is None && content is Ok
            &&& sep.len() == 0 ==> r->Err_0@ == "empty delimiter"@
            &&& sep.len() > 0 && error is Some ==> r->Err_0@ == "bad pattern: "@ + error->0
            &&& sep.len() > 0 && error is None && content is Err ==> r->Err_0@ == content->Err_0
        }),
{
}

// ── languages ───────────────────────────────────────────────────────────────────

/// The extensions of the languages whose line comments start with two slashes.
pub open spec fn slash_languages() -> Seq<Seq<char>> {
    seq![
        "rs"@, "js"@, "mjs"@, "cjs"@, "ts"@, "tsx"@, "jsx"@, "go"@, "c"@, "h"@, "cc"@, "cpp"@,
        "cxx"@, "hpp"@, "hh"@, "java"@, "swift"@, "kt"@, "kts"@, "scala"@, "dart"@, "php"@, "cs"@,
        "zig"@,
    ]
}

/// Those whose line comments start with a hash.
pub open spec fn hash_languages() -> Seq<Seq<char>> {
    seq![
        "py"@, "rb"@, "sh"@, "bash"@, "zsh"@, "pl"@, "pm"@, "stk"@, "yaml"@, "yml"@, "toml"@,
        "conf"@, "cfg"@, "ini"@, "r"@, "jl"@, "ex"@, "exs"@, "nim"@, "tcl"@, "mk"@, "make"@,
        "dockerfile"@, "gitignore"@,
    ]
}

/// Those whose line comments start with two hyphens.
pub open spec fn hyphen_languages() -> Seq<Seq<char>> {
    seq!["lua"@, "sql"@, "hs"@, "elm"@, "adb"@, "ads"@]
}

/// Those whose line comments start with a semicolon.
pub open spec fn semicolon_languages() -> Seq<Seq<char>> {
    seq!["lisp"@, "el"@, "clj"@, "cljs"@, "scm"@, "rkt"@, "asm"@, "s"@]
}

/// Those whose line comments start with a quotation mark.
pub open spec fn quote_languages() -> Seq<Seq<char>> {
    seq!["vim"@, "vimrc"@]
}

/// Every language has the prefix of the list that it is in, and one that is in no list has
/// none.
pub proof fn law_prefixes(ext: Seq<char>)
    ensures
        edit_ops::prefix_for(ext) is Some <==> slash_languages().contains(ext)
            || hash_languages().contains(ext) || hyphen_languages().contains(ext)
            || semicolon_languages().contains(ext) || quote_languages().contains(ext),
        edit_ops::prefix_for(ext) == Some("//"@) ==> slash_languages().contains(ext),
        edit_ops::prefix_for(ext) == Some("#"@) ==> hash_languages().contains(ext),
        edit_ops::prefix_for(ext) == Some("--"@) ==> hyphen_languages().contains(ext),
        edit_ops::prefix_for(ext) == Some(";"@) ==> semicolon_languages().contains(ext),
        edit_ops::prefix_for(ext) == Some("\""@) ==> quote_languages().contains(ext),
        edit_ops::prefix_for(ext) is Some ==> seq!["//"@, "#"@, "--"@, ";"@, "\""@].contains(
            edit_ops::prefix_for(ext)->0,
        ),
{
    let a = slash_languages();
    let b = hash_languages();
    let c = hyphen_languages();
    let d = semicolon_languages();
    let e = quote_languages();
    let p = seq!["//"@, "#"@, "--"@, ";"@, "\""@];
    assert(p[0] == "//"@ && p[1] == "#"@ && p[2] == "--"@ && p[3] == ";"@ && p[4] == "\""@);
    reveal_strlit("//");
    reveal_strlit("#");
    reveal_strlit("--");
    reveal_strlit(";");
    reveal_strlit("\"");
    assert("//"@[0] == '/' && "#"@[0] == '#' && "--"@[0] == '-' && ";"@[0] == ';' && "\""@[0]
        == '"');
    assert(a[0] == "rs"@ && a[1] == "js"@ && a[2] == "mjs"@ && a[3] == "cjs"@ && a[4] == "ts"@
        && a[5] == "tsx"@ && a[6] == "jsx"@ && a[7] == "go"@ && a[8] == "c"@ && a[9] == "h"@
        && a[10] == "cc"@ && a[11] == "cpp"@ && a[12] == "cxx"@ && a[13] == "hpp"@ && a[14] == "hh"@
        && a[15] == "java"@ && a[16] == "swift"@ && a[17] == "kt"@ && a[18] == "kts"@ && a[19]
        == "scala"@ && a[20] == "dart"@ && a[21] == "php"@ && a[22] == "cs"@ && a[23] == "zig"@);
    assert(b[0] == "py"@ && b[1] == "rb"@ && b[2] == "sh"@ && b[3] == "bash"@ && b[4] == "zsh"@
        && b[5] == "pl"@ && b[6] == "pm"@ && b[7] == "stk"@ && b[8] == "yaml"@ && b[9] == "yml"@
        && b[10] == "toml"@ && b[11] == "conf"@ && b[12] == "cfg"@ && b[13] == "ini"@ && b[14]
        == "r"@ && b[15] == "jl"@ && b[16] == "ex"@ && b[17] == "exs"@ && b[18] == "nim"@ && b[19]
        == "tcl"@ && b[20] == "mk"@ && b[21] == "make"@ && b[22] == "dockerfile"@ && b[23]
        == "gitignore"@);
    assert(c[0] == "lua"@ && c[1] == "sql"@ && c[2] == "hs"@ && c[3] == "elm"@ && c[4] == "adb"@
        && c[5] == "ads"@);
    assert(d[0] == "lisp"@ && d[1] == "el"@ && d[2] == "clj"@ && d[3] == "cljs"@ && d[4] == "scm"@
        && d[5] == "rkt"@ && d[6] == "asm"@ && d[7] == "s"@);
    assert(e[0] == "vim"@ && e[1] == "vimrc"@);
}

// ── text files ──────────────────────────────────────────────────────────────────

/// A file is read as text just where its size is known and at most 4 MiB, it could be read,
/// and no NUL stands among its first 8192 bytes. Its text is that of its bytes.
pub proof fn law_text_files(len: Option<u64>, bytes: Result<Seq<u8>, Seq<char>>)
    ensures
        ({
            let r = edit_ops::file_text(len, bytes);
            let fits = len is Some && len->0 <= 0x40_0000;
            let has_nul = exists|i: int|
                0 <= i < bytes->Ok_0.len() && i < 8192 && #[trigger] bytes->Ok_0[i] == 0;
            &&& r is Ok <==> fits && bytes is Ok && !has_nul
            &&& r is Ok ==> r->Ok_0 == utf8::lossy(bytes->Ok_0)
            &&& !fits ==> r->Err_0 == "file too large or unreadable"@
            &&& fits && bytes is Err ==> r->Err_0 == bytes->Err_0
            &&& fits && bytes is Ok && has_nul ==> r->Err_0 == "binary file"@
        }),
{
    if bytes is Ok {
        let b = bytes->Ok_0;
        if project::has_early_nul(b) {
            let i = choose|i: int|
                0 <= i < b.len() && i < project::BINARY_SNIFF_BYTES && b[i] == 0;
            assert(bytes->Ok_0[i] == 0);
        }
    }
}

} // verus!
