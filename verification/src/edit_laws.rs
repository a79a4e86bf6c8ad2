//! What holds of the line edits as a whole.

use crate::edit_ops;
use crate::pattern;
use crate::text;
use crate::utf8;
use vstd::prelude::*;
use vstd::utf8::*;

verus! {

// ── splitting and joining ───────────────────────────────────────────────────────

/// No piece of text holds a line feed.
pub open spec fn no_feed(s: Seq<char>) -> bool {
    !s.contains('\n')
}

/// A carriage return ends each of the pieces but the last.
pub open spec fn cr_before_last(pieces: Seq<Seq<char>>) -> Seq<Seq<char>> {
    pieces.map(
        |i: int, p: Seq<char>|
            if i < pieces.len() - 1 {
                p.push('\r')
            } else {
                p
            },
    )
}

/// Joining with CRLF is joining, with a line feed, pieces that end in a carriage return.
proof fn lemma_join_crlf(pieces: Seq<Seq<char>>)
    requires
        pieces.len() > 0,
    ensures
        text::join(pieces, edit_ops::crlf()) == text::join(cr_before_last(pieces), seq!['\n']),
    decreases pieces.len(),
{
    let marked = cr_before_last(pieces);
    if pieces.len() == 1 {
        assert(marked == pieces);
    } else {
        let t = pieces.drop_last();
        lemma_join_crlf(t);
        let u = marked.drop_last();
        // The last piece of `t` has no carriage return there and has one here.
        assert(u == cr_before_last(t).update(t.len() - 1, t.last().push('\r')));
        lemma_join_longer_last(cr_before_last(t), seq!['\n'], '\r');
        assert(cr_before_last(t).last() == t.last());
        assert(text::join(u, seq!['\n']) == text::join(t, edit_ops::crlf()).push('\r'));
        assert(text::join(pieces, edit_ops::crlf()) == text::join(t, edit_ops::crlf())
            + edit_ops::crlf() + pieces.last());
        assert(marked.last() == pieces.last());
        assert(text::join(t, edit_ops::crlf()) + edit_ops::crlf() + pieces.last() == text::join(
            u,
            seq!['\n'],
        ) + seq!['\n'] + pieces.last());
    }
}

/// One more character on the last piece is one more character on the joined text.
proof fn lemma_join_longer_last(pieces: Seq<Seq<char>>, sep: Seq<char>, c: char)
    requires
        pieces.len() > 0,
    ensures
        text::join(pieces.update(pieces.len() - 1, pieces.last().push(c)), sep) == text::join(
            pieces,
            sep,
        ).push(c),
{
    let longer = pieces.update(pieces.len() - 1, pieces.last().push(c));
    if pieces.len() > 1 {
        assert(longer.drop_last() == pieces.drop_last());
        let head = text::join(pieces.drop_last(), sep) + sep;
        assert(head + pieces.last().push(c) == (head + pieces.last()).push(c));
    }
}

/// The text ends in a carriage return.
pub open spec fn ends_cr(s: Seq<char>) -> bool {
    s.len() > 0 && s.last() == '\r'
}

/// A line feed of the text has a carriage return before it just where the piece ends in
/// one.
pub open spec fn feed_after(s: Seq<char>, piece: Seq<char>) -> bool {
    exists|k: int| edit_ops::feed_at(s, k, ends_cr(piece))
}

/// A text with one kind of line ending throughout, which is not a lone line ending and
/// does not end in a carriage return.
pub open spec fn is_uniform(s: Seq<char>) -> bool {
    &&& s != seq!['\n']
    &&& s != edit_ops::crlf()
    &&& !ends_cr(s)
    &&& edit_ops::feeds(s, true) == 0 || edit_ops::feeds(s, false) == 0
}

/// A line feed is counted among those of its kind.
proof fn lemma_feed_counted(s: Seq<char>, k: int, cr: bool)
    requires
        edit_ops::feed_at(s, k, cr),
    ensures
        edit_ops::feeds(s, cr) > 0,
    decreases s.len(),
{
    if k < s.len() - 1 {
        let t = s.drop_last();
        assert(t[k] == s[k]);
        if k > 0 {
            assert(t[k - 1] == s[k - 1]);
        }
        lemma_feed_counted(t, k, cr);
    }
}

/// There is a line feed between each two pieces.
proof fn lemma_feeds_and_pieces(s: Seq<char>)
    ensures
        edit_ops::feeds(s, true) + edit_ops::feeds(s, false) == text::split(s, '\n').len() - 1,
    decreases s.len(),
{
    if s.len() > 0 {
        lemma_feeds_and_pieces(s.drop_last());
        text::lemma_split_pieces(s.drop_last(), '\n');
    }
}

/// Each piece but the last is followed by a line feed, and ends in a carriage return
/// just where one stands before that line feed. The last piece ends as the text does.
proof fn lemma_piece_ends(s: Seq<char>)
    ensures
        ({
            let p = text::split(s, '\n');
            &&& p.len() >= 1
            &&& p.last().len() > 0 ==> s.len() > 0 && p.last().last() == s.last()
            &&& p.last().len() == 0 <==> (s.len() == 0 || s.last() == '\n')
            &&& edit_ops::ends_line(s) ==> p.len() >= 2
            &&& forall|i: int|
                0 <= i < p.len() - 1 ==> feed_after(s, #[trigger] p[i])
        }),
    decreases s.len(),
{
    if s.len() > 0 {
        let t = s.drop_last();
        let before = text::split(t, '\n');
        let p = text::split(s, '\n');
        lemma_piece_ends(t);
        assert forall|i: int| 0 <= i < p.len() - 1 implies feed_after(
            s,
            #[trigger] p[i],
        ) by {
            assert(p[i] == before[i]);
            if i < before.len() - 1 {
                let k = choose|k: int| edit_ops::feed_at(t, k, ends_cr(before[i]));
                assert(t[k] == s[k]);
                if k > 0 {
                    assert(t[k - 1] == s[k - 1]);
                }
                assert(edit_ops::feed_at(s, k, ends_cr(p[i])));
            } else {
                assert(s.last() == '\n');
                assert(before[i] == before.last());
                let k = s.len() - 1;
                if k > 0 {
                    assert(t.last() == s[k - 1]);
                }
                assert(edit_ops::feed_at(s, k, ends_cr(p[i])));
            }
        }
    }
}

/// A text of one kind of line ending: its pieces but the last end in a carriage return
/// all or none, by its line ending, and the last does not.
proof fn lemma_uniform_pieces(s: Seq<char>)
    requires
        is_uniform(s),
    ensures
        ({
            let p = text::split(s, '\n');
            &&& p.len() >= 1
            &&& !ends_cr(p.last())
            &&& forall|i: int|
                0 <= i < p.len() - 1 ==> ends_cr(#[trigger] p[i]) == (edit_ops::eol_of(s)
                    == edit_ops::crlf())
        }),
{
    let p = text::split(s, '\n');
    lemma_piece_ends(s);
    lemma_endings_differ();
    assert forall|i: int| 0 <= i < p.len() - 1 implies ends_cr(#[trigger] p[i]) == (edit_ops::eol_of(
        s,
    ) == edit_ops::crlf()) by {
        let k = choose|k: int| edit_ops::feed_at(s, k, ends_cr(p[i]));
        lemma_feed_counted(s, k, ends_cr(p[i]));
    }
}

/// The two line endings are different.
proof fn lemma_endings_differ()
    ensures
        edit_ops::crlf() != seq!['\n'],
{
    assert(edit_ops::crlf().len() == 2);
}

/// Text is joined from at least one character unless there is one empty piece.
proof fn lemma_join_empty(pieces: Seq<Seq<char>>, sep: Seq<char>)
    requires
        pieces.len() > 0,
        sep.len() > 0,
        text::join(pieces, sep).len() == 0,
    ensures
        pieces == seq![Seq::<char>::empty()],
{
    if pieces.len() == 1 {
        assert(pieces[0] == Seq::<char>::empty());
    }
}

/// A file whose line endings are of one kind is rebuilt as it was: splitting it into
/// lines and joining them again with its line ending gives the same text.
pub proof fn law_split_then_join(content: Seq<char>)
    requires
        is_uniform(content),
    ensures
        edit_ops::joined(
            edit_ops::lines_of(content),
            edit_ops::eol_of(content),
            edit_ops::ends_line(content),
        ) == content,
{
    let eol = edit_ops::eol_of(content);
    let pieces = text::split(content, '\n');
    let bare = edit_ops::stripped_pieces(content);
    lemma_uniform_pieces(content);
    lemma_piece_ends(content);
    text::lemma_join_split(content, '\n');
    assert(text::join(bare, eol) == content) by {
        lemma_endings_differ();
        if eol == edit_ops::crlf() {
            lemma_join_crlf(bare);
            assert forall|i: int| 0 <= i < pieces.len() implies cr_before_last(bare)[i]
                == pieces[i] by {
                if i < pieces.len() - 1 {
                    assert(ends_cr(pieces[i]));
                    assert(pieces[i].drop_last().push('\r') == pieces[i]);
                }
            }
            assert(cr_before_last(bare) == pieces);
        } else {
            assert forall|i: int| 0 <= i < pieces.len() implies bare[i] == pieces[i] by {
                if i < pieces.len() - 1 {
                    assert(!ends_cr(pieces[i]));
                }
            }
            assert(bare == pieces);
        }
    }
    if edit_ops::ends_line(content) {
        let lines = edit_ops::lines_of(content);
        assert(bare.last() == Seq::<char>::empty());
        assert(text::join(bare, eol) == text::join(lines, eol) + eol + Seq::<char>::empty());
        assert(text::join(lines, eol) + eol + Seq::<char>::empty() == text::join(lines, eol) + eol);
        if text::join(lines, eol).len() == 0 {
            assert(text::join(lines, eol) + eol == eol);
            assert(content == eol);
        }
    }
}

/// Lines that can be told apart again once they are joined.
pub open spec fn is_clean(lines: Seq<Seq<char>>, eol: Seq<char>, trailing: bool) -> bool {
    &&& lines.len() > 0
    &&& eol == edit_ops::crlf() || eol == seq!['\n']
    &&& forall|i: int| 0 <= i < lines.len() ==> no_feed(#[trigger] lines[i])
    &&& eol == seq!['\n'] ==> forall|i: int| 0 <= i < lines.len() ==> !ends_cr(#[trigger] lines[i])
    &&& eol == edit_ops::crlf() ==> lines.len() > 1 || trailing
    &&& !trailing ==> !ends_cr(lines.last()) && (lines.len() > 1 ==> lines.last().len() > 0)
    &&& trailing ==> lines != seq![Seq::<char>::empty()]
}

/// The lines behind which a line feed stands, and an empty piece where the text ends in
/// one.
proof fn lemma_join_trailing(lines: Seq<Seq<char>>, eol: Seq<char>)
    requires
        lines.len() > 0,
    ensures
        text::join(lines.push(Seq::empty()), eol) == text::join(lines, eol) + eol,
{
    text::lemma_join_push(lines, eol, Seq::empty());
    assert(text::join(lines, eol) + eol + Seq::<char>::empty() == text::join(lines, eol) + eol);
}

/// Lines that were joined come back when the text is split.
pub proof fn lemma_lines_of_joined(lines: Seq<Seq<char>>, eol: Seq<char>, trailing: bool)
    requires
        is_clean(lines, eol, trailing),
    ensures
        ({
            let s = edit_ops::joined(lines, eol, trailing);
            &&& edit_ops::lines_of(s) == lines
            &&& edit_ops::eol_of(s) == eol
            &&& edit_ops::ends_line(s) == trailing
        }),
{
    let s = edit_ops::joined(lines, eol, trailing);
    // The pieces that the text is joined from, with the empty one behind a last line end.
    let all = if trailing {
        lines.push(Seq::empty())
    } else {
        lines
    };
    assert(s == text::join(all, eol)) by {
        if trailing {
            lemma_join_trailing(lines, eol);
            if text::join(lines, eol).len() == 0 {
                lemma_join_empty(lines, eol);
            }
        }
    }
    let windows = eol == edit_ops::crlf();
    let pieces = if windows {
        cr_before_last(all)
    } else {
        all
    };
    lemma_endings_differ();
    assert(s == text::join(pieces, seq!['\n'])) by {
        if windows {
            lemma_join_crlf(all);
        }
    }
    assert forall|i: int| 0 <= i < pieces.len() implies !(#[trigger] pieces[i]).contains('\n') by {
        if pieces[i].contains('\n') {
            let k = choose|k: int| 0 <= k < pieces[i].len() && pieces[i][k] == '\n';
            assert(all[i][k] == '\n');
            assert(i < lines.len());
            assert(no_feed(lines[i]));
        }
    }
    text::lemma_split_join(pieces, '\n');
    assert(text::split(s, '\n') == pieces);
    assert forall|i: int| 0 <= i < all.len() implies edit_ops::stripped_pieces(s)[i] == all[i] by {
        assert(edit_ops::stripped_pieces(s)[i] == text::strip_cr(pieces[i]));
        if windows {
            if i < all.len() - 1 {
                assert(all[i].push('\r').drop_last() == all[i]);
            } else {
                assert(pieces[i] == all[i]);
                assert(!ends_cr(all[i])) by {
                    if !trailing {
                        assert(all[i] == lines.last());
                    }
                }
            }
        } else {
            if i < lines.len() {
                assert(!ends_cr(lines[i]));
            }
        }
    }
    assert(edit_ops::stripped_pieces(s) == all);
    lemma_piece_ends(s);
    assert(pieces.last() == all.last());
    assert(edit_ops::ends_line(s) == trailing) by {
        if trailing {
            assert(pieces.last().len() == 0);
            assert(s.len() > 0);
        } else if lines.len() == 1 {
            assert(s == lines[0]);
            assert(no_feed(lines[0]));
            if edit_ops::ends_line(s) {
                assert(lines[0][lines[0].len() - 1] == '\n');
            }
        }
    }
    if trailing {
        assert(all.drop_last() == lines);
    }
    assert(edit_ops::eol_of(s) == eol) by {
        lemma_feeds_and_pieces(s);
        if windows {
            assert(all.len() > 1);
            assert forall|i: int| 0 <= i < pieces.len() - 1 implies ends_cr(#[trigger] pieces[i]) by {
                assert(pieces[i].last() == '\r');
            }
            lemma_no_feed_of_kind(s, false);
        } else {
            assert forall|i: int| 0 <= i < pieces.len() - 1 implies !ends_cr(#[trigger] pieces[i]) by {
                assert(pieces[i] == lines[i]);
            }
            lemma_no_feed_of_kind(s, true);
        }
    }
}

/// A text whose pieces but the last all end in a carriage return, or none of them, has no
/// line feed of the other kind.
proof fn lemma_no_feed_of_kind(s: Seq<char>, cr: bool)
    requires
        ({
            let p = text::split(s, '\n');
            forall|i: int| 0 <= i < p.len() - 1 ==> ends_cr(#[trigger] p[i]) != cr
        }),
    ensures
        edit_ops::feeds(s, cr) == 0,
    decreases s.len(),
{
    if s.len() > 0 {
        let t = s.drop_last();
        let before = text::split(t, '\n');
        let p = text::split(s, '\n');
        text::lemma_split_pieces(t, '\n');
        assert forall|i: int| 0 <= i < before.len() - 1 implies ends_cr(#[trigger] before[i]) != cr by {
            assert(before[i] == p[i]);
        }
        lemma_no_feed_of_kind(t, cr);
        if s.last() == '\n' {
            lemma_piece_ends(t);
            assert(p[before.len() - 1] == before.last());
            if t.len() > 0 {
                assert(t.last() == s[s.len() - 2]);
            }
        }
    }
}

// ── comments ────────────────────────────────────────────────────────────────────

/// A prefix that no line can be taken to be indented by.
pub open spec fn is_visible(prefix: Seq<char>) -> bool {
    prefix.len() > 0 ==> !text::is_white(prefix[0])
}

/// A commented line starts with the prefix behind its indentation, and is the line again
/// once it is uncommented.
proof fn lemma_comment_line(line: Seq<char>, prefix: Seq<char>)
    requires
        prefix.len() > 0,
        is_visible(prefix),
    ensures
        edit_ops::uncomment_line(edit_ops::comment_line(line, prefix), prefix) == line,
        edit_ops::is_blank(edit_ops::comment_line(line, prefix)) == edit_ops::is_blank(line),
        !edit_ops::is_blank(line) ==> edit_ops::is_commented(
            edit_ops::comment_line(line, prefix),
            prefix,
        ),
{
    let n = text::lead(line) as int;
    let body = text::trim_start(line);
    let c = edit_ops::comment_line(line, prefix);
    text::lemma_lead(line);
    edit_ops::lemma_blank(line);
    edit_ops::lemma_blank(c);
    if body.len() > 0 {
        law_comment_keeps_indentation(line, prefix);
        let after = text::trim_start(c);
        assert(after.subrange(0, prefix.len() as int) == prefix);
        assert(text::starts_with(after, prefix));
        let rest = after.skip(prefix.len() as int);
        assert(rest == seq![' '] + body);
        assert(rest.skip(1) == body);
        assert(line.take(n) + body == line);
    } else {
        assert(!text::starts_with(body, prefix));
    }
}

/// A line that is commented keeps its indentation, so that nesting stays to be seen; the
/// text behind it follows the prefix and a space.
pub proof fn law_comment_keeps_indentation(line: Seq<char>, prefix: Seq<char>)
    requires
        prefix.len() > 0,
        is_visible(prefix),
        !edit_ops::is_blank(line),
    ensures
        ({
            let c = edit_ops::comment_line(line, prefix);
            let n = text::lead(line) as int;
            &&& text::lead(c) == n
            &&& c.take(n) == line.take(n)
            &&& text::trim_start(c) == prefix + seq![' '] + text::trim_start(line)
        }),
{
    let n = text::lead(line) as int;
    let c = edit_ops::comment_line(line, prefix);
    text::lemma_lead(line);
    edit_ops::lemma_blank(line);
    assert(c[n] == prefix[0]);
    assert forall|i: int| 0 <= i < n implies text::is_white(#[trigger] c[i]) by {
        assert(c[i] == line[i]);
    }
    text::lemma_lead_is(c, n);
    assert(c.take(n) == line.take(n));
    assert(text::trim_start(c) == prefix + seq![' '] + text::trim_start(line));
}

/// Where toggling commented a range, toggling it again uncomments it and gives the lines
/// back.
pub proof fn law_toggle_twice(
    lines: Seq<Seq<char>>,
    start: int,
    end: int,
    prefix: Seq<char>,
)
    requires
        !edit_ops::all_commented(lines, start, end, prefix),
        is_visible(prefix),
    ensures
        ({
            let once = edit_ops::toggled(lines, start, end, prefix);
            &&& edit_ops::all_commented(once, start, end, prefix)
            &&& edit_ops::toggled(once, start, end, prefix) == lines
        }),
{
    let once = edit_ops::toggled(lines, start, end, prefix);
    let k = choose|k: int|
        0 <= k < lines.len() && #[trigger] edit_ops::in_range(k, start, end) && !edit_ops::is_blank(
            lines[k],
        ) && !edit_ops::is_commented(lines[k], prefix);
    if prefix.len() == 0 {
        assert(text::trim_start(lines[k]).subrange(0, 0) == prefix);
        assert(edit_ops::is_commented(lines[k], prefix));
    }
    assert forall|i: int|
        0 <= i < once.len() && #[trigger] edit_ops::in_range(i, start, end) && !edit_ops::is_blank(
            once[i],
        ) implies edit_ops::is_commented(once[i], prefix) by {
        lemma_comment_line(lines[i], prefix);
    }
    assert forall|i: int| 0 <= i < lines.len() implies edit_ops::toggled(
        once,
        start,
        end,
        prefix,
    )[i] == lines[i] by {
        if edit_ops::in_range(i, start, end) {
            lemma_comment_line(lines[i], prefix);
        }
    }
    assert(edit_ops::toggled(once, start, end, prefix) == lines);
}

/// The prefix of every language is one that no line can be taken to be indented by, and
/// it holds no line ending.
pub proof fn law_prefixes_are_visible(ext: Seq<char>)
    ensures
        match edit_ops::prefix_for(ext) {
            Some(p) => p.len() > 0 && is_visible(p) && no_feed(p) && !p.contains('\r'),
            None => true,
        },
{
    reveal_strlit("//");
    reveal_strlit("#");
    reveal_strlit("--");
    reveal_strlit(";");
    reveal_strlit("\"");
    match edit_ops::prefix_for(ext) {
        Some(p) => {
            assert(p.len() > 0);
            assert(p[0] == '/' || p[0] == '#' || p[0] == '-' || p[0] == ';' || p[0] == '"');
            assert forall|i: int| 0 <= i < p.len() implies (#[trigger] p[i]) == p[0] by {}
        },
        None => {},
    }
}

/// The lines of a file of one kind of line ending can be told apart again.
proof fn lemma_uniform_is_clean(content: Seq<char>)
    requires
        is_uniform(content),
    ensures
        is_clean(
            edit_ops::lines_of(content),
            edit_ops::eol_of(content),
            edit_ops::ends_line(content),
        ),
{
    let pieces = text::split(content, '\n');
    let bare = edit_ops::stripped_pieces(content);
    let lines = edit_ops::lines_of(content);
    let trailing = edit_ops::ends_line(content);
    let windows = edit_ops::eol_of(content) == edit_ops::crlf();
    lemma_uniform_pieces(content);
    lemma_piece_ends(content);
    text::lemma_split_pieces(content, '\n');
    assert forall|i: int| 0 <= i < lines.len() implies no_feed(#[trigger] lines[i]) by {
        if lines[i].contains('\n') {
            let k = choose|k: int| 0 <= k < lines[i].len() && lines[i][k] == '\n';
            assert(pieces[i][k] == '\n');
        }
    }
    lemma_endings_differ();
    if !windows {
        assert forall|i: int| 0 <= i < lines.len() implies !ends_cr(#[trigger] lines[i]) by {
            if i < pieces.len() - 1 {
                assert(!ends_cr(pieces[i]));
            }
            assert(lines[i] == pieces[i]);
        }
    } else {
        lemma_feeds_and_pieces(content);
    }
    if trailing {
        if lines == seq![Seq::<char>::empty()] {
            law_split_then_join(content);
            assert(text::join(lines, edit_ops::eol_of(content)) == Seq::<char>::empty());
            assert(content.len() == 0);
        }
    } else {
        assert(lines.last() == pieces.last());
    }
}

/// A commented line holds a line feed only where the line or the prefix does, ends as
/// the line does, and is empty only where the line is.
proof fn lemma_comment_keeps(line: Seq<char>, prefix: Seq<char>)
    requires
        no_feed(prefix),
        no_feed(line),
    ensures
        no_feed(edit_ops::comment_line(line, prefix)),
        ends_cr(edit_ops::comment_line(line, prefix)) == ends_cr(line),
        edit_ops::comment_line(line, prefix).len() == 0 <==> line.len() == 0,
{
    let n = text::lead(line) as int;
    let body = text::trim_start(line);
    let c = edit_ops::comment_line(line, prefix);
    text::lemma_lead(line);
    if body.len() > 0 {
        assert(c.last() == line.last());
        if c.contains('\n') {
            let k = choose|k: int| 0 <= k < c.len() && c[k] == '\n';
            if k < n {
                assert(line[k] == '\n');
            } else if k < n + prefix.len() {
                assert(prefix[k - n] == '\n');
            } else {
                assert(k > n + prefix.len());
                assert(line[k - prefix.len() - 1] == '\n');
            }
        }
    }
}

/// Where toggling commented a range of a file with line endings of one kind, toggling it
/// again gives the file back.
pub proof fn law_toggle_file_twice(
    content: Seq<char>,
    start_line: int,
    end_line: int,
    ext: Seq<char>,
)
    requires
        is_uniform(content),
        edit_ops::prefix_for(ext) is Some,
        !edit_ops::all_commented(
            edit_ops::lines_of(content),
            edit_ops::zero_based(start_line),
            edit_ops::zero_based(end_line),
            edit_ops::prefix_for(ext)->0,
        ),
    ensures
        ({
            let prefix = edit_ops::prefix_for(ext)->0;
            edit_ops::toggled_text(
                edit_ops::toggled_text(content, start_line, end_line, prefix),
                start_line,
                end_line,
                prefix,
            ) == content
        }),
{
    let prefix = edit_ops::prefix_for(ext)->0;
    let start = edit_ops::zero_based(start_line);
    let end = edit_ops::zero_based(end_line);
    let lines = edit_ops::lines_of(content);
    let eol = edit_ops::eol_of(content);
    let trailing = edit_ops::ends_line(content);
    let once = edit_ops::toggled(lines, start, end, prefix);
    law_prefixes_are_visible(ext);
    law_toggle_twice(lines, start, end, prefix);
    law_split_then_join(content);
    lemma_uniform_is_clean(content);
    assert forall|i: int| 0 <= i < lines.len() implies no_feed(#[trigger] once[i]) && ends_cr(
        once[i],
    ) == ends_cr(lines[i]) && (once[i].len() == 0 <==> lines[i].len() == 0) by {
        assert(no_feed(lines[i]));
        lemma_comment_keeps(lines[i], prefix);
    }
    assert(is_clean(once, eol, trailing)) by {
        if eol == seq!['\n'] {
            assert forall|i: int| 0 <= i < once.len() implies !ends_cr(#[trigger] once[i]) by {
                assert(!ends_cr(lines[i]));
            }
        }
        if trailing && once == seq![Seq::<char>::empty()] {
            assert(once[0].len() == 0);
            assert(lines[0] == Seq::<char>::empty());
            assert(lines == seq![Seq::<char>::empty()]);
        }
        assert(once.last() == once[lines.len() - 1]);
        assert(lines.last() == lines[lines.len() - 1]);
    }
    lemma_lines_of_joined(once, eol, trailing);
}

// ── alignment ───────────────────────────────────────────────────────────────────

/// The delimiters of all lines that hold one start at the same column, with spaces alone
/// between them and the text before; the other lines stay as they were.
pub proof fn law_one_column(lines: Seq<Seq<char>>, found: Seq<Option<(int, int)>>, i: int)
    requires
        0 <= i < lines.len(),
    ensures
        ({
            let parts = edit_ops::all_parts(lines, found);
            let column = edit_ops::widest(parts) + 1;
            let after = edit_ops::aligned(lines, found);
            &&& after.len() == lines.len()
            &&& match parts[i] {
                Some(p) => {
                    &&& text::occurs_at(after[i], p.sep, column as int)
                    &&& after[i].take(column as int) == p.left + edit_ops::spaces(
                        (column - p.left.len()) as nat,
                    )
                },
                None => after[i] == lines[i],
            }
        }),
{
    let parts = edit_ops::all_parts(lines, found);
    let w = edit_ops::widest(parts);
    edit_ops::lemma_widest(parts);
    match parts[i] {
        Some(p) => {
            lemma_rebuilt(p, w);
        },
        None => {},
    }
}

/// The characters of a text that are not white space.
pub open spec fn visible(s: Seq<char>) -> Seq<char>
    decreases s.len(),
{
    if s.len() == 0 {
        Seq::empty()
    } else if text::is_white(s.last()) {
        visible(s.drop_last())
    } else {
        visible(s.drop_last()).push(s.last())
    }
}

/// What is visible of two texts in a row is what is visible of the one and then of the
/// other.
proof fn lemma_visible_concat(a: Seq<char>, b: Seq<char>)
    ensures
        visible(a + b) == visible(a) + visible(b),
    decreases b.len(),
{
    if b.len() == 0 {
        assert(a + b == a);
        assert(visible(a) + visible(b) == visible(a));
    } else {
        lemma_visible_concat(a, b.drop_last());
        assert((a + b).drop_last() == a + b.drop_last());
        assert((a + b).last() == b.last());
        if !text::is_white(b.last()) {
            assert((visible(a) + visible(b.drop_last())).push(b.last()) == visible(a) + visible(
                b.drop_last(),
            ).push(b.last()));
        }
    }
}

/// Nothing is visible of white space.
proof fn lemma_white_is_invisible(s: Seq<char>)
    requires
        forall|i: int| 0 <= i < s.len() ==> text::is_white(#[trigger] s[i]),
    ensures
        visible(s) == Seq::<char>::empty(),
    decreases s.len(),
{
    if s.len() > 0 {
        assert(text::is_white(s[s.len() - 1]));
        lemma_white_is_invisible(s.drop_last());
    }
}

/// Trimming takes nothing visible away.
proof fn lemma_trim_keeps_visible(s: Seq<char>)
    ensures
        visible(text::trim_start(s)) == visible(s),
        visible(text::trim_end(s)) == visible(s),
{
    text::lemma_lead(s);
    let lead = s.take(text::lead(s) as int);
    lemma_white_is_invisible(lead);
    lemma_visible_concat(lead, text::trim_start(s));
    assert(lead + text::trim_start(s) == s);
    assert(visible(lead) + visible(text::trim_start(s)) == visible(text::trim_start(s)));
    text::lemma_trail(s);
    let trail = s.skip(s.len() - text::trail(s));
    lemma_white_is_invisible(trail);
    lemma_visible_concat(text::trim_end(s), trail);
    assert(text::trim_end(s) + trail == s);
    assert(visible(text::trim_end(s)) + visible(trail) == visible(text::trim_end(s)));
}

/// A line is made up of what stands before a match, the match, and what stands behind it.
proof fn lemma_slices(line: Seq<char>, start: int, end: int)
    requires
        pattern::is_span(line, start, end),
    ensures
        line == utf8::slice_of(line, 0, start) + utf8::slice_of(line, start, end) + utf8::slice_of(
            line,
            end,
            encode_utf8(line).len() as int,
        ),
{
    let bytes = encode_utf8(line);
    let n = bytes.len() as int;
    encode_utf8_valid_utf8(line);
    encode_utf8_decode_utf8(line);
    utf8::lemma_boundary_in_tail(bytes, start, end);
    decode_utf8_split(bytes, start);
    let tail = bytes.subrange(start, n);
    decode_utf8_split(tail, end - start);
    assert(tail.subrange(0, end - start) == bytes.subrange(start, end));
    assert(tail.subrange(end - start, tail.len() as int) == bytes.subrange(end, n));
    assert(decode_utf8(bytes.subrange(0, start)) + (decode_utf8(bytes.subrange(start, end))
        + decode_utf8(bytes.subrange(end, n))) == decode_utf8(bytes.subrange(0, start))
        + decode_utf8(bytes.subrange(start, end)) + decode_utf8(bytes.subrange(end, n)));
}

/// Alignment adds and drops white space alone: what is visible of a line stays as it was,
/// in its order.
pub proof fn law_align_moves_space_only(
    lines: Seq<Seq<char>>,
    found: Seq<Option<(int, int)>>,
    i: int,
)
    requires
        edit_ops::are_spans(lines, found),
        0 <= i < lines.len(),
    ensures
        visible(edit_ops::aligned(lines, found)[i]) == visible(lines[i]),
{
    let parts = edit_ops::all_parts(lines, found);
    let w = edit_ops::widest(parts);
    let line = lines[i];
    match (parts[i], found[i]) {
        (Some(p), Some((start, end))) => {
            let bytes = encode_utf8(line).len() as int;
            let left = utf8::slice_of(line, 0, start);
            let rest = utf8::slice_of(line, end, bytes);
            lemma_slices(line, start, end);
            lemma_trim_keeps_visible(left);
            lemma_trim_keeps_visible(rest);
            lemma_visible_concat(left, p.sep);
            lemma_visible_concat(left + p.sep, rest);
            let gap = edit_ops::spaces((w - p.left.len()) as nat);
            lemma_white_is_invisible(gap);
            lemma_white_is_invisible(seq![' ']);
            lemma_visible_concat(p.left, gap);
            lemma_visible_concat(p.left + gap, seq![' ']);
            lemma_visible_concat(p.left + gap + seq![' '], p.sep);
            let head = p.left + gap + seq![' '] + p.sep;
            lemma_visible_concat(head, seq![' ']);
            lemma_visible_concat(head + seq![' '], p.rest);
            assert(visible(p.left + gap + seq![' ']) == visible(p.left));
            assert(visible(head) == visible(left) + visible(p.sep));
            assert(visible(head + seq![' ']) == visible(head));
            if p.rest.len() == 0 {
                assert(visible(rest) == Seq::<char>::empty());
                assert(visible(line) == visible(head));
            }
        },
        _ => {},
    }
}

/// Where the parts of a rebuilt line stand.
proof fn lemma_rebuilt(p: edit_ops::Parts, w: nat)
    requires
        p.left.len() <= w,
    ensures
        ({
            let line = edit_ops::rebuilt(p, w);
            &&& line.len() >= w as int + 1 + p.sep.len()
            &&& text::occurs_at(line, p.sep, w as int + 1)
            &&& line.take(w as int + 1) == p.left + edit_ops::spaces((w as int + 1 - p.left.len()) as nat)
            &&& line.skip(w as int + 1 + p.sep.len()) == (if p.rest.len() == 0 {
                Seq::empty()
            } else {
                seq![' '] + p.rest
            })
        }),
{
    let line = edit_ops::rebuilt(p, w);
    let n = (w - p.left.len()) as nat;
    assert(p.left + edit_ops::spaces(n) + seq![' '] == p.left + edit_ops::spaces(n + 1));
    let head = p.left + edit_ops::spaces(n) + seq![' '];
    assert(head.len() == w as int + 1);
    assert(line.subrange(w as int + 1, w as int + 1 + p.sep.len()) == p.sep);
    assert(line.take(w as int + 1) == head);
    assert(line.skip(w as int + 1 + p.sep.len()) == (if p.rest.len() == 0 {
        Seq::empty()
    } else {
        seq![' '] + p.rest
    }));
}

/// The parts of a line around the first occurrence of a literal delimiter.
pub open spec fn literal_parts(line: Seq<char>, sep: Seq<char>) -> Option<edit_ops::Parts> {
    match text::find(line, sep) {
        Some(i) => Some(
            edit_ops::Parts {
                left: text::trim_end(line.take(i)),
                sep,
                rest: text::trim_start(line.skip(i + sep.len())),
            },
        ),
        None => None,
    }
}

/// A literal delimiter parts a line at its first occurrence, and a line without it stays
/// whole.
pub proof fn law_literal_delimiter(line: Seq<char>, sep: Seq<char>)
    requires
        sep.len() > 0,
    ensures
        edit_ops::parts_of(line, pattern::literal_match(sep, line)) == literal_parts(line, sep),
{
    text::lemma_find(line, sep);
    match text::find(line, sep) {
        Some(i) => {
            let j = i + sep.len();
            utf8::lemma_slice(line, 0, i);
            utf8::lemma_slice(line, i, j);
            utf8::lemma_slice(line, j, line.len() as int);
            assert(line.take(0) == Seq::<char>::empty());
            assert(encode_utf8(line.take(0)).len() == 0);
            assert(line.take(line.len() as int) == line);
            assert(line.subrange(0, i) == line.take(i));
            assert(line.subrange(j, line.len() as int) == line.skip(j));
            assert(line.subrange(i, j) == sep);
            // The delimiter is not empty, so neither are its bytes.
            utf8::lemma_encode_concat(line.take(i), sep);
            assert(line.take(j) == line.take(i) + sep);
            assert(encode_utf8(sep).len() > 0);
        },
        None => {},
    }
}

/// A delimiter without white space.
pub open spec fn is_solid(sep: Seq<char>) -> bool {
    sep.len() > 0 && forall|i: int| 0 <= i < sep.len() ==> !text::is_white(#[trigger] sep[i])
}

/// A rebuilt line has the same parts as the line it was made of.
proof fn lemma_parts_stay(line: Seq<char>, sep: Seq<char>, w: nat)
    requires
        is_solid(sep),
        literal_parts(line, sep) is Some,
        literal_parts(line, sep)->0.left.len() <= w,
    ensures
        literal_parts(edit_ops::rebuilt(literal_parts(line, sep)->0, w), sep) == literal_parts(
            line,
            sep,
        ),
{
    let p = literal_parts(line, sep)->0;
    let k = text::find(line, sep)->0;
    let out = edit_ops::rebuilt(p, w);
    let n = p.left.len();
    let m = sep.len();
    text::lemma_find(line, sep);
    lemma_rebuilt(p, w);
    text::lemma_trail(line.take(k));
    assert(n <= k);
    assert(p.left == line.take(n as int));
    assert forall|j: int| 0 <= j < w as int + 1 implies !text::occurs_at(out, sep, j) by {
        if text::occurs_at(out, sep, j) {
            let window = out.subrange(j, j + m);
            assert(forall|q: int| n <= q < w as int + 1 ==> #[trigger] out[q] == ' ') by {
                assert forall|q: int| n <= q < w as int + 1 implies #[trigger] out[q] == ' ' by {
                    assert(out.take(w as int + 1)[q] == ' ');
                }
            }
            if j + m <= n {
                assert(line.subrange(j, j + m) == window) by {
                    assert forall|q: int| 0 <= q < m implies line.subrange(j, j + m)[q]
                        == window[q] by {
                        assert(out.take(w as int + 1)[j + q] == p.left[j + q]);
                    }
                }
                assert(text::occurs_at(line, sep, j));
            } else {
                let q = if j >= n {
                    j
                } else {
                    n as int
                };
                assert(out[q] == ' ');
                assert(window[q - j] == ' ');
                assert(text::is_white(sep[q - j]));
            }
        }
    }
    text::lemma_find_is(out, sep, w as int + 1);
    // What stands before the delimiter is the same text and spaces behind it.
    let before = out.take(w as int + 1);
    assert(text::trim_end(before) == p.left) by {
        let count = w as int + 1 - n;
        assert forall|i: int| before.len() - count <= i < before.len() implies text::is_white(
            #[trigger] before[i],
        ) by {
            assert(before[i] == ' ');
        }
        if n > 0 {
            assert(before[n - 1] == p.left[n - 1]);
            assert(p.left[n - 1] == line.take(k)[n - 1]);
        }
        text::lemma_trail_is(before, count);
        assert(before.take(n as int) == p.left);
    }
    // What stands behind it is the same text, and a space before it.
    let tail = line.skip(k + m);
    let after = out.skip(w as int + 1 + m);
    assert(text::trim_start(after) == p.rest) by {
        text::lemma_lead(tail);
        if p.rest.len() == 0 {
            assert(after == Seq::<char>::empty());
            assert(p.rest == Seq::<char>::empty());
            text::lemma_lead_is(after, 0);
        } else {
            assert(p.rest[0] == tail[text::lead(tail) as int]);
            assert(after[1] == p.rest[0]);
            text::lemma_lead_is(after, 1);
            assert(after.skip(1) == p.rest);
        }
    }
}

/// The places of a literal delimiter.
pub open spec fn literal_matches(lines: Seq<Seq<char>>, sep: Seq<char>) -> Seq<
    Option<(int, int)>,
> {
    edit_ops::delimiter_matches(lines, sep, false)
}

/// Aligning lines that are aligned on a literal delimiter without white space changes
/// nothing.
pub proof fn law_align_twice(lines: Seq<Seq<char>>, sep: Seq<char>)
    requires
        is_solid(sep),
    ensures
        ({
            let once = edit_ops::aligned(lines, literal_matches(lines, sep));
            edit_ops::aligned(once, literal_matches(once, sep)) == once
        }),
{
    let found = literal_matches(lines, sep);
    let parts = edit_ops::all_parts(lines, found);
    let w = edit_ops::widest(parts);
    let once = edit_ops::aligned(lines, found);
    let again = edit_ops::all_parts(once, literal_matches(once, sep));
    edit_ops::lemma_widest(parts);
    assert forall|i: int| 0 <= i < lines.len() implies parts[i] == again[i] by {
        law_literal_delimiter(lines[i], sep);
        law_literal_delimiter(once[i], sep);
        assert(parts[i] == literal_parts(lines[i], sep));
        if parts[i] is Some {
            lemma_parts_stay(lines[i], sep, w);
        }
    }
    assert(parts == again);
    let twice = edit_ops::aligned(once, literal_matches(once, sep));
    assert forall|i: int| 0 <= i < lines.len() implies twice[i] == once[i] by {}
    assert(twice == once);
}

/// An aligned line holds no line feed that the line does not.
proof fn lemma_align_keeps(line: Seq<char>, sep: Seq<char>, w: nat)
    requires
        is_solid(sep),
        literal_parts(line, sep) is Some,
        no_feed(line),
    ensures
        ({
            let out = edit_ops::rebuilt(literal_parts(line, sep)->0, w);
            no_feed(out)
        }),
{
    let p = literal_parts(line, sep)->0;
    let k = text::find(line, sep)->0;
    let out = edit_ops::rebuilt(p, w);
    text::lemma_find(line, sep);
    text::lemma_trail(line.take(k));
    let tail = line.skip(k + sep.len());
    text::lemma_lead(tail);
    let n = p.left.len() as int;
    assert(sep == line.subrange(k, k + sep.len()));
    if out.contains('\n') {
        let q = choose|q: int| 0 <= q < out.len() && out[q] == '\n';
        let gap = edit_ops::spaces((w - p.left.len()) as nat);
        if q < n {
            assert(out[q] == p.left[q]);
            assert(line[q] == '\n');
        } else if q < n + gap.len() + 1 {
            assert(out[q] == ' ');
        } else if q < n + gap.len() + 1 + sep.len() {
            assert(out[q] == sep[q - n - gap.len() - 1]);
            assert(line[k + (q - n - gap.len() - 1)] == '\n');
        } else if q == n + gap.len() + 1 + sep.len() {
            assert(out[q] == ' ');
        } else {
            let r = q - n - gap.len() - 2 - sep.len();
            assert(out[q] == p.rest[r]);
            assert(p.rest[r] == tail[text::lead(tail) + r]);
            assert(line[k + sep.len() + text::lead(tail) + r] == '\n');
        }
    }
}

/// Lines that a text keeps once they are joined to it: no carriage return at the end of a
/// line is taken for a part of a line ending, and the text is not a lone line ending.
pub open spec fn stay_lines(lines: Seq<Seq<char>>, eol: Seq<char>, trailing: bool) -> bool {
    &&& eol == seq!['\n'] ==> forall|i: int| 0 <= i < lines.len() ==> !ends_cr(#[trigger] lines[i])
    &&& !trailing ==> !ends_cr(lines.last())
    &&& !trailing ==> lines != seq![Seq::<char>::empty(), Seq::empty()]
}

/// Aligned lines stay aligned without an empty one at their end.
proof fn lemma_align_without_last(lines: Seq<Seq<char>>, sep: Seq<char>)
    requires
        is_solid(sep),
        lines.len() > 0,
        lines.last().len() == 0,
        edit_ops::aligned(lines, literal_matches(lines, sep)) == lines,
    ensures
        edit_ops::aligned(lines.drop_last(), literal_matches(lines.drop_last(), sep))
            == lines.drop_last(),
{
    let t = lines.drop_last();
    let parts = edit_ops::all_parts(lines, literal_matches(lines, sep));
    let fewer = edit_ops::all_parts(t, literal_matches(t, sep));
    law_literal_delimiter(lines.last(), sep);
    text::lemma_find(lines.last(), sep);
    assert(parts.last() is None);
    assert(parts.drop_last() =~= fewer);
    let after = edit_ops::aligned(t, literal_matches(t, sep));
    assert forall|i: int| 0 <= i < t.len() implies after[i] == t[i] by {
        assert(edit_ops::aligned(lines, literal_matches(lines, sep))[i] == lines[i]);
        assert(parts[i] == fewer[i]);
    }
    assert(after =~= t);
}

/// A file that has been aligned on a literal delimiter without white space is not changed
/// by aligning it again. Its line endings may be mixed: the first time makes them alike.
pub proof fn law_align_file_twice(content: Seq<char>, sep: Seq<char>)
    requires
        is_solid(sep),
        ({
            let lines = edit_ops::lines_of(content);
            stay_lines(
                edit_ops::aligned(lines, literal_matches(lines, sep)),
                edit_ops::eol_of(content),
                edit_ops::ends_line(content),
            )
        }),
    ensures
        edit_ops::aligned_text(edit_ops::aligned_text(content, sep, false), sep, false)
            == edit_ops::aligned_text(content, sep, false),
{
    let pieces = text::split(content, '\n');
    let lines = edit_ops::lines_of(content);
    let eol = edit_ops::eol_of(content);
    let trailing = edit_ops::ends_line(content);
    let found = literal_matches(lines, sep);
    let parts = edit_ops::all_parts(lines, found);
    let once = edit_ops::aligned(lines, found);
    let after = edit_ops::aligned_text(content, sep, false);
    law_align_twice(lines, sep);
    lemma_piece_ends(content);
    lemma_feeds_and_pieces(content);
    text::lemma_split_pieces(content, '\n');
    assert forall|i: int| 0 <= i < lines.len() implies no_feed(#[trigger] once[i]) by {
        assert(no_feed(lines[i])) by {
            if lines[i].contains('\n') {
                let k = choose|k: int| 0 <= k < lines[i].len() && lines[i][k] == '\n';
                assert(pieces[i][k] == '\n');
            }
        }
        law_literal_delimiter(lines[i], sep);
        assert(parts[i] == literal_parts(lines[i], sep));
        if parts[i] is Some {
            lemma_align_keeps(lines[i], sep, edit_ops::widest(parts));
        }
    }
    if trailing && once == seq![Seq::<char>::empty()] {
        // Nothing but a line ending: nothing is left of it.
        assert(after == Seq::<char>::empty());
        assert(text::split(after, '\n') == seq![Seq::<char>::empty()]);
        assert(edit_ops::lines_of(after) =~= once);
    } else if !trailing && once.len() > 1 && once.last().len() == 0 {
        // The last line came to nothing: the text now ends in a line ending.
        let t = once.drop_last();
        assert(once.last() == Seq::<char>::empty());
        assert(once == t.push(Seq::empty()));
        lemma_join_trailing(t, eol);
        if text::join(t, eol).len() == 0 {
            lemma_join_empty(t, eol);
            assert(once =~= seq![Seq::<char>::empty(), Seq::empty()]);
        }
        assert(after == edit_ops::joined(t, eol, true));
        assert(is_clean(t, eol, true)) by {
            assert forall|i: int| 0 <= i < t.len() implies no_feed(#[trigger] t[i]) by {
                assert(t[i] == once[i]);
            }
        }
        lemma_lines_of_joined(t, eol, true);
        lemma_align_without_last(once, sep);
    } else {
        assert(is_clean(once, eol, trailing));
        lemma_lines_of_joined(once, eol, trailing);
    }
}

} // verus!
