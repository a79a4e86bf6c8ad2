//! What holds of the git commands and of the log that git writes.

use crate::civil;
use crate::git_more;
use crate::text;
use vstd::prelude::*;

verus! {

// ── commands ────────────────────────────────────────────────────────────────────

/// Git cannot take either revision of a difference for an option, and a path can only
/// stand behind the mark that ends the options.
pub proof fn law_revisions_are_no_options(
    rev_a: Seq<char>,
    rev_b: Seq<char>,
    path: Option<Seq<char>>,
)
    requires
        git_more::is_rev(rev_a),
        git_more::is_rev(rev_b),
    ensures
        ({
            let args = git_more::diff_command(rev_a, rev_b, path);
            &&& args[1] == rev_a && !text::starts_with(args[1], seq!['-'])
            &&& args[2] == rev_b && !text::starts_with(args[2], seq!['-'])
            &&& args.len() == 3 || (args.len() == 5 && args[3] == "--"@ && Some(args[4]) == path)
        }),
{
    if text::starts_with(rev_a, seq!['-']) {
        assert(rev_a.subrange(0, 1)[0] == '-');
    }
    if text::starts_with(rev_b, seq!['-']) {
        assert(rev_b.subrange(0, 1)[0] == '-');
    }
}

/// Git cannot take a commit's hash for an option.
pub proof fn law_hash_is_no_option(hash: Seq<char>)
    requires
        git_more::is_hash(hash),
    ensures
        !text::starts_with(git_more::show_command(hash)[1], seq!['-']),
{
    if text::starts_with(hash, seq!['-']) {
        assert(hash.subrange(0, 1)[0] == '-');
        assert(git_more::is_hex(hash[0]));
    }
}

/// A git command that only reads.
pub open spec fn only_reads(args: Seq<Seq<char>>) -> bool {
    args.len() > 0 && (args[0] == "log"@ || args[0] == "show"@ || args[0] == "diff"@)
}

/// Every command reads the repository and changes nothing.
pub proof fn law_commands_only_read(
    limit: Option<usize>,
    hash: Seq<char>,
    rev_a: Seq<char>,
    rev_b: Seq<char>,
    path: Option<Seq<char>>,
)
    ensures
        only_reads(git_more::log_command(limit)),
        only_reads(git_more::show_command(hash)),
        only_reads(git_more::diff_command(rev_a, rev_b, path)),
        only_reads(git_more::graph_command(limit)),
{
}

// ── the log ─────────────────────────────────────────────────────────────────────

/// What git tells of a commit.
pub struct LogRecord {
    pub hash: Seq<char>,
    pub author: Seq<char>,
    pub time: int,
    pub subject: Seq<char>,
    pub refs: Seq<char>,
}

/// A number in decimal, with a sign where it is negative.
pub open spec fn signed_decimal(n: int) -> Seq<char> {
    if n < 0 {
        seq!['-'] + text::decimal((-n) as nat)
    } else {
        text::decimal(n as nat)
    }
}

/// The fields that git writes of a commit.
pub open spec fn record_fields(r: LogRecord) -> Seq<Seq<char>> {
    seq![r.hash, r.author, signed_decimal(r.time), r.subject, r.refs]
}

/// The line that git writes of a commit.
pub open spec fn record_line(r: LogRecord) -> Seq<char> {
    text::join(record_fields(r), seq!['\u{1f}'])
}

/// A field that stands on one line and does not end its field.
pub open spec fn is_field(s: Seq<char>) -> bool {
    !s.contains('\u{1f}') && !s.contains('\n')
}

/// A commit that git's log can tell of: its fields stand on one line.
pub open spec fn is_record(r: LogRecord) -> bool {
    &&& is_field(r.hash)
    &&& is_field(r.author)
    &&& is_field(r.subject)
    &&& is_field(r.refs)
    &&& i64::MIN <= r.time <= i64::MAX
}

/// The commit that a record tells of.
pub open spec fn record_commit(r: LogRecord) -> git_more::CommitText {
    git_more::CommitText {
        hash: r.hash,
        short: text::first_chars(r.hash, 8),
        author: r.author,
        date: civil::date_text(civil::date_of(civil::day_of(r.time))),
        subject: r.subject,
        refs: text::trim(r.refs),
    }
}

/// The log of some commits: a line for each.
pub open spec fn log_text(lines: Seq<Seq<char>>) -> Seq<char> {
    if lines.len() == 0 {
        Seq::empty()
    } else {
        text::join(lines, seq!['\n']) + seq!['\n']
    }
}

/// A number that is written is read back, and there is nothing to trim from it.
proof fn lemma_signed_decimal(n: int)
    requires
        i64::MIN <= n <= i64::MAX,
    ensures
        is_field(signed_decimal(n)),
        git_more::time_of(signed_decimal(n)) == n,
{
    let m = if n < 0 {
        -n
    } else {
        n
    };
    let d = text::decimal(m as nat);
    let s = signed_decimal(n);
    text::lemma_decimal(m as nat);
    assert(text::is_digit(d[0]));
    assert(text::is_digit(d[d.len() - 1]));
    assert forall|i: int| 0 <= i < s.len() implies s[i] == '-' || text::is_digit(#[trigger] s[i]) by {
        if n < 0 {
            if i > 0 {
                assert(s[i] == d[i - 1]);
            }
        }
    }
    assert(text::trim(s) == s) by {
        text::lemma_lead_is(s, 0);
        assert(s.skip(0) == s);
        assert(s[s.len() - 1] == '-' || text::is_digit(s[s.len() - 1]));
        text::lemma_trail_is(s, 0);
        assert(s.take(s.len() as int) == s);
    }
    if n < 0 {
        assert(s[0] == '-');
        assert(s.skip(1) == d);
    } else {
        assert(text::is_digit(s[0]));
    }
}

/// The line of a commit is read back as that commit.
pub proof fn law_line_read_back(r: LogRecord)
    requires
        is_record(r),
    ensures
        git_more::commit_of(record_line(r)) == Some(record_commit(r)),
{
    let fields = record_fields(r);
    lemma_signed_decimal(r.time);
    text::lemma_split_join(fields, '\u{1f}');
    assert(git_more::commit_of(record_line(r))->0 =~= record_commit(r));
}

/// Joining pieces without a character, with a separator without it, gives a text
/// without it.
proof fn lemma_join_lacks(pieces: Seq<Seq<char>>, sep: Seq<char>, c: char)
    requires
        !sep.contains(c),
        forall|i: int| 0 <= i < pieces.len() ==> !(#[trigger] pieces[i]).contains(c),
    ensures
        !text::join(pieces, sep).contains(c),
    decreases pieces.len(),
{
    if pieces.len() == 1 {
        assert(!pieces[0].contains(c));
    } else if pieces.len() > 1 {
        let t = pieces.drop_last();
        assert forall|i: int| 0 <= i < t.len() implies !(#[trigger] t[i]).contains(c) by {
            assert(t[i] == pieces[i]);
        }
        lemma_join_lacks(t, sep, c);
        assert(!pieces[pieces.len() - 1].contains(c));
        let a = text::join(t, sep);
        let s = a + sep + pieces.last();
        if s.contains(c) {
            let k = choose|k: int| 0 <= k < s.len() && s[k] == c;
            if k < a.len() {
                assert(a[k] == c);
            } else if k < a.len() + sep.len() {
                assert(sep[k - a.len()] == c);
            } else {
                assert(pieces.last()[k - a.len() - sep.len()] == c);
            }
        }
    }
}

/// The line of a commit holds no line feed and is not empty; without a carriage return at
/// its end it is the line of the commit whose references lack one at their end.
proof fn lemma_record_line(r: LogRecord)
    requires
        is_record(r),
    ensures
        !record_line(r).contains('\n'),
        record_line(r).len() > 0,
        text::strip_cr(record_line(r)) == record_line(without_last_cr(r)),
        is_record(without_last_cr(r)),
        record_commit(without_last_cr(r)) == record_commit(r),
{
    let fields = record_fields(r);
    let sep = seq!['\u{1f}'];
    let bare = without_last_cr(r);
    lemma_signed_decimal(r.time);
    assert(!sep.contains('\n'));
    lemma_join_lacks(fields, sep, '\n');
    let head = text::join(fields.drop_last(), sep);
    assert(record_line(r) == head + sep + r.refs);
    assert(record_fields(bare).drop_last() == fields.drop_last());
    assert(record_line(bare) == head + sep + bare.refs);
    assert forall|c: char| r.refs.contains(c) || !#[trigger] bare.refs.contains(c) by {
        if bare.refs.contains(c) {
            let k = choose|k: int| 0 <= k < bare.refs.len() && bare.refs[k] == c;
            assert(r.refs[k] == c);
        }
    }
    if r.refs.len() == 0 {
        assert(record_line(r).last() == '\u{1f}');
    } else {
        assert(record_line(r).last() == r.refs.last());
        if r.refs.last() == '\r' {
            assert(record_line(r).drop_last() == head + sep + bare.refs);
            lemma_trim_cr(r.refs);
        }
    }
}

/// A commit whose references lack a carriage return at their end.
spec fn without_last_cr(r: LogRecord) -> LogRecord {
    LogRecord { refs: text::strip_cr(r.refs), ..r }
}

/// Trimming takes a carriage return at the end away.
proof fn lemma_trim_cr(s: Seq<char>)
    requires
        s.len() > 0,
        s.last() == '\r',
    ensures
        text::trim(s.drop_last()) == text::trim(s),
{
    let t = s.drop_last();
    text::lemma_lead(t);
    assert(forall|i: int| 0 <= i < t.len() ==> #[trigger] s[i] == t[i]);
    if text::lead(t) == t.len() {
        text::lemma_lead_is(s, s.len() as int);
        assert(text::trim_start(s) =~= Seq::empty());
        assert(text::trim_start(t) =~= Seq::empty());
    } else {
        text::lemma_lead_is(s, text::lead(t) as int);
        let u = text::trim_start(s);
        assert(text::trim_start(t) == u.drop_last());
        assert(u.last() == '\r');
        assert(text::trim_end(u) =~= text::trim_end(u.drop_last())) by {
            text::lemma_trail(u.drop_last());
        }
    }
}

/// The lines of a log are read back.
proof fn lemma_log_lines(lines: Seq<Seq<char>>)
    requires
        forall|i: int|
            0 <= i < lines.len() ==> !(#[trigger] lines[i]).contains('\n') && lines[i].len() > 0,
    ensures
        git_more::log_lines(log_text(lines)) == lines.map_values(
            |l: Seq<char>| text::strip_cr(l),
        ),
{
    let s = log_text(lines);
    let pieces = text::split(s, '\n');
    if lines.len() == 0 {
        assert(pieces == seq![Seq::<char>::empty()]);
        assert(git_more::log_lines(s) =~= lines.map_values(|l: Seq<char>| text::strip_cr(l)));
    } else {
        let body = text::join(lines, seq!['\n']);
        text::lemma_split_join(lines, '\n');
        text::lemma_split_append(body, Seq::empty(), '\n');
        assert(s + Seq::<char>::empty() == s);
        assert(pieces == lines.push(Seq::empty()));
        assert(pieces.drop_last() == lines);
        assert(git_more::log_lines(s) =~= lines.map_values(|l: Seq<char>| text::strip_cr(l)));
    }
}

/// The commits of lines that each hold one.
proof fn lemma_commits(records: Seq<LogRecord>)
    requires
        forall|i: int| 0 <= i < records.len() ==> is_record(#[trigger] records[i]),
    ensures
        git_more::commits_of(records.map_values(|r: LogRecord| record_line(r)))
            == records.map_values(|r: LogRecord| record_commit(r)),
    decreases records.len(),
{
    let lines = records.map_values(|r: LogRecord| record_line(r));
    let commits = records.map_values(|r: LogRecord| record_commit(r));
    if records.len() == 0 {
        assert(commits =~= Seq::empty());
    } else {
        let t = records.drop_last();
        assert forall|i: int| 0 <= i < t.len() implies is_record(#[trigger] t[i]) by {
            assert(t[i] == records[i]);
        }
        lemma_commits(t);
        assert(lines.drop_last() =~= t.map_values(|r: LogRecord| record_line(r)));
        assert(is_record(records[records.len() - 1]));
        law_line_read_back(records.last());
        assert(commits =~= t.map_values(|r: LogRecord| record_commit(r)).push(
            record_commit(records.last()),
        ));
    }
}

/// The commits that git's log lists are read back, all of them and in order.
pub proof fn law_log_read_back(records: Seq<LogRecord>)
    requires
        forall|i: int| 0 <= i < records.len() ==> is_record(#[trigger] records[i]),
    ensures
        git_more::commits_of(
            git_more::log_lines(
                log_text(records.map_values(|r: LogRecord| record_line(r))),
            ),
        ) == records.map_values(|r: LogRecord| record_commit(r)),
{
    let lines = records.map_values(|r: LogRecord| record_line(r));
    let bare = records.map_values(|r: LogRecord| without_last_cr(r));
    assert forall|i: int| 0 <= i < lines.len() implies !(#[trigger] lines[i]).contains('\n')
        && lines[i].len() > 0 by {
        lemma_record_line(records[i]);
    }
    assert forall|i: int| 0 <= i < records.len() implies is_record(#[trigger] bare[i])
        && record_line(bare[i]) == text::strip_cr(lines[i]) && record_commit(bare[i])
        == record_commit(records[i]) by {
        lemma_record_line(records[i]);
    }
    lemma_log_lines(lines);
    lemma_commits(bare);
    assert(lines.map_values(|l: Seq<char>| text::strip_cr(l)) =~= bare.map_values(
        |r: LogRecord| record_line(r),
    ));
    assert(bare.map_values(|r: LogRecord| record_commit(r)) =~= records.map_values(
        |r: LogRecord| record_commit(r),
    ));
}

} // verus!
