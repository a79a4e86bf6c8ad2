//! What git is asked, and what is read of its answers, text by text.

use crate::civil;
use crate::edit_line_laws;
use crate::git_more;
use crate::git_more::GitRun;
use crate::picks;
use crate::text;
use crate::text_laws;
use crate::utf8;
use vstd::prelude::*;

verus! {

// ── revisions ───────────────────────────────────────────────────────────────────

/// A character that can stand in a revision.
pub open spec fn is_rev_char(c: char) -> bool {
    !text::is_white(c) && !text::is_ctrl(c)
}

/// A revision is made up of characters that are neither white space nor control characters:
/// at least one, and the first is no hyphen.
pub proof fn law_rev(rev: Seq<char>, c: char)
    ensures
        !git_more::is_rev(Seq::empty()),
        git_more::is_rev(seq![c]) <==> is_rev_char(c) && c != '-',
        rev.len() > 0 ==> (git_more::is_rev(rev.push(c)) <==> git_more::is_rev(rev)
            && is_rev_char(c)),
{
    assert(seq![c][0] == c);
    let t = rev.push(c);
    if rev.len() > 0 && git_more::is_rev(t) {
        assert(!text::is_white(t[t.len() - 1]));
        assert forall|i: int| 0 <= i < rev.len() implies !text::is_white(#[trigger] rev[i])
            && !text::is_ctrl(rev[i]) by {
            assert(t[i] == rev[i]);
        }
    }
}

/// A digit of a hexadecimal number, by the number of its character.
pub open spec fn is_hex_number(v: int) -> bool {
    48 <= v <= 57 || 65 <= v <= 70 || 97 <= v <= 102
}

/// Every character is a hexadecimal digit.
pub open spec fn all_hex(s: Seq<char>) -> bool {
    forall|i: int| 0 <= i < s.len() ==> is_hex_number(#[trigger] s[i] as u32 as int)
}

/// The digits of hexadecimal numbers are ten figures and six letters in either case.
proof fn lemma_hex(c: char)
    ensures
        git_more::is_hex(c) <==> is_hex_number(c as u32 as int),
{
}

/// A hash is made up of hexadecimal digits, at least four of them.
pub proof fn law_hash(hash: Seq<char>)
    ensures
        git_more::is_hash(hash) <==> hash.len() >= 4 && all_hex(hash),
{
    if git_more::is_hash(hash) {
        assert forall|i: int| 0 <= i < hash.len() implies is_hex_number(
            #[trigger] hash[i] as u32 as int,
        ) by {
            lemma_hex(hash[i]);
        }
    }
    if all_hex(hash) {
        assert forall|i: int| 0 <= i < hash.len() implies git_more::is_hex(#[trigger] hash[i]) by {
            lemma_hex(hash[i]);
        }
    }
}

// ── commands ────────────────────────────────────────────────────────────────────

/// A command runs in a directory: that is said first, and then the command as it is.
pub proof fn law_in_directory(dir: Seq<char>, args: Seq<Seq<char>>)
    ensures
        ({
            let all = git_more::in_directory(dir, args);
            &&& all.len() == args.len() + 2
            &&& all[0] == "-C"@
            &&& all[1] == dir
            &&& all.skip(2) == args
        }),
{
    assert(git_more::in_directory(dir, args).skip(2) =~= args);
}

/// How many commits are asked for: three hundred where the request does not say, and never
/// more than five thousand.
pub open spec fn is_commit_count(limit: Option<usize>, n: int) -> bool {
    match limit {
        None => n == 300,
        Some(asked) => n <= asked && n <= 5000 && (n == asked || n == 5000),
    }
}

/// The log and the graph are asked for as many commits as the request can get.
pub proof fn law_limit(limit: Option<usize>) -> (digits: Seq<char>)
    ensures
        git_more::limit_option(limit) == "-n"@ + digits,
        text::is_number(digits),
        digits[0] == '0' ==> digits.len() == 1,
        is_commit_count(limit, text::number(digits) as int),
{
    let n = git_more::commit_limit(limit);
    text_laws::law_decimal(n);
    text::decimal(n)
}

/// The log is asked for with its limit and its format, and with nothing else.
pub proof fn law_log_command(limit: Option<usize>)
    ensures
        ({
            let args = git_more::log_command(limit);
            &&& args.len() == 3
            &&& args[0] == "log"@
            &&& args[1] == git_more::limit_option(limit)
            &&& args[2] == "--format=%H\x1f%an\x1f%at\x1f%s\x1f%D"@
        }),
{
}

/// A commit is shown by its hash alone.
pub proof fn law_show_command(hash: Seq<char>)
    ensures
        git_more::show_command(hash).len() == 2,
        git_more::show_command(hash)[0] == "show"@,
        git_more::show_command(hash)[1] == hash,
{
}

/// A difference is asked for between two revisions, the first one first; a path that is
/// more than white space stands as it is behind the mark that ends the options.
pub proof fn law_diff_command(rev_a: Seq<char>, rev_b: Seq<char>, path: Option<Seq<char>>)
    ensures
        ({
            let args = git_more::diff_command(rev_a, rev_b, path);
            let scoped = path is Some && !text_laws::all_white(path->0);
            &&& args.len() == (if scoped {
                5int
            } else {
                3
            })
            &&& args[0] == "diff"@
            &&& args[1] == rev_a
            &&& args[2] == rev_b
            &&& scoped ==> args[3] == "--"@ && args[4] == path->0
        }),
{
    if path is Some {
        let p = path->0;
        let none = Seq::<char>::empty();
        if text_laws::all_white(p) {
            text_laws::law_trim(p, none, none);
            assert(p + none + none =~= p);
        } else {
            let (a, b) = text_laws::lemma_trimmed_parts(p);
            if text::trim(p).len() == 0 {
                assert forall|i: int| 0 <= i < p.len() implies text::is_white(#[trigger] p[i]) by {
                    if i < a.len() {
                        assert(p[i] == a[i]);
                    } else {
                        assert(p[i] == b[i - a.len()]);
                    }
                }
            }
        }
    }
}

/// The graph is asked for of all branches, with its limit.
pub proof fn law_graph_command(limit: Option<usize>)
    ensures
        ({
            let args = git_more::graph_command(limit);
            &&& args.len() == 7
            &&& args[0] == "log"@
            &&& args[1] == git_more::limit_option(limit)
            &&& args.skip(2) == seq![
                "--graph"@,
                "--oneline"@,
                "--decorate"@,
                "--all"@,
                "--date-order"@,
            ]
        }),
{
    assert(git_more::graph_command(limit).skip(2) =~= seq![
        "--graph"@,
        "--oneline"@,
        "--decorate"@,
        "--all"@,
        "--date-order"@,
    ]);
}

/// A run gives what git wrote where it succeeded, what it complained of where not, and why
/// it could not run where it did not.
pub proof fn law_run(run: Result<GitRun, String>)
    ensures
        run is Ok && run->Ok_0.success ==> git_more::run_outcome(run) == Ok::<
            Seq<char>,
            Seq<char>,
        >(utf8::lossy(run->Ok_0.stdout@)),
        run is Ok && !run->Ok_0.success ==> git_more::run_outcome(run) == Err::<
            Seq<char>,
            Seq<char>,
        >(text::trim(utf8::lossy(run->Ok_0.stderr@))),
        run is Err ==> git_more::run_outcome(run) == Err::<Seq<char>, Seq<char>>(
            "git not available: "@ + run->Err_0@,
        ),
{
}

// ── the log ─────────────────────────────────────────────────────────────────────

/// How a line of the log can end: with a carriage return and a line feed, or with a line
/// feed alone where the line does not end in a carriage return.
pub open spec fn is_log_end(line: Seq<char>, end: Seq<char>) -> bool {
    end == seq!['\r', '\n'] || (end == seq!['\n'] && !edit_line_laws::ends_in_cr(line))
}

/// Lines that have an end each.
pub open spec fn are_ended(lines: Seq<Seq<char>>, ends: Seq<Seq<char>>) -> bool {
    &&& ends.len() == lines.len()
    &&& forall|i: int| 0 <= i < lines.len() ==> !(#[trigger] lines[i]).contains('\n')
    &&& forall|i: int| 0 <= i < lines.len() ==> is_log_end(lines[i], #[trigger] ends[i])
}

/// The lines of a log are what stands before its line ends, and what stands behind the last,
/// where there is anything, as it is.
pub proof fn law_log_lines(lines: Seq<Seq<char>>, ends: Seq<Seq<char>>, last: Seq<char>)
    requires
        are_ended(lines, ends),
        !last.contains('\n'),
    ensures
        git_more::log_lines(
            Seq::new(lines.len(), |i: int| lines[i] + ends[i]).flatten() + last,
        ) == (if last.len() == 0 {
            lines
        } else {
            lines.push(last)
        }),
{
    let all = Seq::new(lines.len(), |i: int| lines[i] + ends[i]);
    let pieces = Seq::new(lines.len(), |i: int| lines[i] + ends[i].drop_last());
    let fed = pieces.map_values(|p: Seq<char>| p.push('\n'));
    edit_line_laws::lemma_flatten_join(pieces, last);
    assert forall|i: int| 0 <= i < lines.len() implies fed[i] == all[i] by {
        assert(is_log_end(lines[i], ends[i]));
        assert(ends[i].last() == '\n');
        assert((lines[i] + ends[i].drop_last()).push('\n') =~= lines[i] + ends[i]);
    }
    assert(fed =~= all);
    let s = all.flatten() + last;
    let split = pieces.push(last);
    assert forall|i: int| 0 <= i < split.len() implies !(#[trigger] split[i]).contains('\n') by {
        if i < lines.len() {
            assert(is_log_end(lines[i], ends[i]));
            if split[i].contains('\n') {
                let k = choose|k: int| 0 <= k < split[i].len() && split[i][k] == '\n';
                if k < lines[i].len() {
                    assert(lines[i][k] == '\n');
                    assert(lines[i].contains('\n'));
                } else {
                    assert(ends[i][k - lines[i].len()] == '\n');
                }
            }
        }
    }
    text::lemma_split_join(split, '\n');
    assert(text::split(s, '\n') == split);
    let ended = split.drop_last().map_values(|p: Seq<char>| text::strip_cr(p));
    assert forall|i: int| 0 <= i < lines.len() implies ended[i] == lines[i] by {
        assert(is_log_end(lines[i], ends[i]));
        text_laws::law_strip_cr(lines[i]);
        assert(ended[i] == text::strip_cr(pieces[i]));
        if ends[i] == seq!['\r', '\n'] {
            assert(pieces[i] =~= lines[i].push('\r'));
        } else {
            assert(pieces[i] =~= lines[i]);
        }
    }
    assert(ended =~= lines);
}

/// The time that a field gives is its number, without white space around it; a field that
/// gives none counts as zero.
pub proof fn law_time(field: Seq<char>)
    ensures
        text::i64_of(text::trim(field)) is Some ==> git_more::time_of(field) == text::i64_of(
            text::trim(field),
        )->0,
        text::i64_of(text::trim(field)) is None ==> git_more::time_of(field) == 0,
{
}

/// A line of fewer than four fields holds no commit. Any other holds one: its hash, of which
/// the first eight characters are its short name, its author, the date of its time, its
/// subject and, where there is a fifth field, its references, without white space around
/// them; further fields do not count.
pub proof fn law_commit_fields(fields: Seq<Seq<char>>)
    requires
        fields.len() > 0,
        forall|i: int| 0 <= i < fields.len() ==> !(#[trigger] fields[i]).contains('\u{1f}'),
    ensures
        ({
            let c = git_more::commit_of(text::join(fields, seq!['\u{1f}']));
            &&& c is Some <==> fields.len() >= 4
            &&& c is Some ==> {
                &&& c->0.hash == fields[0]
                &&& fields[0].len() <= 8 ==> c->0.short == fields[0]
                &&& fields[0].len() > 8 ==> c->0.short == fields[0].take(8)
                &&& c->0.author == fields[1]
                &&& c->0.date == civil::date_text(
                    civil::date_of(civil::day_of(git_more::time_of(fields[2]))),
                )
                &&& c->0.subject == fields[3]
                &&& fields.len() > 4 ==> c->0.refs == text::trim(fields[4])
                &&& fields.len() == 4 ==> c->0.refs.len() == 0
            }
        }),
{
    text::lemma_split_join(fields, '\u{1f}');
}

/// The lines that hold a commit.
spec fn commit_wanted(lines: Seq<Seq<char>>) -> spec_fn(int) -> bool {
    |i: int| 0 <= i < lines.len() && git_more::commit_of(lines[i]) is Some
}

/// The commits of some lines are those of all lines that hold one, in their order.
pub proof fn law_every_commit(lines: Seq<Seq<char>>) -> (at: Seq<int>)
    ensures
        picks::lists_all(
            at,
            |i: int| 0 <= i < lines.len() && git_more::commit_of(lines[i]) is Some,
            picks::ascending(),
        ),
        git_more::commits_of(lines).len() == at.len(),
        forall|k: int|
            0 <= k < at.len() ==> Some(#[trigger] git_more::commits_of(lines)[k])
                == git_more::commit_of(lines[at[k]]),
    decreases lines.len(),
{
    let wanted = commit_wanted(lines);
    if lines.len() == 0 {
        picks::lemma_lists_none(wanted, picks::ascending());
        Seq::empty()
    } else {
        let t = lines.drop_last();
        let i = lines.len() - 1;
        let before = law_every_commit(t);
        let in_before = commit_wanted(t);
        assert forall|k: int| k != i implies (#[trigger] wanted(k) <==> in_before(k)) by {
            if 0 <= k < t.len() {
                assert(t[k] == lines[k]);
            }
        }
        picks::lemma_lists_next(before, i, in_before, wanted, picks::ascending());
        let at = picks::with_next(before, i, wanted(i));
        let commits = git_more::commits_of(lines);
        let fewer = git_more::commits_of(t);
        assert forall|k: int| 0 <= k < at.len() implies Some(#[trigger] commits[k])
            == git_more::commit_of(lines[at[k]]) by {
            if k < before.len() {
                assert(commits[k] == fewer[k]);
                assert(in_before(before[k]));
                assert(t[before[k]] == lines[before[k]]);
            }
        }
        at
    }
}

/// A commit has the texts of its fields, and a list of commits has each at its place.
pub proof fn law_commit_views(commits: Seq<git_more::RepoCommit>, i: int)
    requires
        0 <= i < commits.len(),
    ensures
        git_more::commit_views(commits).len() == commits.len(),
        ({
            let c = git_more::commit_views(commits)[i];
            &&& c.hash == commits[i].hash@
            &&& c.short == commits[i].short@
            &&& c.author == commits[i].author@
            &&& c.date == commits[i].date@
            &&& c.subject == commits[i].subject@
            &&& c.refs == commits[i].refs@
        }),
{
}

// ── dates ───────────────────────────────────────────────────────────────────────

/// A time falls in the day that it is less than a day behind the start of.
pub proof fn law_day(secs: int)
    ensures
        0 <= secs - civil::day_of(secs) * 86400 < 86400,
{
}

/// The years that four divides have a 29 February, but of those that a hundred divides only
/// those that four hundred divides.
pub proof fn law_leap_years(year: int)
    ensures
        year % 400 == 0 ==> civil::is_leap(year),
        year % 100 == 0 && year % 400 != 0 ==> !civil::is_leap(year),
        year % 4 == 0 && year % 100 != 0 ==> civil::is_leap(year),
        year % 4 != 0 ==> !civil::is_leap(year),
{
}

/// How long the months are: a leap year has one day more, in its second month.
pub proof fn law_month_days(year: int)
    ensures
        Seq::new(12, |m: int| civil::month_days(year, m + 1)) == seq![
            31,
            if civil::is_leap(year) {
                29
            } else {
                28
            },
            31,
            30,
            31,
            30,
            31,
            31,
            30,
            31,
            30,
            31int,
        ],
{
    assert(Seq::new(12, |m: int| civil::month_days(year, m + 1)) =~= seq![
        31,
        if civil::is_leap(year) {
            29
        } else {
            28
        },
        31,
        30,
        31,
        30,
        31,
        31,
        30,
        31,
        30,
        31int,
    ]);
}

/// Days are counted from the first of January of 1970, and each has the number behind that
/// of the day before it: within a month, over the end of a month, and over that of a year.
pub proof fn law_days_follow(year: int, month: int, day: int)
    requires
        1 <= month <= 12,
    ensures
        civil::day_number(civil::Date { year: 1970, month: 1, day: 1 }) == 0,
        civil::day_number(civil::Date { year, month, day: day + 1 }) == civil::day_number(
            civil::Date { year, month, day },
        ) + 1,
        month < 12 ==> civil::day_number(civil::Date { year, month: month + 1, day: 1 })
            == civil::day_number(
            civil::Date { year, month, day: civil::month_days(year, month) },
        ) + 1,
        civil::day_number(civil::Date { year: year + 1, month: 1, day: 1 }) == civil::day_number(
            civil::Date { year, month: 12, day: 31 },
        ) + 1,
{
    civil::law_year_length(year);
    reveal_with_fuel(civil::days_before_month, 2);
}

/// A date is one that the calendar has just where its month is one of the twelve and its day
/// one of that month.
pub proof fn law_dates(t: civil::Date)
    ensures
        civil::is_date(t) <==> 0 < t.month < 13 && 0 < t.day <= civil::month_days(t.year, t.month),
{
}

/// A date is written as its year, its month and its day, of at least four, two and two
/// characters, with hyphens between them.
pub proof fn law_date_text(t: civil::Date)
    ensures
        civil::date_text(t) == text::join(
            seq![text::padded(t.year, 4), text::padded(t.month, 2), text::padded(t.day, 2)],
            seq!['-'],
        ),
{
    let a = text::padded(t.year, 4);
    let b = text::padded(t.month, 2);
    let c = text::padded(t.day, 2);
    let sep = seq!['-'];
    text_laws::law_join(seq![a], sep, b);
    text_laws::law_join(seq![a, b], sep, c);
    assert(seq![a].push(b) =~= seq![a, b]);
    assert(seq![a, b].push(c) =~= seq![a, b, c]);
    text_laws::law_join(seq![a], sep, a);
}

/// The log of a run that succeeded holds the commits of the lines it wrote; that of a run
/// that did not says why.
pub proof fn law_log(run: Result<GitRun, String>, r: Result<Vec<git_more::RepoCommit>, String>)
    requires
        git_more::is_log_of(run, r),
    ensures
        r is Ok <==> run is Ok && run->Ok_0.success,
        r is Ok ==> git_more::commit_views(r->Ok_0@) == git_more::commits_of(
            git_more::log_lines(utf8::lossy(run->Ok_0.stdout@)),
        ),
        run is Ok && !run->Ok_0.success ==> r->Err_0@ == text::trim(
            utf8::lossy(run->Ok_0.stderr@),
        ),
        run is Err ==> r->Err_0@ == "git not available: "@ + run->Err_0@,
{
}

/// A commit is shown by its name, and just where that can be one: four hexadecimal digits
/// or more.
pub proof fn law_show(hash: Seq<char>, r: Result<Vec<String>, String>)
    requires
        git_more::is_show_of(hash, r),
    ensures
        r is Ok <==> hash.len() >= 4 && all_hex(hash),
        r is Ok ==> r->Ok_0@.len() == 2 && r->Ok_0@[0]@ == "show"@ && r->Ok_0@[1]@ == hash,
        r is Err ==> r->Err_0@ == "bad commit hash"@,
{
    law_hash(hash);
    law_show_command(hash);
    if r is Ok {
        text_laws::law_views(r->Ok_0@, 0);
        text_laws::law_views(r->Ok_0@, 1);
    }
}

/// Two revisions are compared, the first with the second, just where both may be handed to
/// git. A file is named behind a mark, so that git cannot take it for a revision.
pub proof fn law_diff(
    rev_a: Seq<char>,
    rev_b: Seq<char>,
    path: Option<Seq<char>>,
    r: Result<Vec<String>, String>,
)
    requires
        git_more::is_diff_of(rev_a, rev_b, path, r),
    ensures
        r is Ok <==> git_more::is_rev(rev_a) && git_more::is_rev(rev_b),
        r is Err ==> r->Err_0@ == "invalid revision"@,
        r is Ok ==> {
            let args = r->Ok_0@;
            let scoped = path is Some && !text_laws::all_white(path->0);
            &&& args.len() == (if scoped {
                5nat
            } else {
                3
            })
            &&& args[0]@ == "diff"@ && args[1]@ == rev_a && args[2]@ == rev_b
            &&& scoped ==> args[3]@ == "--"@ && args[4]@ == path->0
        },
{
    law_diff_command(rev_a, rev_b, path);
    if r is Ok {
        let args = r->Ok_0@;
        let texts = text::views(args);
        assert(texts.len() == args.len());
        assert forall|i: int| 0 <= i < args.len() implies texts[i] == #[trigger] args[i]@ by {}
    }
}

/// An optional string has the text of what it holds.
pub proof fn law_optional_text(path: Option<&str>)
    ensures
        git_more::opt_str(path) is Some <==> path is Some,
        path is Some ==> git_more::opt_str(path)->0 == path->0@,
{
}

} // verus!
