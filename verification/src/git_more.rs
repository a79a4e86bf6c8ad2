//! History of a whole repository: its log, one commit, the difference between two
//! revisions, and the graph of its branches.
//!
//! Each of these asks git and changes nothing. A revision that git could take for an
//! option never reaches it.

use crate::civil;
use crate::text;
use crate::utf8;
use vstd::prelude::*;
use vstd::string::StringExecFns;

verus! {

// ── running git ─────────────────────────────────────────────────────────────────

/// How a run of git ended.
#[derive(Debug)]
pub struct GitRun {
    pub success: bool,
    pub stdout: Vec<u8>,
    pub stderr: Vec<u8>,
}

/// The arguments of a git command that runs in a directory.
pub open spec fn in_directory(dir: Seq<char>, args: Seq<Seq<char>>) -> Seq<Seq<char>> {
    seq!["-C"@, dir] + args
}

/// The arguments of a git command that runs in `dir`.
pub fn command_line(dir: &str, args: &Vec<String>) -> (r: Vec<String>)
    ensures
        text::views(r@) == in_directory(dir@, text::views(args@)),
{
    let mut r: Vec<String> = Vec::new();
    r.push("-C".to_owned());
    r.push(dir.to_owned());
    assert(text::views(r@) == seq!["-C"@, dir@]);
    let mut i: usize = 0;
    while i < args.len()
        invariant
            i <= args@.len(),
            text::views(r@) == seq!["-C"@, dir@] + text::views(args@).take(i as int),
        decreases args@.len() - i,
    {
        let a = args[i].clone();
        proof {
            text::lemma_views_push(r@, a);
            assert(text::views(args@).take(i + 1) == text::views(args@).take(i as int).push(
                args@[i as int]@,
            ));
        }
        r.push(a);
        i += 1;
    }
    assert(text::views(args@).take(args@.len() as int) == text::views(args@));
    r
}

/// What a run of git gives: its output, or the reason why there is none.
pub open spec fn run_outcome(run: Result<GitRun, String>) -> Result<Seq<char>, Seq<char>> {
    match run {
        Err(e) => Err("git not available: "@ + e@),
        Ok(run) => if run.success {
            Ok(utf8::lossy(run.stdout@))
        } else {
            Err(text::trim(utf8::lossy(run.stderr@)))
        },
    }
}

/// The output of a run of git where it succeeded; else what it said went wrong, or why
/// it did not run.
pub fn git_output(run: Result<GitRun, String>) -> (r: Result<String, String>)
    ensures
        text::result_view(r) == run_outcome(run),
{
    match run {
        Err(e) => {
            let mut message = "git not available: ".to_owned();
            message.append(e.as_str());
            Err(message)
        },
        Ok(run) => {
            if !run.success {
                return Err(text::trimmed(utf8::lossy_text(run.stderr.as_slice()).as_str()));
            }
            Ok(utf8::lossy_text(run.stdout.as_slice()))
        },
    }
}

// ── revisions ───────────────────────────────────────────────────────────────────

/// A revision that git cannot take for an option and that holds no white space and no
/// control characters.
pub open spec fn is_rev(rev: Seq<char>) -> bool {
    &&& rev.len() > 0
    &&& rev[0] != '-'
    &&& forall|i: int|
        0 <= i < rev.len() ==> !text::is_white(#[trigger] rev[i]) && !text::is_ctrl(rev[i])
}

/// Whether `rev` may be handed to git as a revision.
pub fn valid_rev(rev: &str) -> (r: bool)
    ensures
        r == is_rev(rev@),
{
    let v = text::to_chars(rev);
    if v.len() == 0 || v[0] == '-' {
        return false;
    }
    let mut i: usize = 0;
    while i < v.len()
        invariant
            v@ == rev@,
            i <= v@.len(),
            forall|j: int|
                0 <= j < i ==> !text::is_white(#[trigger] rev@[j]) && !text::is_ctrl(rev@[j]),
        decreases v@.len() - i,
    {
        if text::is_whitespace(v[i]) || text::is_control(v[i]) {
            assert(text::is_white(rev@[i as int]) || text::is_ctrl(rev@[i as int]));
            return false;
        }
        i += 1;
    }
    true
}

/// A digit of a hexadecimal number.
pub open spec fn is_hex(c: char) -> bool {
    '0' <= c <= '9' || 'a' <= c <= 'f' || 'A' <= c <= 'F'
}

/// At least four hexadecimal digits and nothing else.
pub open spec fn is_hash(hash: Seq<char>) -> bool {
    &&& hash.len() >= 4
    &&& forall|i: int| 0 <= i < hash.len() ==> is_hex(#[trigger] hash[i])
}

/// Whether `hash` can be the name of a commit.
fn valid_hash(hash: &str) -> (r: bool)
    ensures
        r == is_hash(hash@),
{
    let v = text::to_chars(hash);
    let mut i: usize = 0;
    while i < v.len()
        invariant
            v@ == hash@,
            i <= v@.len(),
            forall|j: int| 0 <= j < i ==> is_hex(#[trigger] hash@[j]),
        decreases v@.len() - i,
    {
        let c: char = v[i];
        let hex: bool = ('0' <= c && c <= '9') || ('a' <= c && c <= 'f') || ('A' <= c && c <= 'F');
        if !hex {
            assert(!is_hex(hash@[i as int]));
            return false;
        }
        i += 1;
    }
    v.len() >= 4
}

// ── the log ─────────────────────────────────────────────────────────────────────

/// One commit of the log.
#[derive(Debug)]
pub struct RepoCommit {
    pub hash: String,
    /// The first eight characters of the hash.
    pub short: String,
    pub author: String,
    /// The author's date, as `YYYY-MM-DD`.
    pub date: String,
    pub subject: String,
    /// The names that refer to the commit, or nothing.
    pub refs: String,
}

/// The texts of a commit.
#[verifier::ext_equal]
pub struct CommitText {
    pub hash: Seq<char>,
    pub short: Seq<char>,
    pub author: Seq<char>,
    pub date: Seq<char>,
    pub subject: Seq<char>,
    pub refs: Seq<char>,
}

impl View for RepoCommit {
    type V = CommitText;

    open spec fn view(&self) -> CommitText {
        CommitText {
            hash: self.hash@,
            short: self.short@,
            author: self.author@,
            date: self.date@,
            subject: self.subject@,
            refs: self.refs@,
        }
    }
}

/// The lines of a text. Each ends in a line feed, or a carriage return and a line feed;
/// the last may lack its end.
pub open spec fn log_lines(s: Seq<char>) -> Seq<Seq<char>> {
    let pieces = text::split(s, '\n');
    let ended = pieces.drop_last().map_values(|p: Seq<char>| text::strip_cr(p));
    if pieces.last().len() == 0 {
        ended
    } else {
        ended.push(pieces.last())
    }
}

/// The time that a field gives, in seconds; 0 where it gives none.
pub open spec fn time_of(field: Seq<char>) -> int {
    match text::i64_of(text::trim(field)) {
        Some(n) => n,
        None => 0,
    }
}

/// The commit of a line: its hash, author, time, subject and references, with a unit
/// separator between each two. A line with fewer than four fields holds none.
pub open spec fn commit_of(line: Seq<char>) -> Option<CommitText> {
    let fields = text::split(line, '\u{1f}');
    if fields.len() < 4 {
        None
    } else {
        Some(
            CommitText {
                hash: fields[0],
                short: text::first_chars(fields[0], 8),
                author: fields[1],
                date: civil::date_text(civil::date_of(civil::day_of(time_of(fields[2])))),
                subject: fields[3],
                refs: if fields.len() > 4 {
                    text::trim(fields[4])
                } else {
                    Seq::empty()
                },
            },
        )
    }
}

/// The commits of some lines, in order.
pub open spec fn commits_of(lines: Seq<Seq<char>>) -> Seq<CommitText>
    decreases lines.len(),
{
    if lines.len() == 0 {
        Seq::empty()
    } else {
        let before = commits_of(lines.drop_last());
        match commit_of(lines.last()) {
            Some(c) => before.push(c),
            None => before,
        }
    }
}

/// The texts of a list of commits.
pub open spec fn commit_views(v: Seq<RepoCommit>) -> Seq<CommitText> {
    v.map_values(|c: RepoCommit| c@)
}

/// The commit of a line of the log.
fn parse_commit(line: &str) -> (r: Option<RepoCommit>)
    ensures
        match r {
            Some(c) => commit_of(line@) == Some(c@),
            None => commit_of(line@) is None,
        },
{
    let fields = text::split_text(line, '\u{1f}');
    if fields.len() < 4 {
        return None;
    }
    proof {
        let texts = text::split(line@, '\u{1f}');
        assert(forall|i: int| 0 <= i < fields@.len() ==> texts[i] == #[trigger] fields@[i]@);
    }
    let refs = if fields.len() > 4 {
        text::trimmed(fields[4].as_str())
    } else {
        String::new()
    };
    let time: i64 = text::parse_i64(text::trimmed(fields[2].as_str()).as_str()).unwrap_or(0);
    let commit = RepoCommit {
        hash: fields[0].clone(),
        short: text::beginning(fields[0].as_str(), 8),
        author: fields[1].clone(),
        date: civil::fmt_date(time),
        subject: fields[3].clone(),
        refs,
    };
    assert(commit_of(line@)->0 =~= commit@);
    Some(commit)
}

/// The lines of a text, in order.
fn split_log(out: &str) -> (lines: Vec<String>)
    ensures
        text::views(lines@) == log_lines(out@),
{
    let pieces = text::split_text(out, '\n');
    proof {
        text::lemma_split_pieces(out@, '\n');
    }
    let ghost texts = text::split(out@, '\n');
    let ghost ended = texts.drop_last().map_values(|p: Seq<char>| text::strip_cr(p));
    let last: usize = pieces.len() - 1;
    let mut lines: Vec<String> = Vec::new();
    let mut i: usize = 0;
    while i < last
        invariant
            last == pieces@.len() - 1,
            i <= last,
            texts == text::views(pieces@),
            ended == texts.drop_last().map_values(|p: Seq<char>| text::strip_cr(p)),
            text::views(lines@) == ended.take(i as int),
        decreases last - i,
    {
        let line = text::without_cr(pieces[i].as_str());
        proof {
            assert(texts[i as int] == pieces@[i as int]@);
            assert(ended[i as int] == line@);
            text::lemma_views_push(lines@, line);
            assert(ended.take(i + 1) == ended.take(i as int).push(line@));
        }
        lines.push(line);
        i += 1;
    }
    assert(ended.take(last as int) == ended);
    assert(texts.last() == pieces@[last as int]@);
    if !pieces[last].as_str().is_empty() {
        let line = pieces[last].clone();
        proof {
            text::lemma_views_push(lines@, line);
        }
        lines.push(line);
    }
    lines
}

/// The commits that git's log lists, in its order.
pub fn parse_repo_log(out: &str) -> (commits: Vec<RepoCommit>)
    ensures
        commit_views(commits@) == commits_of(log_lines(out@)),
{
    let lines = split_log(out);
    let ghost texts = log_lines(out@);
    let mut commits: Vec<RepoCommit> = Vec::new();
    let mut i: usize = 0;
    while i < lines.len()
        invariant
            i <= lines@.len(),
            texts == text::views(lines@),
            commit_views(commits@) == commits_of(texts.take(i as int)),
        decreases lines@.len() - i,
    {
        proof {
            assert(texts[i as int] == lines@[i as int]@);
            assert(texts.take(i + 1).drop_last() == texts.take(i as int));
            assert(texts.take(i + 1).last() == texts[i as int]);
        }
        match parse_commit(lines[i].as_str()) {
            Some(c) => {
                let ghost before = commits@;
                commits.push(c);
                assert(commit_views(commits@) == commit_views(before).push(c@));
            },
            None => {},
        }
        i += 1;
    }
    assert(texts.take(lines@.len() as int) == texts);
    commits
}

// ── commands ────────────────────────────────────────────────────────────────────

/// How many commits are asked for when the request does not say.
pub const DEFAULT_COMMITS: usize = 300;

/// How many commits are asked for at most.
pub const MAX_COMMITS: usize = 5000;

/// How many commits are asked for.
pub open spec fn commit_limit(limit: Option<usize>) -> nat {
    let n = match limit {
        Some(n) => n,
        None => DEFAULT_COMMITS,
    };
    if n < MAX_COMMITS {
        n as nat
    } else {
        MAX_COMMITS as nat
    }
}

/// The option that limits a log.
pub open spec fn limit_option(limit: Option<usize>) -> Seq<char> {
    "-n"@ + text::decimal(commit_limit(limit))
}

/// The option that limits a log.
fn limit_text(limit: Option<usize>) -> (r: String)
    ensures
        r@ == limit_option(limit),
{
    let asked: usize = limit.unwrap_or(DEFAULT_COMMITS);
    let n: usize = if asked < MAX_COMMITS {
        asked
    } else {
        MAX_COMMITS
    };
    let mut r = "-n".to_owned();
    r.append(text::decimal_text(n as u64).as_str());
    r
}

/// The arguments that list the commits of a repository.
pub open spec fn log_command(limit: Option<usize>) -> Seq<Seq<char>> {
    seq!["log"@, limit_option(limit), "--format=%H\x1f%an\x1f%at\x1f%s\x1f%D"@]
}

/// The arguments that list the commits of a repository, newest first.
pub fn log_repo_args(limit: Option<usize>) -> (args: Vec<String>)
    ensures
        text::views(args@) == log_command(limit),
{
    let mut args: Vec<String> = Vec::new();
    args.push("log".to_owned());
    args.push(limit_text(limit));
    args.push("--format=%H\x1f%an\x1f%at\x1f%s\x1f%D".to_owned());
    assert(text::views(args@) =~= log_command(limit));
    args
}

/// The commits of a repository, from how git's log ended.
pub open spec fn is_log_of(run: Result<GitRun, String>, r: Result<Vec<RepoCommit>, String>) -> bool {
    match (r, run_outcome(run)) {
        (Ok(commits), Ok(out)) => commit_views(commits@) == commits_of(log_lines(out)),
        (Err(e), Err(message)) => e@ == message,
        _ => false,
    }
}

/// The commits of a repository, from how git's log ended.
pub fn git_log_repo(run: Result<GitRun, String>) -> (r: Result<Vec<RepoCommit>, String>)
    ensures
        is_log_of(run, r),
{
    match git_output(run) {
        Ok(out) => Ok(parse_repo_log(out.as_str())),
        Err(e) => Err(e),
    }
}

/// The arguments that show one commit.
pub open spec fn show_command(hash: Seq<char>) -> Seq<Seq<char>> {
    seq!["show"@, hash]
}

/// The arguments that show a commit, or how its name is refused.
pub open spec fn is_show_of(hash: Seq<char>, r: Result<Vec<String>, String>) -> bool {
    match r {
        Ok(args) => is_hash(hash) && text::views(args@) == show_command(hash),
        Err(e) => !is_hash(hash) && e@ == "bad commit hash"@,
    }
}

/// The arguments that show the commit named `hash`.
pub fn show_commit_args(hash: &str) -> (r: Result<Vec<String>, String>)
    ensures
        is_show_of(hash@, r),
{
    if !valid_hash(hash) {
        return Err("bad commit hash".to_owned());
    }
    let mut args: Vec<String> = Vec::new();
    args.push("show".to_owned());
    args.push(hash.to_owned());
    assert(text::views(args@) =~= show_command(hash@));
    Ok(args)
}

/// The arguments that show what changed between two revisions, in one file where `path`
/// names one.
pub open spec fn diff_command(
    rev_a: Seq<char>,
    rev_b: Seq<char>,
    path: Option<Seq<char>>,
) -> Seq<Seq<char>> {
    let args = seq!["diff"@, rev_a, rev_b];
    match path {
        Some(p) => if text::trim(p).len() > 0 {
            args + seq!["--"@, p]
        } else {
            args
        },
        None => args,
    }
}

/// The text of an optional string.
pub open spec fn opt_str(s: Option<&str>) -> Option<Seq<char>> {
    match s {
        Some(s) => Some(s@),
        None => None,
    }
}

/// The arguments that show what changed between two revisions, or how they are refused.
pub open spec fn is_diff_of(
    rev_a: Seq<char>,
    rev_b: Seq<char>,
    path: Option<Seq<char>>,
    r: Result<Vec<String>, String>,
) -> bool {
    match r {
        Ok(args) => is_rev(rev_a) && is_rev(rev_b) && text::views(args@) == diff_command(
            rev_a,
            rev_b,
            path,
        ),
        Err(e) => !(is_rev(rev_a) && is_rev(rev_b)) && e@ == "invalid revision"@,
    }
}

/// The arguments that show what changed between two revisions, in one file where `path`
/// names one.
pub fn diff_revs_args(rev_a: &str, rev_b: &str, path: Option<&str>) -> (r: Result<
    Vec<String>,
    String,
>)
    ensures
        is_diff_of(rev_a@, rev_b@, opt_str(path), r),
{
    if !valid_rev(rev_a) || !valid_rev(rev_b) {
        return Err("invalid revision".to_owned());
    }
    let mut args: Vec<String> = Vec::new();
    args.push("diff".to_owned());
    args.push(rev_a.to_owned());
    args.push(rev_b.to_owned());
    assert(text::views(args@) =~= seq!["diff"@, rev_a@, rev_b@]);
    match path {
        Some(p) => {
            if !text::trimmed(p).as_str().is_empty() {
                args.push("--".to_owned());
                args.push(p.to_owned());
                assert(text::views(args@) =~= seq!["diff"@, rev_a@, rev_b@] + seq!["--"@, p@]);
            }
        },
        None => {},
    }
    Ok(args)
}

/// The arguments that draw the graph of all branches.
pub open spec fn graph_command(limit: Option<usize>) -> Seq<Seq<char>> {
    seq![
        "log"@,
        limit_option(limit),
        "--graph"@,
        "--oneline"@,
        "--decorate"@,
        "--all"@,
        "--date-order"@,
    ]
}

/// The arguments that draw the graph of all branches.
pub fn graph_args(limit: Option<usize>) -> (args: Vec<String>)
    ensures
        text::views(args@) == graph_command(limit),
{
    let mut args: Vec<String> = Vec::new();
    args.push("log".to_owned());
    args.push(limit_text(limit));
    args.push("--graph".to_owned());
    args.push("--oneline".to_owned());
    args.push("--decorate".to_owned());
    args.push("--all".to_owned());
    args.push("--date-order".to_owned());
    assert(text::views(args@) =~= graph_command(limit));
    args
}

} // verus!
