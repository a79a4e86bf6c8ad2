use editor_host::civil::fmt_date;
use editor_host::git_more::{
    command_line, diff_revs_args, git_log_repo, git_output, graph_args, log_repo_args,
    parse_repo_log, show_commit_args, valid_rev, GitRun,
};

#[test]
fn valid_rev_guards() {
    assert!(valid_rev("main"));
    assert!(valid_rev("HEAD~2"));
    assert!(valid_rev("v1.0.0"));
    assert!(valid_rev("origin/feature"));
    assert!(!valid_rev(""));
    assert!(!valid_rev("--all"));
    assert!(!valid_rev("has space"));
}

#[test]
fn fmt_date_known_epochs() {
    assert_eq!(fmt_date(0), "1970-01-01");
    assert_eq!(fmt_date(1_609_459_200), "2021-01-01");
}

#[test]
fn parse_repo_log_fields() {
    let out = "abc123def456\x1fJane\x1f1609459200\x1finit commit\x1fHEAD -> main\n\
               0badc0de0000\x1fJoe\x1f0\x1fsecond\x1f\n";
    let commits = parse_repo_log(out);
    assert_eq!(commits.len(), 2);
    assert_eq!(commits[0].short, "abc123de");
    assert_eq!(commits[0].author, "Jane");
    assert_eq!(commits[0].date, "2021-01-01");
    assert_eq!(commits[0].subject, "init commit");
    assert_eq!(commits[0].refs, "HEAD -> main");
    assert_eq!(commits[1].refs, "");
}

#[test]
fn dates_across_the_calendar() {
    let day = 86_400;
    assert_eq!(fmt_date(-1), "1969-12-31");
    assert_eq!(fmt_date(day - 1), "1970-01-01");
    assert_eq!(fmt_date(day), "1970-01-02");
    // The leap day of 2000 and its neighbours.
    assert_eq!(fmt_date(951_696_000), "2000-02-28");
    assert_eq!(fmt_date(951_782_400), "2000-02-29");
    assert_eq!(fmt_date(951_868_800), "2000-03-01");
    // 1900 and 2100 have none.
    assert_eq!(fmt_date(-2_203_977_600), "1900-02-28");
    assert_eq!(fmt_date(-2_203_891_200), "1900-03-01");
    assert_eq!(fmt_date(4_107_456_000), "2100-02-28");
    assert_eq!(fmt_date(4_107_542_400), "2100-03-01");
    assert_eq!(fmt_date(253_402_300_799), "9999-12-31");
    assert_eq!(fmt_date(253_402_300_800), "10000-01-01");
    // The year before year 0.
    assert_eq!(fmt_date(-62_167_219_200), "0000-01-01");
    assert_eq!(fmt_date(-62_167_219_201), "-001-12-31");
    // The ends of the range.
    assert_eq!(fmt_date(i64::MAX), "292277026596-12-04");
    assert_eq!(fmt_date(i64::MIN), "-292277022657-01-27");
}

#[test]
fn dates_follow_each_other() {
    let mut month_days = Vec::new();
    let mut last = fmt_date(946_684_800);
    let mut run = 1;
    // Day by day through four years from 2000-01-01.
    for i in 1..1462 {
        let date = fmt_date(946_684_800 + i * 86_400);
        assert!(date > last);
        if date.ends_with("-01") {
            month_days.push(run);
            run = 0;
        }
        run += 1;
        last = date;
    }
    let year = [31, 28, 31, 30, 31, 30, 31, 31, 30, 31, 30, 31];
    for (i, days) in month_days.iter().enumerate() {
        let leap = if i == 1 { 1 } else { 0 };
        assert_eq!(*days, year[i % 12] + leap, "month {i}");
    }
    assert_eq!(month_days.len(), 48);
}

#[test]
fn log_lines_of_every_shape() {
    // Too few fields, no references, odd times, and line endings.
    let commits = parse_repo_log(
        "only\x1fthree\x1ffields\n\
         h\x1fa\x1f 86400 \x1fs\r\n\
         \n\
         h2\x1f\x1fnot a time\x1f\x1f  x  \x1fmore\n\
         h3\x1fa\x1f-1\x1fs\x1f\n\
         h4\x1fa\x1f+86400\x1fs\x1f\n\
         h5\x1fa\x1f9223372036854775808\x1fs\x1fend\r",
    );
    let short: Vec<&str> = commits.iter().map(|c| c.short.as_str()).collect();
    assert_eq!(short, ["h", "h2", "h3", "h4", "h5"]);
    assert_eq!(commits[0].date, "1970-01-02");
    assert_eq!(commits[0].subject, "s");
    assert_eq!(commits[0].refs, "");
    assert_eq!((commits[1].author.as_str(), commits[1].subject.as_str()), ("", ""));
    assert_eq!(commits[1].date, "1970-01-01");
    assert_eq!(commits[1].refs, "x");
    assert_eq!(commits[2].date, "1969-12-31");
    assert_eq!(commits[3].date, "1970-01-02");
    assert_eq!(commits[4].date, "1970-01-01");
    // The last line lacks its end, so its carriage return is part of it until trimmed.
    assert_eq!(commits[4].refs, "end");
    assert!(parse_repo_log("").is_empty());
}

#[test]
fn a_log_is_read_back() {
    let lines: Vec<String> = (0..5)
        .map(|i| format!("{i}abcdef01\x1fauthor {i}\x1f{}\x1fsubject\t{i}\x1fref {i}", i * 86_400))
        .collect();
    let commits = parse_repo_log(&(lines.join("\n") + "\n"));
    assert_eq!(commits.len(), 5);
    for (i, c) in commits.iter().enumerate() {
        assert_eq!(c.hash, format!("{i}abcdef01"));
        assert_eq!(c.short, format!("{i}abcdef0"));
        assert_eq!(c.author, format!("author {i}"));
        assert_eq!(c.date, format!("1970-01-0{}", i + 1));
        assert_eq!(c.subject, format!("subject\t{i}"));
        assert_eq!(c.refs, format!("ref {i}"));
    }
}

#[test]
fn revisions_with_odd_characters() {
    assert!(!valid_rev("-"));
    assert!(!valid_rev("a\tb"));
    assert!(!valid_rev("a\u{a0}b"));
    assert!(!valid_rev("a\u{7f}"));
    assert!(!valid_rev("a\u{85}"));
    assert!(valid_rev("a-b"));
    assert!(valid_rev("größe"));
}

#[test]
fn log_arguments() {
    assert_eq!(
        log_repo_args(None),
        ["log", "-n300", "--format=%H\x1f%an\x1f%at\x1f%s\x1f%D"]
    );
    assert_eq!(log_repo_args(Some(7))[1], "-n7");
    assert_eq!(log_repo_args(Some(0))[1], "-n0");
    assert_eq!(log_repo_args(Some(5000))[1], "-n5000");
    assert_eq!(log_repo_args(Some(usize::MAX))[1], "-n5000");
    assert_eq!(
        graph_args(Some(12)),
        ["log", "-n12", "--graph", "--oneline", "--decorate", "--all", "--date-order"]
    );
}

#[test]
fn show_arguments() {
    assert_eq!(show_commit_args("0aF9").unwrap(), ["show", "0aF9"]);
    for bad in ["zzzz", "abc", "", "-abc", "abcd ", "abcdé"] {
        assert_eq!(show_commit_args(bad).err().unwrap(), "bad commit hash", "{bad}");
    }
}

#[test]
fn diff_arguments() {
    assert_eq!(diff_revs_args("v1", "main", None).unwrap(), ["diff", "v1", "main"]);
    assert_eq!(diff_revs_args("v1", "main", Some(" \t")).unwrap(), ["diff", "v1", "main"]);
    assert_eq!(
        diff_revs_args("v1", "main", Some(" a b ")).unwrap(),
        ["diff", "v1", "main", "--", " a b "]
    );
    assert_eq!(diff_revs_args("--all", "main", None).err().unwrap(), "invalid revision");
    assert_eq!(diff_revs_args("main", "", None).err().unwrap(), "invalid revision");
}

#[test]
fn git_runs_in_a_directory() {
    let args = vec!["show".to_string(), "abcd".to_string()];
    assert_eq!(command_line("/repo", &args), ["-C", "/repo", "show", "abcd"]);
}

#[test]
fn what_a_run_of_git_gives() {
    let run = |success: bool| {
        Ok(GitRun {
            success,
            stdout: b" out \xff\n".to_vec(),
            stderr: b"\n fatal: bad \xfe \n".to_vec(),
        })
    };
    assert_eq!(git_output(run(true)), Ok(" out \u{fffd}\n".to_string()));
    assert_eq!(git_output(run(false)), Err("fatal: bad \u{fffd}".to_string()));
    assert_eq!(
        git_output(Err("no such file".to_string())),
        Err("git not available: no such file".to_string())
    );
}

#[test]
fn the_log_of_a_repository() {
    let run = Ok(GitRun {
        success: true,
        stdout: b"abc123def456\x1fJane\x1f1609459200\x1finit\x1f\n".to_vec(),
        stderr: Vec::new(),
    });
    let commits = git_log_repo(run).unwrap();
    assert_eq!(commits.len(), 1);
    assert_eq!(commits[0].hash, "abc123def456");
    assert_eq!(commits[0].date, "2021-01-01");
    let failed = Ok(GitRun { success: false, stdout: Vec::new(), stderr: b"no repo\n".to_vec() });
    assert_eq!(git_log_repo(failed).err().unwrap(), "no repo");
}
