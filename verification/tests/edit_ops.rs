use editor_host::edit_ops::{
    align_columns, align_lines, align_text, comment_prefix, comment_toggle, join_lines,
    read_text_file, split_lines, toggle_comment, toggle_for_ext, AlignOpts,
};
use editor_host::project::{looks_binary, may_read, BINARY_SNIFF_BYTES, MAX_GREP_FILE_BYTES};

fn v(s: &[&str]) -> Vec<String> {
    s.iter().map(|x| x.to_string()).collect()
}

fn look(separator: &str) -> AlignOpts {
    AlignOpts { separator: separator.to_string(), ..AlignOpts::default() }
}

#[test]
fn align_pads_to_common_column() {
    let re = regex::Regex::new(&regex::escape("=")).unwrap();
    let (out, changed, matched) = align_text("a = 1\nfoo = 2\nxy = 3\n", &re);
    assert_eq!(out, "a   = 1\nfoo = 2\nxy  = 3\n");
    assert_eq!(matched, 3);
    // "a = 1" and "xy = 3" move; "foo = 2" already at the column.
    assert_eq!(changed, 2);
}

#[test]
fn align_leaves_non_matching_lines() {
    let re = regex::Regex::new(&regex::escape(":")).unwrap();
    let (out, _, matched) = align_text("k: v\nno delim here\nlong: w\n", &re);
    // Padding lands before the delimiter, so the colons line up in one column.
    assert_eq!(out, "k    : v\nno delim here\nlong : w\n");
    assert_eq!(matched, 2);
}

#[test]
fn align_regex_delimiter() {
    // Align on "=>" via regex.
    let re = regex::Regex::new(r"=>").unwrap();
    let (out, _, matched) = align_text("a => 1\nbbb => 2\n", &re);
    assert_eq!(out, "a   => 1\nbbb => 2\n");
    assert_eq!(matched, 2);
}

#[test]
fn comment_prefix_by_ext() {
    assert_eq!(comment_prefix("rs"), Some("//"));
    assert_eq!(comment_prefix("py"), Some("#"));
    assert_eq!(comment_prefix("lua"), Some("--"));
    assert_eq!(comment_prefix("el"), Some(";"));
    assert_eq!(comment_prefix("vim"), Some("\""));
    assert_eq!(comment_prefix("unknownext"), None);
}

#[test]
fn comment_then_uncomment_roundtrip() {
    let lines = v(&["    let x = 1;", "", "    let y = 2;"]);
    // Comment the whole range.
    let (commented, is_commented, changed) = toggle_comment(lines, 0, 2, "//");
    assert!(is_commented);
    assert_eq!(changed, 2); // blank line untouched
    assert_eq!(commented[0], "    // let x = 1;");
    assert_eq!(commented[2], "    // let y = 2;");
    assert_eq!(commented[1], "");

    // Toggle again, back to the original.
    let (back, is_commented2, _) = toggle_comment(commented, 0, 2, "//");
    assert!(!is_commented2);
    assert_eq!(back[0], "    let x = 1;");
    assert_eq!(back[2], "    let y = 2;");
}

#[test]
fn comment_mixed_range_comments_all() {
    // One line already commented, one not: not all are, so both are commented.
    let lines = v(&["// done", "todo"]);
    let (out, is_commented, _) = toggle_comment(lines, 0, 1, "//");
    assert!(is_commented);
    assert_eq!(out[0], "// // done");
    assert_eq!(out[1], "// todo");
}

#[test]
fn align_and_comment_apply_on_disk() {
    let opts = AlignOpts { separator: "=".into(), regex: None, apply: Some(true) };
    let (r, write) = align_columns(Ok("a = 1\nfoo = 2\n".into()), &opts).unwrap();
    assert!(r.applied && r.differs);
    let text = write.unwrap();
    assert_eq!(text, "a   = 1\nfoo = 2\n");

    // Comment lines 1-2 of a .rs file with its "//" prefix.
    let (c, write) = comment_toggle("dir/a.rs", Ok(text), 1, 2, Some(true)).unwrap();
    assert!(c.applied && c.commented);
    assert_eq!(c.prefix, "//");
    assert_eq!(write.unwrap(), "// a   = 1\n// foo = 2\n");
}

#[test]
fn lines_are_split_and_joined_with_their_ending() {
    let (lines, eol, trailing) = split_lines("a\r\nb\r\n");
    assert_eq!(lines, v(&["a", "b"]));
    assert_eq!(eol, "\r\n");
    assert!(trailing);
    assert_eq!(join_lines(&lines, eol, trailing), "a\r\nb\r\n");

    let (lines, eol, trailing) = split_lines("a\n\nb");
    assert_eq!(lines, v(&["a", "", "b"]));
    assert_eq!(eol, "\n");
    assert!(!trailing);
    assert_eq!(join_lines(&lines, eol, trailing), "a\n\nb");

    let (lines, _, trailing) = split_lines("");
    assert_eq!(lines, v(&[""]));
    assert!(!trailing);
    assert_eq!(join_lines(&lines, "\n", false), "");

    // Mixed endings come back as one kind; a lone line feed comes back as nothing.
    let (lines, eol, trailing) = split_lines("a\nb\r\n");
    assert_eq!(join_lines(&lines, eol, trailing), "a\r\nb\r\n");
    let (lines, eol, trailing) = split_lines("\n");
    assert_eq!(join_lines(&lines, eol, trailing), "");
}

#[test]
fn the_dominant_ending_wins() {
    let ending = |s: &str| split_lines(s).1.to_string();
    assert_eq!(split_lines("a\nb\nc\r\n"), (v(&["a", "b", "c"]), "\n", true));
    assert_eq!(ending("a\r\nb\r\nc\n"), "\r\n");
    assert_eq!(ending("a\r\nb\n"), "\r\n");
    assert_eq!(ending("a\r\nb\nc\n"), "\n");
    assert_eq!(ending("\r\n"), "\r\n");
    assert_eq!(ending("\r\r\n\n"), "\r\n");
    assert_eq!(ending("a\rb"), "\n");
    assert_eq!(ending(""), "\n");

    // What is written has the ending of most lines.
    let opts = AlignOpts { separator: "=".into(), regex: None, apply: Some(true) };
    let (_, write) = align_columns(Ok("a=1\nbb=2\nc\r\n".into()), &opts).unwrap();
    assert_eq!(write.unwrap(), "a  = 1\nbb = 2\nc\n");
    let (_, write) = comment_toggle("a.rs", Ok("a\nb\nc\r\n".into()), 3, 3, Some(true)).unwrap();
    assert_eq!(write.unwrap(), "a\nb\n// c\n");
}

#[test]
fn every_prefix_of_the_table() {
    for ext in ["rs", "js", "mjs", "cjs", "ts", "tsx", "jsx", "go", "c", "h", "cc", "cpp", "cxx",
        "hpp", "hh", "java", "swift", "kt", "kts", "scala", "dart", "php", "cs", "zig"] {
        assert_eq!(comment_prefix(ext), Some("//"), "{ext}");
    }
    for ext in ["py", "rb", "sh", "bash", "zsh", "pl", "pm", "stk", "yaml", "yml", "toml", "conf",
        "cfg", "ini", "r", "jl", "ex", "exs", "nim", "tcl", "mk", "make", "dockerfile",
        "gitignore"] {
        assert_eq!(comment_prefix(ext), Some("#"), "{ext}");
    }
    for ext in ["lua", "sql", "hs", "elm", "adb", "ads"] {
        assert_eq!(comment_prefix(ext), Some("--"), "{ext}");
    }
    for ext in ["lisp", "el", "clj", "cljs", "scm", "rkt", "asm", "s"] {
        assert_eq!(comment_prefix(ext), Some(";"), "{ext}");
    }
    for ext in ["vim", "vimrc"] {
        assert_eq!(comment_prefix(ext), Some("\""), "{ext}");
    }
    assert_eq!(comment_prefix(""), None);
    assert_eq!(comment_prefix("RS"), None);
}

#[test]
fn toggle_ranges_are_clamped() {
    let lines = v(&["a", "b"]);
    let (out, commented, changed) = toggle_comment(lines, 1, 99, "#");
    assert_eq!(out, v(&["a", "# b"]));
    assert!(commented);
    assert_eq!(changed, 1);

    // A range that starts behind its end, or no lines at all.
    let (out, commented, changed) = toggle_comment(v(&["a", "b"]), 1, 0, "#");
    assert_eq!((out, commented, changed), (v(&["a", "b"]), false, 0));
    let (out, commented, changed) = toggle_comment(Vec::new(), 0, 0, "#");
    assert_eq!((out, commented, changed), (Vec::new(), false, 0));

    // Blank lines alone count as commented, so nothing is added to them.
    let (out, commented, changed) = toggle_comment(v(&["", "  "]), 0, 1, "#");
    assert_eq!((out, commented, changed), (v(&["", "  "]), false, 0));
}

#[test]
fn uncommenting_takes_one_space() {
    let (out, commented, changed) = toggle_comment(v(&["#  two", "#none", "  # in"]), 0, 2, "#");
    assert_eq!(out, v(&[" two", "none", "  in"]));
    assert!(!commented);
    assert_eq!(changed, 3);
}

#[test]
fn commenting_twice_gives_the_lines_back() {
    let lines = v(&["\tif x {", "", "        y();", "\u{3000}}"]);
    let (once, _, _) = toggle_comment(lines, 0, 3, "//");
    let (twice, _, _) = toggle_comment(once, 0, 3, "//");
    assert_eq!(twice, v(&["\tif x {", "", "        y();", "\u{3000}}"]));
}

#[test]
fn alignment_counts_characters_and_keeps_empty_tails() {
    let (r, write) = align_columns(
        Ok("é = 1\nlong=\n".into()),
        &AlignOpts { separator: " = ".into(), regex: None, apply: Some(true) },
    )
    .unwrap();
    // The delimiter is trimmed to "=".
    assert_eq!(write.unwrap(), "é    = 1\nlong =\n");
    assert_eq!(r.matched_lines, 2);
    assert_eq!(r.changed_lines, 2);
}

#[test]
fn aligning_twice_changes_nothing_more() {
    let opts = AlignOpts { separator: "=>".into(), regex: None, apply: Some(true) };
    let (_, write) = align_columns(Ok("a=>1\r\nbb  =>  2\r\nc\r\n".into()), &opts).unwrap();
    let once = write.unwrap();
    assert_eq!(once, "a  => 1\r\nbb => 2\r\nc\r\n");
    let (r, write) = align_columns(Ok(once), &opts).unwrap();
    assert!(!r.differs && !r.applied && write.is_none());
    assert_eq!((r.changed_lines, r.matched_lines), (0, 2));
    // So it is with mixed endings, and with a lone line feed, of which nothing is left.
    for (text, aligned) in [("a=>1\nbb=>2\r\n", "a  => 1\r\nbb => 2\r\n"), ("\n", "")] {
        let (r, write) = align_columns(Ok(text.into()), &opts).unwrap();
        assert!(r.differs);
        assert_eq!(write.as_deref(), Some(aligned));
        let (r, write) = align_columns(Ok(aligned.into()), &opts).unwrap();
        assert!(!r.differs && write.is_none(), "{text:?}");
    }
}

#[test]
fn alignment_moves_white_space_alone() {
    let lines = v(&["  let  x\t=  1 ;  ", "y=", "\u{3000}long name  =\u{3000}a b", "none here "]);
    let found = vec![Some((9, 10)), Some((1, 2)), Some((14, 15)), None];
    let (out, _, matched) = align_lines(&lines, &found);
    assert_eq!(matched, 3);
    let visible = |s: &String| s.chars().filter(|c| !c.is_whitespace()).collect::<String>();
    for (a, b) in lines.iter().zip(&out) {
        assert_eq!(visible(a), visible(b));
    }
}

#[test]
fn a_literal_delimiter_is_no_pattern() {
    let (r, _) = align_columns(Ok("a.b\ncd\n".into()), &look(".")).unwrap();
    assert_eq!(r.matched_lines, 1);
    let mut opts = look(".");
    opts.regex = Some(true);
    let (r, _) = align_columns(Ok("a.b\ncd\n".into()), &opts).unwrap();
    assert_eq!(r.matched_lines, 2);
}

#[test]
fn a_match_of_no_length_at_the_start_is_none() {
    let mut opts = look("x*");
    opts.regex = Some(true);
    let (r, write) = align_columns(Ok("abc\nxx=1\n".into()), &opts).unwrap();
    assert_eq!(r.matched_lines, 1);
    assert!(write.is_none());
}

#[test]
fn alignment_looks_without_writing() {
    let (r, write) = align_columns(Ok("a=1\n".into()), &look("=")).unwrap();
    assert!(r.differs && !r.applied && write.is_none());
}

#[test]
fn alignment_is_refused() {
    assert_eq!(align_columns(Ok("a".into()), &look(" \t")).err().unwrap(), "empty delimiter");
    assert_eq!(align_columns(Err("gone".into()), &look("=")).err().unwrap(), "gone");
    let mut opts = look("(");
    opts.regex = Some(true);
    let err = align_columns(Ok("a".into()), &opts).err().unwrap();
    assert!(err.starts_with("bad pattern: "), "{err}");
    assert_eq!(err, format!("bad pattern: {}", regex::Regex::new("(").err().unwrap()));
}

#[test]
fn align_lines_takes_the_places_of_the_delimiter() {
    let lines = v(&["a=1", "none", "bcd = 2"]);
    let found = vec![Some((1, 2)), None, Some((4, 5))];
    let (out, changed, matched) = align_lines(&lines, &found);
    assert_eq!(out, v(&["a   = 1", "none", "bcd = 2"]));
    assert_eq!((changed, matched), (1, 2));
}

#[test]
fn text_files_are_read_within_limits() {
    assert_eq!(read_text_file(Some(3), Ok(b"abc".to_vec())), Ok("abc".to_string()));
    assert_eq!(
        read_text_file(None, Ok(b"abc".to_vec())),
        Err("file too large or unreadable".to_string())
    );
    assert_eq!(
        read_text_file(Some(MAX_GREP_FILE_BYTES + 1), Ok(b"abc".to_vec())),
        Err("file too large or unreadable".to_string())
    );
    assert_eq!(
        read_text_file(Some(MAX_GREP_FILE_BYTES), Ok(b"abc".to_vec())),
        Ok("abc".to_string())
    );
    assert_eq!(read_text_file(Some(3), Err("no".to_string())), Err("no".to_string()));
    assert_eq!(read_text_file(Some(3), Ok(b"a\0c".to_vec())), Err("binary file".to_string()));
    // What is not valid is replaced.
    assert_eq!(read_text_file(Some(3), Ok(b"a\xffc".to_vec())), Ok("a\u{fffd}c".to_string()));
    assert!(may_read(Some(5), 5) && !may_read(Some(6), 5) && !may_read(None, 5));
}

#[test]
fn a_nul_counts_only_at_the_start() {
    let mut bytes = vec![b'x'; BINARY_SNIFF_BYTES + 1];
    bytes[BINARY_SNIFF_BYTES] = 0;
    assert!(!looks_binary(&bytes));
    bytes[BINARY_SNIFF_BYTES - 1] = 0;
    assert!(looks_binary(&bytes));
}

#[test]
fn comment_toggle_by_extension() {
    // The extension counts in lower case.
    let (r, write) = comment_toggle("x/Y.RS", Ok("a\nb\n".into()), 2, 2, Some(true)).unwrap();
    assert_eq!(write.unwrap(), "a\n// b\n");
    assert_eq!((r.commented, r.changed_lines, r.prefix.as_str()), (true, 1, "//"));

    assert_eq!(
        comment_toggle("notes.txt", Ok("a".into()), 1, 1, None).err().unwrap(),
        "no line comment for .txt"
    );
    assert_eq!(
        comment_toggle("Makefile", Ok("a".into()), 1, 1, None).err().unwrap(),
        "no line comment for ."
    );
    assert_eq!(
        comment_toggle("a.py", Ok("a\n".into()), 2, 2, None).err().unwrap(),
        "start line past end of file"
    );
    assert_eq!(comment_toggle("a.py", Err("gone".into()), 1, 1, None).err().unwrap(), "gone");
    // Line zero is taken for the first.
    let (_, write) = comment_toggle("a.py", Ok("a\nb\n".into()), 0, 0, Some(true)).unwrap();
    assert_eq!(write.unwrap(), "# a\nb\n");
}

#[test]
fn toggling_a_file_twice_gives_it_back() {
    let text = "fn main() {\r\n    go();\r\n}\r\n";
    let (_, write) = toggle_for_ext("rs", Ok(text.into()), 1, 3, Some(true)).unwrap();
    let once = write.unwrap();
    assert_eq!(once, "// fn main() {\r\n    // go();\r\n// }\r\n");
    let (r, write) = toggle_for_ext("rs", Ok(once), 1, 3, Some(true)).unwrap();
    assert!(!r.commented);
    assert_eq!(write.unwrap(), text);
}
