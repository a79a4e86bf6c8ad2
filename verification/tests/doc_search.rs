use editor_host::doc_collect::{
    collect_by_ext, collect_documents, collect_places, gather_hits, parts_to_drop, places_by_ext,
    reject_regex, search_all, search_all_formats, search_plan, Candidate, DocSearchOpts, DocSearchResult, OpenedDoc, PathPart,
};
use editor_host::doc_replace::{
    after_rename, after_run, is_written, office_outcome, pdf_outcome, replace_all, replace_plan, temp_name,
    DocReplaceHit, DocReplaceResult, DocSource, PageEdit, ReplaceOutcome, ReplaceStep,
};
use editor_host::doc_search::{
    classify, classify_ext, doc_ext_kind, engine_for, search_format, search_one, snippet,
    snippet_around, App, Cell, DocContent, DocHit, DocLocator, Engine, FileKind, Needle, PdfPage,
    Sheet, SNIPPET_CHARS,
};
use editor_host::paths::{ext_of, lower_extension};
use editor_host::project::{MAX_DOC_FILE_BYTES, MAX_GREP_FILE_BYTES};
use std::path::PathBuf;

type Rect = [f32; 4];

fn strings(s: &[&str]) -> Vec<String> {
    s.iter().map(|x| x.to_string()).collect()
}

fn docx(path: &str, paragraphs: &[&str]) -> OpenedDoc<Rect> {
    OpenedDoc {
        path: path.to_string(),
        rel: path.rsplit('/').next().unwrap().to_string(),
        content: Ok(DocContent::Writer(strings(paragraphs))),
    }
}

fn page(number: u32, text: &str) -> PdfPage {
    PdfPage { number, text: Some(text.to_string()) }
}

fn file(path: &str, len: Option<u64>) -> Candidate {
    let mut parts = Vec::new();
    if path.starts_with('/') {
        parts.push(PathPart { rank: 1, name: Vec::new() });
    }
    for name in path.split('/').filter(|n| !n.is_empty()) {
        parts.push(PathPart { rank: 4, name: name.as_bytes().to_vec() });
    }
    Candidate { path: path.to_string(), parts, len }
}

fn source() -> DocSource {
    DocSource { path: "/d/doc.docx".into(), rel: "doc.docx".into(), format: "docx".into() }
}

fn row(replaced: usize) -> DocReplaceHit {
    DocReplaceHit {
        path: "p".into(),
        rel: "r".into(),
        format: "docx".into(),
        replaced,
        whole_run_only: false,
    }
}

// ── kinds ──

#[test]
fn classify_puts_extension_before_the_nul_sniff() {
    // A zip package's bytes contain NULs, so the sniff alone would call it opaque.
    let nul_bytes = b"PK\x03\x04\x00\x00\x00\x00";
    assert_eq!(classify("a.docx", nul_bytes), FileKind::Office(App::Writer));
    assert_eq!(classify("a.pdf", nul_bytes), FileKind::Pdf);
    // Case-insensitive, because Windows-authored trees are full of .DOCX.
    assert_eq!(classify("a.XLSX", nul_bytes), FileKind::Office(App::Calc));
    // Unsupported binary still skips, and plain text still greps.
    assert_eq!(classify("a.bin", nul_bytes), FileKind::Opaque);
    assert_eq!(classify("a.rs", b"fn main() {}"), FileKind::Text);
    // `.csv` has no lossless replace path, so it must stay on the text branch rather than
    // being found and then failing to replace.
    assert_eq!(classify("a.csv", b"a,b,c"), FileKind::Text);
}

#[test]
fn every_document_extension_has_an_engine() {
    let table = [
        ("docx", FileKind::Office(App::Writer), Engine::Writer),
        ("odt", FileKind::Office(App::Writer), Engine::Writer),
        ("xlsx", FileKind::Office(App::Calc), Engine::Calc),
        ("ods", FileKind::Office(App::Calc), Engine::Calc),
        ("pptx", FileKind::Office(App::Impress), Engine::Impress),
        ("odp", FileKind::Office(App::Impress), Engine::Impress),
        ("pdf", FileKind::Pdf, Engine::Pdf),
    ];
    for (ext, kind, engine) in table {
        assert_eq!(doc_ext_kind(ext), Some(kind), "{ext}");
        assert_eq!(classify_ext(ext, b"\0"), kind, "{ext}");
        assert_eq!(engine_for(kind), Ok(engine), "{ext}");
    }
    for ext in ["doc", "rtf", "xls", "ppt", "odg", "odf", "odb", "csv", "DOCX", ""] {
        assert_eq!(doc_ext_kind(ext), None, "{ext}");
    }
    for kind in [FileKind::Text, FileKind::Opaque] {
        assert_eq!(engine_for(kind), Err("not a supported document format".to_string()));
    }
}

#[test]
fn extensions_of_paths() {
    assert_eq!(ext_of("a/b.c/d.TAR.Gz"), "gz");
    assert_eq!(ext_of("a.b/c"), "");
    assert_eq!(ext_of(".bashrc"), "");
    assert_eq!(ext_of("x/.config.TOML"), "toml");
    assert_eq!(ext_of("name."), "");
    assert_eq!(ext_of("a/.."), "");
    assert_eq!(ext_of("x.ÄÖ"), "äö");
    // Parts end at either separator, a drive may stand in front, and trailing slashes do
    // not count.
    assert_eq!(ext_of("C:/src/main.RS"), "rs");
    assert_eq!(ext_of("C:/src/Makefile"), "");
    assert_eq!(ext_of("C:\\proj\\a.Docx"), "docx");
    assert_eq!(ext_of("a:b/c.rs"), "rs");
    assert_eq!(ext_of("dir/main.rs/"), "rs");
    assert_eq!(ext_of("dir/main.rs/."), "rs");
    assert_eq!(ext_of("\\\\?\\C:\\d\\x.PDF"), "pdf");
    assert_eq!(ext_of("\\\\?\\UNC\\server\\share\\x.PDF"), "pdf");
    assert_eq!(ext_of("/"), "");
    assert_eq!(ext_of(""), "");
    assert_eq!(classify("C:\\proj\\a.docx", b"PK\0"), classify("a.docx", b"PK\0"));
    assert_eq!(lower_extension(Some("DocX".to_string())), "docx");
    assert_eq!(lower_extension(None), "");
}

// ── matching ──

#[test]
fn needles_go_by_case_or_not() {
    let exact = Needle::new("Name", false);
    assert!(exact.matches("getName"));
    assert!(!exact.matches("getname"));
    assert_eq!(exact.find_at("getName"), Some(3));
    assert_eq!(exact.find_at("getname"), None);
    let folded = Needle::new("NAME", true);
    assert_eq!(folded.text, "name");
    assert!(folded.matches("getName"));
    assert_eq!(folded.find_at("éName"), Some(2));
    // Beyond ASCII as well.
    assert!(Needle::new("ÄRGER", true).matches("kein Ärger"));
    assert!(!Needle::new("ÄRGER", false).matches("kein Ärger"));
    assert!(Needle::new("", false).matches(""));
}

#[test]
fn snippets_are_trimmed_and_capped() {
    assert_eq!(snippet("  a b \n"), "a b");
    assert_eq!(snippet(" \t"), "");
    let long: String = "é".repeat(SNIPPET_CHARS + 5);
    assert_eq!(snippet(&long), "é".repeat(SNIPPET_CHARS));
}

#[test]
fn snippets_around_a_match_show_it() {
    let text = format!("{}needle{}", "é".repeat(400), " x".repeat(400));
    let at = Needle::new("needle", false).find_at(&text).unwrap();
    assert_eq!(at, 800);
    let shown = snippet_around(&text, at);
    // A hundred bytes are fifty characters here.
    assert!(shown.starts_with(&format!("{}needle x", "é".repeat(50))));
    assert_eq!(shown.chars().count(), SNIPPET_CHARS);
    // The window starts at a boundary between characters, or steps back to one.
    let even = format!("a{}needle", "é".repeat(60));
    assert_eq!(snippet_around(&even, 121), format!("{}needle", "é".repeat(50)));
    let odd = format!("{}bneedle", "é".repeat(60));
    assert_eq!(snippet_around(&odd, 121), format!("{}bneedle", "é".repeat(50)));
    // Near the start, and behind the end.
    assert_eq!(snippet_around("short needle", 6), "short needle");
    assert_eq!(snippet_around("short", 5000), "");
    assert_eq!(snippet_around("", 0), "");
}

#[test]
fn snippets_show_long_queries_whatever_the_case() {
    let query = "Q".repeat(300);
    let text = format!("{}{}{}", "- ".repeat(90), query.to_lowercase(), "- ".repeat(90));
    let needle = Needle::new(&query, true);
    let at = needle.find_at(&text).unwrap();
    assert!(needle.matches(&snippet_around(&text, at)));
}

// ── one document ──

#[test]
fn hits_in_every_format() {
    let needle = Needle::new("alpha", false);

    let content: DocContent<Rect> =
        DocContent::Writer(strings(&["alpha beta", "none", " gamma alpha "]));
    let hits = search_one("/d/x.docx", "x.docx", Ok(content), &needle).unwrap();
    let places: Vec<DocLocator<Rect>> = hits.iter().map(|h| h.locator.clone()).collect();
    assert_eq!(
        places,
        [DocLocator::Paragraph { index: 0 }, DocLocator::Paragraph { index: 2 }]
    );
    assert_eq!(hits[1].text, "gamma alpha");
    assert_eq!(
        (hits[0].path.as_str(), hits[0].rel.as_str(), hits[0].format.as_str()),
        ("/d/x.docx", "x.docx", "docx")
    );

    let cell = |reference: &str, value: &str| Cell {
        reference: reference.to_string(),
        value: value.to_string(),
    };
    let sheets = vec![
        Sheet { name: "One".into(), rows: vec![vec![cell("A1", "x")], vec![cell("B2", "alpha")]] },
        Sheet {
            name: "Two".into(),
            rows: vec![vec![cell("A1", "alphabet"), cell("C1", "an alpha")]],
        },
    ];
    let content: DocContent<Rect> = DocContent::Calc(sheets);
    let hits = search_one("b.XLSX", "b.XLSX", Ok(content), &needle).unwrap();
    assert_eq!(hits[0].format, "xlsx");
    let places: Vec<DocLocator<Rect>> = hits.iter().map(|h| h.locator.clone()).collect();
    let place = |sheet: usize, sheet_name: &str, reference: &str| DocLocator::Cell {
        sheet,
        sheet_name: sheet_name.to_string(),
        reference: reference.to_string(),
    };
    assert_eq!(places, [place(0, "One", "B2"), place(1, "Two", "A1"), place(1, "Two", "C1")]);

    let slides = vec![strings(&["no"]), strings(&["alpha", "x", "alpha again"])];
    let content: DocContent<Rect> = DocContent::Impress(slides);
    let hits = search_one("c.odp", "c.odp", Ok(content), &needle).unwrap();
    assert_eq!(hits.len(), 2);
    assert!(hits.iter().all(|h| h.locator == DocLocator::Slide { index: 1 }));
    assert_eq!(hits[1].text, "alpha again");
}

#[test]
fn pdf_hits_come_page_by_page() {
    let needle = Needle::new("alpha", false);
    let rect = |x: f32| [x, 700.0, x + 10.0, 720.0];
    let content = DocContent::Pdf {
        pages: vec![
            page(3, "alpha three"),
            PdfPage { number: 2, text: None },
            page(10, "alpha ten"),
            page(1, "one alpha alpha"),
            page(4, "none"),
        ],
        rects: vec![(3, rect(1.0)), (1, rect(2.0)), (3, rect(3.0))],
    };
    let hits = search_format("d.pdf", "d.pdf", "pdf", Ok(content), &needle).unwrap();
    let places: Vec<DocLocator<Rect>> = hits.iter().map(|h| h.locator.clone()).collect();
    // In the order of their numbers, one hit a page, with the first place known there.
    assert_eq!(
        places,
        [
            DocLocator::Page { page: 1, rect: Some(rect(2.0)) },
            DocLocator::Page { page: 3, rect: Some(rect(1.0)) },
            DocLocator::Page { page: 10, rect: None },
        ]
    );
    assert_eq!(hits[0].text, "one alpha alpha");
}

#[test]
fn a_hit_stands_without_a_place() {
    let search = |rects: Vec<(u32, Rect)>| {
        let content = DocContent::Pdf { pages: vec![page(1, "an Alpha")], rects };
        search_format("d.pdf", "d.pdf", "pdf", Ok(content), &Needle::new("Alpha", false)).unwrap()
    };
    let without = search(Vec::new());
    let with = search(vec![(1, [0.0; 4]), (2, [1.0; 4])]);
    assert_eq!((without.len(), with.len()), (1, 1));
    assert_eq!(without[0].text, with[0].text);
    assert_eq!(without[0].locator, DocLocator::Page { page: 1, rect: None });
    assert_eq!(with[0].locator, DocLocator::Page { page: 1, rect: Some([0.0; 4]) });
}

#[test]
fn a_document_that_cannot_be_read() {
    let content: Result<DocContent<Rect>, String> = Err("not a zip".into());
    let err = search_one("a.docx", "a.docx", content, &Needle::new("x", false)).err().unwrap();
    assert_eq!(err, "not a zip");
}

// ── all documents ──

#[test]
fn regex_query_is_rejected_for_documents() {
    let o = DocSearchOpts { regex: Some(true), ..Default::default() };
    // Every engine `find` is a substring scan. Matching a regex literally would return a
    // confidently wrong answer, so the query is refused instead.
    let err = search_all("alph.*", &o, vec![docx("/d/doc.docx", &["alpha beta"])])
        .err()
        .expect("regex must be rejected");
    assert!(err.contains("literal"), "unhelpful message: {err}");
    let err = replace_all("alph.*", false, &o, vec![]).err().expect("regex must be rejected");
    assert!(err.contains("literal"), "unhelpful message: {err}");

    assert_eq!(
        err,
        "document search is literal-only: the office and pdf engines match substrings, \
         not regular expressions. Clear the regex option to search documents."
    );
    assert_eq!(reject_regex(&o).err().unwrap(), err);
    assert_eq!(search_plan("", &o).err().unwrap(), err);
    assert_eq!(replace_plan("", &o).err().unwrap(), err);
    assert!(reject_regex(&DocSearchOpts { regex: Some(false), ..Default::default() }).is_ok());
}

#[test]
fn parse_failure_is_reported_not_swallowed() {
    let broken = OpenedDoc {
        path: "/d/broken.docx".to_string(),
        rel: "broken.docx".to_string(),
        content: Err("invalid Zip archive".to_string()),
    };
    let res = search_all(
        "alpha",
        &DocSearchOpts::default(),
        vec![broken, docx("/d/good.docx", &["alpha beta"])],
    )
    .expect("search");
    // The corrupt file is named, with the engine's own message.
    assert_eq!(res.errors.len(), 1, "errors: {:?}", res.errors);
    assert!(res.errors[0].0.ends_with("broken.docx"), "wrong file: {:?}", res.errors[0]);
    assert!(!res.errors[0].1.is_empty(), "error message was empty");
    // And it did not abort the pass: the healthy document still produced its hit.
    assert_eq!(res.hits.len(), 1, "good.docx hit was lost: {res:?}");
}

#[test]
fn searches_are_planned_from_the_request() {
    let plan = search_plan("Alpha", &DocSearchOpts::default()).unwrap().unwrap();
    assert_eq!((plan.needle.text.as_str(), plan.needle.fold), ("Alpha", false));
    assert_eq!((plan.show_hidden, plan.max), (false, 1000));
    let opts = DocSearchOpts {
        show_hidden: Some(true),
        max_results: Some(50_000),
        case_insensitive: Some(true),
        ..Default::default()
    };
    let plan = search_plan("Alpha", &opts).unwrap().unwrap();
    assert_eq!((plan.needle.text.as_str(), plan.needle.fold), ("alpha", true));
    assert_eq!((plan.show_hidden, plan.max), (true, 20_000));
    assert!(search_plan("", &opts).unwrap().is_none());
}

#[test]
fn an_empty_query_finds_nothing() {
    let res =
        search_all("", &DocSearchOpts::default(), vec![docx("a.docx", &["alpha"])]).unwrap();
    assert!(res.hits.is_empty() && !res.truncated && res.errors.is_empty());
    let none: DocSearchResult<Rect> = DocSearchResult::default();
    assert!(none.hits.is_empty() && !none.truncated && none.errors.is_empty());
}

#[test]
fn hits_are_cut_at_the_limit_and_errors_are_not() {
    let broken = || OpenedDoc {
        path: "z.docx".to_string(),
        rel: "z.docx".to_string(),
        content: Err("broken".to_string()),
    };
    let docs = || {
        vec![
            docx("a.docx", &["x", "x", "x"]),
            broken(),
            docx("b.docx", &["x", "x"]),
            broken(),
        ]
    };
    let limit = |max: usize| DocSearchOpts { max_results: Some(max), ..Default::default() };
    for (max, hits, truncated) in
        [(0, 0, true), (2, 2, true), (3, 3, true), (4, 4, true), (5, 5, false), (6, 5, false)]
    {
        let res = search_all("x", &limit(max), docs()).unwrap();
        assert_eq!((res.hits.len(), res.truncated), (hits, truncated), "limit {max}");
        assert_eq!(res.errors.len(), 2);
    }
    let paths: Vec<String> =
        search_all("x", &limit(4), docs()).unwrap().hits.into_iter().map(|h| h.path).collect();
    assert_eq!(paths, ["a.docx", "a.docx", "a.docx", "b.docx"]);
}

#[test]
fn case_counts_unless_the_request_says_otherwise() {
    let docs = || vec![docx("a.docx", &["ALPHA"])];
    assert!(search_all("alpha", &DocSearchOpts::default(), docs()).unwrap().hits.is_empty());
    let opts = DocSearchOpts { case_insensitive: Some(true), ..Default::default() };
    assert_eq!(search_all("alpha", &opts, docs()).unwrap().hits.len(), 1);
}

#[test]
fn formats_can_be_given() {
    let res = search_all_formats(
        "x",
        &DocSearchOpts::default(),
        vec![docx("a", &["x"])],
        &strings(&["odt"]),
    )
    .unwrap();
    assert_eq!(res.hits[0].format, "odt");
}

#[test]
fn documents_do_not_influence_each_other() {
    let hit = |path: &str| DocHit::<Rect> {
        path: path.to_string(),
        rel: path.to_string(),
        format: "docx".to_string(),
        locator: DocLocator::Paragraph { index: 0 },
        text: "x".to_string(),
    };
    let res = gather_hits(
        vec![Ok(vec![hit("a"), hit("b")]), Err(("e".into(), "m".into())), Ok(vec![hit("c")])],
        10,
    );
    let paths: Vec<&str> = res.hits.iter().map(|h| h.path.as_str()).collect();
    assert_eq!(paths, ["a", "b", "c"]);
    assert_eq!(res.errors, [("e".to_string(), "m".to_string())]);
}

// ── collecting ──

#[test]
fn oversized_document_uses_the_document_cap() {
    // Larger than the text cap (4 MiB), far below the document cap (64 MiB): the size of
    // an entirely ordinary real-world spreadsheet.
    let size = MAX_GREP_FILE_BYTES + 1024 * 1024;
    let docs = collect_documents(&vec![file("/d/big.xlsx", Some(size))], &None);
    assert_eq!(docs.len(), 1, "document cap excluded an ordinary-sized file: {docs:?}");
    assert_eq!(docs[0].0, "/d/big.xlsx");
    assert_eq!(docs[0].1, FileKind::Office(App::Calc));

    // Above the document cap it is excluded, so the cap is real and not merely absent.
    assert!(MAX_DOC_FILE_BYTES > MAX_GREP_FILE_BYTES);
    assert!(collect_documents(&vec![file("/d/b.xlsx", Some(MAX_DOC_FILE_BYTES + 1))], &None)
        .is_empty());
    assert_eq!(
        collect_documents(&vec![file("/d/b.xlsx", Some(MAX_DOC_FILE_BYTES))], &None).len(),
        1
    );
}

#[test]
fn documents_are_filtered_and_sorted() {
    let files = vec![
        file("/d/b.docx", Some(1)),
        file("/d/a/z.pdf", Some(1)),
        file("/d/a.ODT", Some(1)),
        file("/d/c.txt", Some(1)),
        file("/d/gone.docx", None),
        file("/d/a/b.pptx", Some(1)),
    ];
    let paths = |formats: Option<Vec<String>>| -> Vec<String> {
        collect_documents(&files, &formats).into_iter().map(|d| d.0).collect()
    };
    // Component by component: "a" comes before "a.ODT", and so do its files.
    assert_eq!(paths(None), ["/d/a/b.pptx", "/d/a/z.pdf", "/d/a.ODT", "/d/b.docx"]);
    assert_eq!(paths(Some(strings(&["PDF", "docx"]))), ["/d/a/z.pdf", "/d/b.docx"]);
    assert!(paths(Some(Vec::new())).is_empty());
    assert_eq!(
        collect_by_ext(&files, &strings(&["pdf", "x", "x", "x", "x", "x"]), &None),
        [("/d/b.docx".to_string(), FileKind::Pdf)]
    );
}

#[test]
fn the_order_of_documents_is_that_of_their_paths() {
    let names = ["/b/a.pdf", "/a.pdf", "/a/b.pdf", "/a-/c.pdf", "/a/a/a.pdf", "/Z.pdf", "/é.pdf"];
    let mut expected: Vec<PathBuf> = names.iter().map(PathBuf::from).collect();
    expected.sort();
    for turn in 0..names.len() {
        let mut files: Vec<Candidate> = names.iter().map(|n| file(n, Some(1))).collect();
        files.rotate_left(turn);
        let got: Vec<PathBuf> =
            collect_documents(&files, &None).into_iter().map(|d| PathBuf::from(d.0)).collect();
        assert_eq!(got, expected, "rotated by {turn}");
    }
}

#[test]
fn documents_are_told_apart_by_their_places() {
    // Two names that are not valid text can read the same.
    let raw = |byte: u8| Candidate {
        path: "/d/\u{fffd}.pdf".to_string(),
        parts: vec![
            PathPart { rank: 1, name: Vec::new() },
            PathPart { rank: 4, name: b"d".to_vec() },
            PathPart { rank: 4, name: vec![byte, b'.', b'p', b'd', b'f'] },
        ],
        len: Some(1),
    };
    let files = vec![raw(0xff), file("/d/c.txt", Some(1)), raw(0xfe), file("/d/a.docx", Some(1))];
    let docx = FileKind::Office(App::Writer);
    let places = collect_places(&files, &None);
    assert_eq!(places.iter().map(|p| p.0).collect::<Vec<usize>>(), [3, 2, 0]);
    assert_eq!(places[1..], [(2, FileKind::Pdf), (0, FileKind::Pdf)]);
    let listed: Vec<(String, FileKind)> =
        places.iter().map(|p| (files[p.0].path.clone(), p.1)).collect();
    assert_eq!(collect_documents(&files, &None), listed);
    assert_eq!(
        places_by_ext(&files, &strings(&["docx", "docx", "x", "x"]), &None),
        [(1, docx), (0, docx)]
    );
}

#[test]
fn paths_are_told_from_the_root() {
    let parts = |path: &str| file(path, None).parts;
    assert_eq!(parts_to_drop(&parts("/d/a/b.docx"), &parts("/d/a")), Some(3));
    assert_eq!(parts_to_drop(&parts("/d/a"), &parts("/d/a")), Some(3));
    assert_eq!(parts_to_drop(&parts("d/a"), &parts("")), Some(0));
    assert_eq!(parts_to_drop(&parts("/d/ab"), &parts("/d/a")), None);
    assert_eq!(parts_to_drop(&parts("/d"), &parts("/d/a")), None);
    assert_eq!(parts_to_drop(&parts("d/a"), &parts("/d")), None);
    for (path, root) in [("/d/a/b", "/d"), ("/d/ab", "/d/a"), ("x/y", "x"), ("x", "y")] {
        assert_eq!(
            parts_to_drop(&parts(path), &parts(root)).is_some(),
            PathBuf::from(path).strip_prefix(root).is_ok(),
            "{path} {root}"
        );
    }
}

// ── replacing ──

#[test]
fn replace_lossless_preserves_unmodeled_parts_byte_for_byte() {
    // The engine rewrote two occurrences in one document, and its file takes the place of
    // the document.
    let outcome = office_outcome(2);
    assert!(matches!(after_run(&source(), Ok(outcome), true, true), ReplaceStep::Rename));
    let (remove, end) = after_rename(&source(), outcome, Ok(()));
    assert!(!remove);
    let res = replace_all("alpha", true, &DocSearchOpts::default(), vec![end]).expect("replace");
    assert_eq!(res.total, 2, "occurrences replaced: {res:?}");
    assert_eq!(res.files, 1);
    assert!(res.applied);
}

#[test]
fn dry_run_writes_nothing() {
    // The count is measured by an engine that really rewrote the document.
    let outcome = office_outcome(2);
    let step = after_run(&source(), Ok(outcome), true, false);
    // The temporary file is removed, and the document keeps its place.
    let ReplaceStep::Finish(Ok(Some(hit))) = step else {
        panic!("a dry run must not rename: {step:?}");
    };
    assert_eq!(hit.replaced, 2);
    let res = replace_all("alpha", false, &DocSearchOpts::default(), vec![Ok(Some(hit))])
        .expect("dry run");
    assert_eq!(res.total, 2, "dry run must still count: {res:?}");
    assert!(!res.applied);
}

#[test]
fn pdf_substring_hit_is_reported_but_not_silently_replaced() {
    // Search matches substrings.
    let content = DocContent::Pdf {
        pages: vec![page(1, "getUserNameFromDb")],
        rects: vec![(1, [72.0, 700.0, 280.0, 724.0])],
    };
    let doc =
        OpenedDoc { path: "/d/report.pdf".into(), rel: "report.pdf".into(), content: Ok(content) };
    let found = search_all("getUserName", &DocSearchOpts::default(), vec![doc]).expect("search");
    assert_eq!(found.hits.len(), 1, "pdf search hits: {found:?}");
    assert_eq!(found.hits[0].format, "pdf");
    let DocLocator::Page { page, rect } = &found.hits[0].locator else {
        panic!("pdf hit must carry a page locator: {:?}", found.hits[0]);
    };
    assert_eq!(*page, 1);
    let rect = rect.expect("run rect must resolve for a positioned run");
    assert!(rect[0] >= 71.0 && rect[0] <= 73.0, "rect x: {rect:?}");
    assert!(rect[1] >= 690.0 && rect[1] <= 705.0, "rect y: {rect:?}");
    assert!(rect[2] > rect[0], "rect must have width: {rect:?}");

    // Replace matches whole runs only, so the page stays as it is. It is still reported,
    // with an honest zero.
    let edit = PageEdit {
        before: Some("getUserNameFromDb".into()),
        after: Some("getUserNameFromDb".into()),
    };
    let outcome = pdf_outcome(&vec![edit], "getUserName");
    let pdf = DocSource {
        path: "/d/report.pdf".into(),
        rel: "report.pdf".into(),
        format: "pdf".into(),
    };
    let ReplaceStep::Finish(end) = after_run(&pdf, Ok(outcome), false, false) else {
        panic!("nothing to rename");
    };
    let res =
        replace_all("getUserName", false, &DocSearchOpts::default(), vec![end]).expect("replace");
    assert_eq!(res.total, 0, "substring must not be replaced: {res:?}");
    assert_eq!(res.files, 0, "no file was changed");
    assert_eq!(res.hits.len(), 1, "the unreplaceable match must still be listed");
    assert_eq!(res.hits[0].replaced, 0);
    assert!(res.hits[0].whole_run_only, "pdf rows must declare whole-run semantics");
}

#[test]
fn pdf_whole_run_match_is_replaced_and_counted() {
    let edit = PageEdit { before: Some("getUserName".into()), after: Some("getUser".into()) };
    let outcome = pdf_outcome(&vec![edit], "getUserName");
    assert_eq!(
        outcome,
        ReplaceOutcome { replaced: 1, whole_run_only: true, matched_but_unreplaced: false }
    );
    assert!(matches!(after_run(&source(), Ok(outcome), true, true), ReplaceStep::Rename));
    let (remove, end) = after_rename(&source(), outcome, Ok(()));
    assert!(!remove);
    let res =
        replace_all("getUserName", true, &DocSearchOpts::default(), vec![end]).expect("replace");
    assert_eq!(res.total, 1, "whole-run match must be replaced: {res:?}");
    assert_eq!(res.files, 1);
    assert!(res.applied);
}

#[test]
fn pages_count_where_their_text_changed() {
    let edit = |before: Option<&str>, after: Option<&str>| PageEdit {
        before: before.map(|s| s.to_string()),
        after: after.map(|s| s.to_string()),
    };
    let outcome = pdf_outcome(
        &vec![
            edit(Some("a"), Some("b")),
            edit(Some("a"), Some("a")),
            edit(None, None),
            edit(None, Some("")),
            edit(Some("x"), None),
        ],
        "a",
    );
    assert_eq!((outcome.replaced, outcome.matched_but_unreplaced), (2, false));
    let outcome = pdf_outcome(&vec![edit(Some("b"), Some("b")), edit(None, None)], "a");
    assert_eq!((outcome.replaced, outcome.matched_but_unreplaced), (0, false));
    let outcome = pdf_outcome(&vec![edit(Some("b"), Some("b")), edit(Some("ca"), Some("ca"))], "a");
    assert_eq!((outcome.replaced, outcome.matched_but_unreplaced), (0, true));
    assert!(outcome.whole_run_only);
    // No page changed, so nothing is saved.
    assert!(!is_written(&outcome));
    assert!(is_written(&office_outcome(1)) && !is_written(&office_outcome(0)));
}

#[test]
fn what_becomes_of_a_document() {
    // The engine failed.
    let step = after_run(&source(), Err("engine".into()), true, true);
    assert!(matches!(step, ReplaceStep::Finish(Err((p, e))) if p == "/d/doc.docx" && e == "engine"));
    // Nothing matched, or the engine left no file.
    for (n, exists) in [(0, true), (0, false), (3, false)] {
        let step = after_run(&source(), Ok(office_outcome(n)), exists, true);
        assert!(matches!(step, ReplaceStep::Finish(Ok(None))), "{n} {exists}");
    }
    // The temporary file could not take its place: it is removed, and the error says so.
    let (remove, end) = after_rename(&source(), office_outcome(3), Err("denied".into()));
    assert!(remove);
    let (path, message) = end.err().unwrap();
    assert_eq!((path.as_str(), message.as_str()), ("/d/doc.docx", "rename into place: denied"));
    // It took its place.
    let (remove, end) = after_rename(&source(), office_outcome(3), Ok(()));
    assert!(!remove);
    let hit = end.unwrap().unwrap();
    assert_eq!((hit.replaced, hit.whole_run_only), (3, false));
    assert_eq!(
        (hit.path.as_str(), hit.rel.as_str(), hit.format.as_str()),
        ("/d/doc.docx", "doc.docx", "docx")
    );
}

#[test]
fn replacements_are_summed_up() {
    let per_file = vec![
        Ok(Some(row(2))),
        Ok(None),
        Err(("bad".to_string(), "why".to_string())),
        Ok(Some(row(0))),
        Ok(Some(row(5))),
    ];
    let opts = DocSearchOpts { case_insensitive: Some(true), ..Default::default() };
    let res = replace_all("x", true, &opts, per_file).unwrap();
    assert_eq!((res.total, res.files, res.hits.len()), (7, 2, 3));
    assert!(res.applied);
    assert_eq!(res.errors, [("bad".to_string(), "why".to_string())]);
    assert_eq!(
        res.case_note.unwrap(),
        "Document replace is case-sensitive: the lossless package rewrite edits raw XML text \
         nodes. Case-insensitive search hits whose case differs from the query are reported \
         above but were not replaced."
    );
    let res = replace_all("x", true, &DocSearchOpts::default(), vec![Ok(Some(row(1)))]).unwrap();
    assert!(res.case_note.is_none());
}

#[test]
fn an_empty_query_replaces_nothing() {
    let opts = DocSearchOpts { case_insensitive: Some(true), ..Default::default() };
    assert_eq!(replace_plan("", &opts), Ok(false));
    assert_eq!(replace_plan("x", &opts), Ok(true));
    for res in [replace_all("", true, &opts, vec![Ok(Some(row(1)))]).unwrap(), DocReplaceResult::default()] {
        assert!(res.hits.is_empty() && res.errors.is_empty() && res.case_note.is_none());
        assert_eq!((res.total, res.files, res.applied), (0, 0, false));
    }
}

#[test]
fn temporary_files_have_names_of_their_own() {
    assert_eq!(temp_name(Some("a.docx"), 42), ".zmax-doc-42-a.docx.tmp");
    assert_eq!(temp_name(None, 4_294_967_295), ".zmax-doc-4294967295-doc.tmp");
    assert_ne!(temp_name(Some("1-a"), 1), temp_name(Some("a"), 11));
    assert_ne!(temp_name(Some("2-a"), 1), temp_name(Some("a"), 12));
}
