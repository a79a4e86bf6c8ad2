//! Replacing a text in documents.
//!
//! A document is rewritten into a temporary file beside it, and only that file is ever
//! written. Where the change is to be kept, it then takes the place of the document in
//! one step; else it is removed.

use crate::doc_collect;
use crate::doc_collect::DocSearchOpts;
use crate::text;
use vstd::prelude::*;
use vstd::string::StringExecFns;

verus! {

// ── what an engine did ──────────────────────────────────────────────────────────

/// What an engine did to one document.
#[derive(Debug, Clone, Copy, PartialEq, Eq, Structural)]
pub struct ReplaceOutcome {
    /// How many occurrences were replaced; for a PDF, how many pages changed.
    pub replaced: usize,
    /// Only whole runs of text can match, as in a PDF.
    pub whole_run_only: bool,
    /// The document holds the text, but none of it could be replaced.
    pub matched_but_unreplaced: bool,
}

/// What an office engine did to a document, told by how much it replaced.
pub open spec fn office_result(n: usize) -> ReplaceOutcome {
    ReplaceOutcome { replaced: n, whole_run_only: false, matched_but_unreplaced: false }
}

/// What it means that an office engine replaced `n` occurrences: it rewrites text as it
/// stands, so whatever matches can be replaced.
pub fn office_outcome(n: usize) -> (r: ReplaceOutcome)
    ensures
        r == office_result(n),
{
    ReplaceOutcome { replaced: n, whole_run_only: false, matched_but_unreplaced: false }
}

/// The text of a page before a replacement and after it, where it could be extracted.
#[derive(Debug)]
pub struct PageEdit {
    pub before: Option<String>,
    pub after: Option<String>,
}

/// The text of a page; nothing where it could not be extracted.
pub open spec fn page_text(s: Option<String>) -> Seq<char> {
    match s {
        Some(s) => s@,
        None => Seq::empty(),
    }
}

/// The text of a page is another than before.
pub open spec fn page_changed(page: PageEdit) -> bool {
    page_text(page.before) != page_text(page.after)
}

/// How many pages changed.
pub open spec fn changed_pages(pages: Seq<PageEdit>) -> nat
    decreases pages.len(),
{
    if pages.len() == 0 {
        0
    } else {
        changed_pages(pages.drop_last()) + (if page_changed(pages.last()) {
            1nat
        } else {
            0
        })
    }
}

/// A page held the text before.
pub open spec fn page_held(page: PageEdit, find: Seq<char>) -> bool {
    text::contains(page_text(page.before), find)
}

/// Some page held the text before.
pub open spec fn any_page_held(pages: Seq<PageEdit>, find: Seq<char>) -> bool {
    exists|i: int| 0 <= i < pages.len() && page_held(#[trigger] pages[i], find)
}

/// What it means that a PDF engine made of some pages what they are now. Its own count is
/// not to be relied on: a page counts as changed only if its text did.
pub open spec fn pdf_result(pages: Seq<PageEdit>, find: Seq<char>) -> (nat, bool) {
    (changed_pages(pages), changed_pages(pages) == 0 && any_page_held(pages, find))
}

/// Whether a text of a page is the same as another.
fn same_page_text(a: &Option<String>, b: &Option<String>) -> (r: bool)
    ensures
        r == (page_text(*a) == page_text(*b)),
{
    match (a, b) {
        (Some(x), Some(y)) => text::same_text(x.as_str(), y.as_str()),
        (Some(x), None) => {
            let r: bool = x.as_str().is_empty();
            assert(r ==> x@ =~= Seq::empty());
            r
        },
        (None, Some(y)) => {
            let r: bool = y.as_str().is_empty();
            assert(r ==> y@ =~= Seq::empty());
            r
        },
        (None, None) => true,
    }
}

/// What a PDF engine did to a document, told by the text of its pages.
pub open spec fn is_pdf_outcome(pages: Seq<PageEdit>, find: Seq<char>, r: ReplaceOutcome) -> bool {
    &&& (r.replaced as nat, r.matched_but_unreplaced) == pdf_result(pages, find)
    &&& r.whole_run_only
}

/// What a PDF engine did to a document, told by the text of its pages.
pub fn pdf_outcome(pages: &Vec<PageEdit>, find: &str) -> (r: ReplaceOutcome)
    ensures
        is_pdf_outcome(pages@, find@, r),
{
    let mut replaced: usize = 0;
    let mut held: bool = false;
    let mut i: usize = 0;
    while i < pages.len()
        invariant
            i <= pages@.len(),
            replaced <= i,
            replaced == changed_pages(pages@.take(i as int)),
            held <==> exists|k: int| 0 <= k < i && page_held(#[trigger] pages@[k], find@),
        decreases pages@.len() - i,
    {
        proof {
            assert(pages@.take(i + 1).drop_last() =~= pages@.take(i as int));
            assert(pages@.take(i + 1).last() == pages@[i as int]);
        }
        let page: &PageEdit = &pages[i];
        if !same_page_text(&page.before, &page.after) {
            replaced += 1;
        }
        let here: bool = match &page.before {
            Some(t) => text::has_text(t.as_str(), find),
            None => find.is_empty(),
        };
        proof {
            if page.before is None {
                lemma_in_empty(find@);
            }
            assert(here == page_held(pages@[i as int], find@));
        }
        held = held || here;
        i += 1;
    }
    assert(pages@.take(pages@.len() as int) =~= pages@);
    ReplaceOutcome {
        replaced,
        whole_run_only: true,
        matched_but_unreplaced: replaced == 0 && held,
    }
}

/// Whether the edited pages are saved: a PDF of which no page changed is not written.
pub fn is_written(outcome: &ReplaceOutcome) -> (r: bool)
    ensures
        r == (outcome.replaced > 0),
{
    outcome.replaced > 0
}

/// The empty text holds the empty text alone.
proof fn lemma_in_empty(find: Seq<char>)
    ensures
        text::contains(Seq::empty(), find) <==> find.len() == 0,
{
    let s = Seq::<char>::empty();
    if find.len() == 0 {
        assert(s.subrange(0, 0) =~= find);
        assert(text::occurs_at(s, find, 0));
    }
}

// ── the temporary file ──────────────────────────────────────────────────────────

/// The name of the temporary file beside a document.
pub open spec fn temp_name_of(name: Seq<char>, pid: u32) -> Seq<char> {
    ".zmax-doc-"@ + text::decimal(pid as nat) + seq!['-'] + name + ".tmp"@
}

/// The name of a document; a document without one is called so.
pub open spec fn document_name(name: Option<&str>) -> Seq<char> {
    match name {
        Some(n) => n@,
        None => "doc"@,
    }
}

/// The name of the temporary file beside a document. The process and the name of the
/// document make it up, so that no two of them meet.
pub fn temp_name(name: Option<&str>, pid: u32) -> (r: String)
    ensures
        r@ == temp_name_of(document_name(name), pid),
{
    let mut r = ".zmax-doc-".to_owned();
    r.append(text::decimal_text(pid as u64).as_str());
    r.push('-');
    assert(r@ =~= ".zmax-doc-"@ + text::decimal(pid as nat) + seq!['-']);
    match name {
        Some(n) => r.append(n),
        None => r.append("doc"),
    }
    r.append(".tmp");
    r
}

// ── one document ────────────────────────────────────────────────────────────────

/// A document in which a text is replaced.
#[derive(Debug)]
pub struct DocSource {
    pub path: String,
    /// The path from the directory that was searched.
    pub rel: String,
    /// The extension of the document, in lower case.
    pub format: String,
}

/// What became of one document.
#[derive(Debug)]
pub struct DocReplaceHit {
    pub path: String,
    pub rel: String,
    pub format: String,
    /// How many occurrences were replaced; for a PDF, how many pages changed.
    pub replaced: usize,
    /// Only whole runs of text can match, as in a PDF.
    pub whole_run_only: bool,
}

/// What became of one document, as a mathematical value.
#[verifier::ext_equal]
pub struct Row {
    pub path: Seq<char>,
    pub rel: Seq<char>,
    pub format: Seq<char>,
    pub replaced: nat,
    pub whole_run_only: bool,
}

impl View for DocReplaceHit {
    type V = Row;

    open spec fn view(&self) -> Row {
        Row {
            path: self.path@,
            rel: self.rel@,
            format: self.format@,
            replaced: self.replaced as nat,
            whole_run_only: self.whole_run_only,
        }
    }
}

/// The row of a document.
pub open spec fn row_of(source: DocSource, replaced: nat, whole_run_only: bool) -> Row {
    Row {
        path: source.path@,
        rel: source.rel@,
        format: source.format@,
        replaced,
        whole_run_only,
    }
}

/// What a document ends with: a row, nothing where it does not hold the text, or its path
/// and what went wrong.
pub open spec fn ending_view(r: Result<Option<DocReplaceHit>, (String, String)>) -> Result<
    Option<Row>,
    (Seq<char>, Seq<char>),
> {
    match r {
        Ok(Some(hit)) => Ok(Some(hit@)),
        Ok(None) => Ok(None),
        Err(e) => Err((e.0@, e.1@)),
    }
}

/// What to do once an engine has run on a document.
#[derive(Debug)]
pub enum ReplaceStep {
    /// Remove the temporary file; this is what the document ends with.
    Finish(Result<Option<DocReplaceHit>, (String, String)>),
    /// Put the temporary file in the place of the document, and ask again.
    Rename,
}

/// The temporary file takes the place of the document: the change is to be kept, and there
/// is one.
pub open spec fn is_kept(
    run: Result<ReplaceOutcome, String>,
    out_exists: bool,
    apply: bool,
) -> bool {
    apply && run is Ok && run->Ok_0.replaced > 0 && out_exists
}

/// What a document ends with when its temporary file is removed.
pub open spec fn discarded(
    source: DocSource,
    run: Result<ReplaceOutcome, String>,
    out_exists: bool,
) -> Result<Option<Row>, (Seq<char>, Seq<char>)> {
    match run {
        Err(e) => Err((source.path@, e@)),
        Ok(o) => if o.replaced > 0 && out_exists {
            Ok(Some(row_of(source, o.replaced as nat, o.whole_run_only)))
        } else if o.matched_but_unreplaced {
            Ok(Some(row_of(source, 0, o.whole_run_only)))
        } else {
            Ok(None)
        },
    }
}

/// The row of a document.
fn make_row(source: &DocSource, replaced: usize, whole_run_only: bool) -> (r: DocReplaceHit)
    ensures
        r@ == row_of(*source, replaced as nat, whole_run_only),
{
    DocReplaceHit {
        path: source.path.clone(),
        rel: source.rel.clone(),
        format: source.format.clone(),
        replaced,
        whole_run_only,
    }
}

/// What is to be done with a document once an engine has run on it.
pub open spec fn is_step_after(
    source: DocSource,
    run: Result<ReplaceOutcome, String>,
    out_exists: bool,
    apply: bool,
    r: ReplaceStep,
) -> bool {
    match r {
        ReplaceStep::Rename => is_kept(run, out_exists, apply),
        ReplaceStep::Finish(end) => !is_kept(run, out_exists, apply) && ending_view(end)
            == discarded(source, run, out_exists),
    }
}

/// What to do with a document, from what the engine did or what went wrong in it, whether
/// it left a temporary file, and whether the change is to be kept.
pub fn after_run(
    source: &DocSource,
    run: Result<ReplaceOutcome, String>,
    out_exists: bool,
    apply: bool,
) -> (r: ReplaceStep)
    ensures
        is_step_after(*source, run, out_exists, apply, r),
{
    let outcome = match run {
        Ok(outcome) => outcome,
        Err(e) => {
            return ReplaceStep::Finish(Err((source.path.clone(), e)));
        },
    };
    if outcome.replaced == 0 || !out_exists {
        if !outcome.matched_but_unreplaced {
            return ReplaceStep::Finish(Ok(None));
        }
        return ReplaceStep::Finish(Ok(Some(make_row(source, 0, outcome.whole_run_only))));
    }
    if apply {
        ReplaceStep::Rename
    } else {
        ReplaceStep::Finish(
            Ok(Some(make_row(source, outcome.replaced, outcome.whole_run_only))),
        )
    }
}

/// What a document ends with once its temporary file was to take its place.
pub open spec fn renamed_end(
    source: DocSource,
    outcome: ReplaceOutcome,
    rename: Result<(), String>,
) -> Result<Option<Row>, (Seq<char>, Seq<char>)> {
    match rename {
        Ok(_) => Ok(Some(row_of(source, outcome.replaced as nat, outcome.whole_run_only))),
        Err(e) => Err((source.path@, "rename into place: "@ + e@)),
    }
}

/// What a document ends with once its temporary file was to take its place, and whether
/// that file is to be removed.
pub open spec fn is_end_after(
    source: DocSource,
    outcome: ReplaceOutcome,
    rename: Result<(), String>,
    r: (bool, Result<Option<DocReplaceHit>, (String, String)>),
) -> bool {
    &&& r.0 == (rename is Err)
    &&& ending_view(r.1) == renamed_end(source, outcome, rename)
}

/// What a document ends with, from how putting the temporary file in its place ended, and
/// whether the temporary file is to be removed: it still stands where that failed.
pub fn after_rename(
    source: &DocSource,
    outcome: ReplaceOutcome,
    rename: Result<(), String>,
) -> (r: (bool, Result<Option<DocReplaceHit>, (String, String)>))
    ensures
        is_end_after(*source, outcome, rename, r),
{
    match rename {
        Ok(_) => (
            false,
            Ok(Some(make_row(source, outcome.replaced, outcome.whole_run_only))),
        ),
        Err(e) => {
            let mut message = "rename into place: ".to_owned();
            message.append(e.as_str());
            (true, Err((source.path.clone(), message)))
        },
    }
}

// ── all documents ───────────────────────────────────────────────────────────────

/// What a replacement in all documents gives.
#[derive(Debug)]
pub struct DocReplaceResult {
    pub hits: Vec<DocReplaceHit>,
    /// How many replacements there are in all.
    pub total: usize,
    /// How many documents change. A row without a replacement does not count.
    pub files: usize,
    pub applied: bool,
    pub errors: Vec<(String, String)>,
    /// Why there may be fewer replacements than the search found.
    pub case_note: Option<String>,
}

impl Default for DocReplaceResult {
    /// Nothing was done.
    fn default() -> (r: DocReplaceResult)
        ensures
            is_nothing(r),
    {
        DocReplaceResult {
            hits: Vec::new(),
            total: 0,
            files: 0,
            applied: false,
            errors: Vec::new(),
            case_note: None,
        }
    }
}

/// The values of a list of rows.
pub open spec fn row_views(hits: Seq<DocReplaceHit>) -> Seq<Row> {
    hits.map_values(|h: DocReplaceHit| h@)
}

/// The rows of some documents, in order.
pub open spec fn all_rows(
    per_file: Seq<Result<Option<DocReplaceHit>, (String, String)>>,
) -> Seq<Row>
    decreases per_file.len(),
{
    if per_file.len() == 0 {
        Seq::empty()
    } else {
        let before = all_rows(per_file.drop_last());
        match per_file.last() {
            Ok(Some(hit)) => before.push(hit@),
            _ => before,
        }
    }
}

/// How many replacements some rows tell of.
pub open spec fn total_of(rows: Seq<Row>) -> nat
    decreases rows.len(),
{
    if rows.len() == 0 {
        0
    } else {
        total_of(rows.drop_last()) + rows.last().replaced
    }
}

/// How many rows tell of a replacement.
pub open spec fn files_of(rows: Seq<Row>) -> nat
    decreases rows.len(),
{
    if rows.len() == 0 {
        0
    } else {
        files_of(rows.drop_last()) + (if rows.last().replaced > 0 {
            1nat
        } else {
            0
        })
    }
}

/// What is noted where case did not count in the search.
pub open spec fn case_note_text() -> Seq<char> {
    "Document replace is case-sensitive: the lossless package rewrite edits raw XML text nodes. Case-insensitive search hits whose case differs from the query are reported above but were not replaced."@
}

/// What a replacement gives of what became of each document.
pub open spec fn is_summary(
    per_file: Seq<Result<Option<DocReplaceHit>, (String, String)>>,
    apply: bool,
    folded: bool,
    r: DocReplaceResult,
) -> bool {
    let rows = all_rows(per_file);
    &&& row_views(r.hits@) == rows
    &&& r.total == total_of(rows)
    &&& r.files == files_of(rows)
    &&& r.applied == apply
    &&& doc_collect::error_views(r.errors@) == doc_collect::all_errors(per_file)
    &&& text::opt_view(r.case_note) == (if folded {
        Some(case_note_text())
    } else {
        None
    })
}

/// Nothing was done.
pub open spec fn is_nothing(r: DocReplaceResult) -> bool {
    &&& r.hits@.len() == 0
    &&& r.total == 0
    &&& r.files == 0
    &&& !r.applied
    &&& r.errors@.len() == 0
    &&& r.case_note is None
}

/// Whether documents are to be opened for a replacement, or how it is refused.
pub open spec fn is_replace_plan(
    query: Seq<char>,
    opts: DocSearchOpts,
    r: Result<bool, String>,
) -> bool {
    match r {
        Err(e) => text::is_set(opts.regex) && e@ == doc_collect::regex_refusal(),
        Ok(go) => !text::is_set(opts.regex) && go == (query.len() > 0),
    }
}

/// Whether documents are to be opened for a replacement: the query is not empty. A regular
/// expression is refused.
pub fn replace_plan(query: &str, opts: &DocSearchOpts) -> (r: Result<bool, String>)
    ensures
        is_replace_plan(query@, *opts, r),
{
    match doc_collect::reject_regex(opts) {
        Ok(_) => Ok(!query.is_empty()),
        Err(e) => Err(e),
    }
}

/// The total of fewer rows is no larger.
proof fn lemma_total_grows(
    per_file: Seq<Result<Option<DocReplaceHit>, (String, String)>>,
    k: int,
)
    requires
        0 <= k <= per_file.len(),
    ensures
        total_of(all_rows(per_file.take(k))) <= total_of(all_rows(per_file)),
    decreases per_file.len(),
{
    if k < per_file.len() {
        lemma_total_grows(per_file.drop_last(), k);
        assert(per_file.drop_last().take(k) =~= per_file.take(k));
        match per_file.last() {
            Ok(Some(hit)) => {
                let before = all_rows(per_file.drop_last());
                assert(before.push(hit@).drop_last() =~= before);
            },
            _ => {},
        }
    } else {
        assert(per_file.take(k) =~= per_file);
    }
}

/// What a replacement in all documents gives, from what became of each, or how it is
/// refused.
pub open spec fn is_replacement(
    query: Seq<char>,
    apply: bool,
    opts: DocSearchOpts,
    per_file: Seq<Result<Option<DocReplaceHit>, (String, String)>>,
    r: Result<DocReplaceResult, String>,
) -> bool {
    match r {
        Err(e) => text::is_set(opts.regex) && e@ == doc_collect::regex_refusal(),
        Ok(out) => !text::is_set(opts.regex) && if query.len() == 0 {
            is_nothing(out)
        } else {
            is_summary(per_file, apply, text::is_set(opts.case_insensitive), out)
        },
    }
}

/// What a replacement in all documents gives, from what became of each.
pub fn replace_all(
    query: &str,
    apply: bool,
    opts: &DocSearchOpts,
    per_file: Vec<Result<Option<DocReplaceHit>, (String, String)>>,
) -> (r: Result<DocReplaceResult, String>)
    requires
        total_of(all_rows(per_file@)) <= usize::MAX,
    ensures
        is_replacement(query@, apply, *opts, per_file@, r),
{
    let mut out = DocReplaceResult::default();
    match replace_plan(query, opts) {
        Err(e) => {
            return Err(e);
        },
        Ok(go) => {
            if !go {
                return Ok(out);
            }
        },
    }
    out.applied = apply;
    let ghost given = per_file@;
    let ghost given_apply = apply;
    assert(given.take(0) =~= Seq::empty());
    assert(row_views(out.hits@) =~= Seq::empty());
    assert(doc_collect::error_views(out.errors@) =~= Seq::empty());
    for entry in it: per_file.into_iter()
        invariant
            it.seq() == given,
            total_of(all_rows(given)) <= usize::MAX,
            out.files <= out.hits@.len(),
            is_summary(given.take(it.index() as int), given_apply, false, out),
    {
        let ghost k = it.index() as int;
        proof {
            assert(given.take(k + 1).drop_last() =~= given.take(k));
            assert(given.take(k + 1).last() == entry);
            lemma_total_grows(given, k + 1);
        }
        match entry {
            Ok(Some(hit)) => {
                let ghost before = out.hits@;
                proof {
                    let rows = all_rows(given.take(k));
                    assert(rows.push(hit@).drop_last() =~= rows);
                    assert(row_views(before.push(hit)) =~= row_views(before).push(hit@));
                    assert(before.len() == out.hits.len());
                }
                out.total = out.total + hit.replaced;
                let changed: bool = hit.replaced > 0;
                out.hits.push(hit);
                if changed {
                    assert(out.files < out.hits.len());
                    out.files = out.files + 1;
                }
            },
            Ok(None) => {},
            Err(pair) => {
                proof {
                    doc_collect::lemma_error_views_push(out.errors@, pair);
                }
                out.errors.push(pair);
            },
        }
    }
    assert(given.take(given.len() as int) =~= given);
    if opts.case_insensitive.unwrap_or(false) {
        out.case_note = Some(
            "Document replace is case-sensitive: the lossless package rewrite edits raw XML text nodes. Case-insensitive search hits whose case differs from the query are reported above but were not replaced.".to_owned(),
        );
    }
    Ok(out)
}

} // verus!
