//! What a replacement does to each document, and what it tells of all of them.

use crate::doc_collect;
use crate::doc_collect::DocSearchOpts;
use crate::doc_collect::SearchPlan;
use crate::doc_replace;
use crate::doc_replace::DocReplaceHit;
use crate::doc_replace::DocReplaceResult;
use crate::doc_replace::DocSource;
use crate::doc_replace::PageEdit;
use crate::doc_replace::ReplaceOutcome;
use crate::doc_replace::ReplaceStep;
use crate::picks;
use crate::text;
use crate::text_laws;
use vstd::prelude::*;

verus! {

// ── one document ────────────────────────────────────────────────────────────────

/// A row tells of a document, of how much was replaced in it, and of how.
pub open spec fn tells_of(
    hit: DocReplaceHit,
    source: DocSource,
    replaced: int,
    whole_run_only: bool,
) -> bool {
    &&& hit.path@ == source.path@
    &&& hit.rel@ == source.rel@
    &&& hit.format@ == source.format@
    &&& hit.replaced as int == replaced
    &&& hit.whole_run_only == whole_run_only
}

/// A change that is to be kept, of which there is any, is kept: however much an engine
/// replaced, the file that it left takes the place of the document.
pub proof fn law_change_is_kept(
    source: DocSource,
    outcome: ReplaceOutcome,
    r: ReplaceStep,
)
    requires
        doc_replace::is_step_after(source, Ok(outcome), true, true, r),
        outcome.replaced > 0,
    ensures
        r is Rename,
{
}

/// A document ends without its change being kept only where none was asked for, the engine
/// failed, replaced nothing or left no file. So where changes are kept, no document is said
/// to be changed that was not.
pub proof fn law_no_change_is_claimed(
    source: DocSource,
    run: Result<ReplaceOutcome, String>,
    out_exists: bool,
    r: ReplaceStep,
)
    requires
        doc_replace::is_step_after(source, run, out_exists, true, r),
        r is Finish,
    ensures
        match r->Finish_0 {
            Ok(Some(hit)) => hit.replaced == 0,
            _ => true,
        },
        run is Err || run->Ok_0.replaced == 0 || !out_exists,
{
}

/// Nothing takes the place of a document but a change that is to be kept and that an engine
/// has written.
pub proof fn law_only_changes_are_kept(
    source: DocSource,
    run: Result<ReplaceOutcome, String>,
    out_exists: bool,
    apply: bool,
    r: ReplaceStep,
)
    requires
        doc_replace::is_step_after(source, run, out_exists, apply, r),
        r is Rename,
    ensures
        apply,
        out_exists,
        run is Ok,
        run->Ok_0.replaced > 0,
{
}

/// A look at a change tells of all that would be replaced.
pub proof fn law_look_tells_all(source: DocSource, outcome: ReplaceOutcome, r: ReplaceStep)
    requires
        doc_replace::is_step_after(source, Ok(outcome), true, false, r),
        outcome.replaced > 0,
    ensures
        r matches ReplaceStep::Finish(Ok(Some(hit))) && tells_of(
            hit,
            source,
            outcome.replaced as int,
            outcome.whole_run_only,
        ),
{
}

/// A document in which nothing was replaced has a row that says so where it holds the text,
/// and none where it does not; so it is where the engine left no file.
pub proof fn law_nothing_replaced(
    source: DocSource,
    outcome: ReplaceOutcome,
    out_exists: bool,
    apply: bool,
    r: ReplaceStep,
)
    requires
        doc_replace::is_step_after(source, Ok(outcome), out_exists, apply, r),
        outcome.replaced == 0 || !out_exists,
    ensures
        outcome.matched_but_unreplaced ==> (r matches ReplaceStep::Finish(Ok(Some(hit)))
            && tells_of(hit, source, 0, outcome.whole_run_only)),
        !outcome.matched_but_unreplaced ==> (r matches ReplaceStep::Finish(Ok(None))),
{
}

/// Where an engine failed, the document ends with its path and the reason.
pub proof fn law_engine_failed(
    source: DocSource,
    e: String,
    out_exists: bool,
    apply: bool,
    r: ReplaceStep,
)
    requires
        doc_replace::is_step_after(source, Err(e), out_exists, apply, r),
    ensures
        r matches ReplaceStep::Finish(Err(pair)) && pair.0@ == source.path@ && pair.1@ == e@,
{
}

/// Once the file has taken the place of the document, the row tells of all that was
/// replaced and no file is to be removed; where it could not, the document ends with its
/// path and the reason, and the file is to be removed.
pub proof fn law_after_rename(
    source: DocSource,
    outcome: ReplaceOutcome,
    rename: Result<(), String>,
    r: (bool, Result<Option<DocReplaceHit>, (String, String)>),
)
    requires
        doc_replace::is_end_after(source, outcome, rename, r),
    ensures
        rename is Ok ==> !r.0 && (r.1 matches Ok(Some(hit)) && tells_of(
            hit,
            source,
            outcome.replaced as int,
            outcome.whole_run_only,
        )),
        rename is Err ==> r.0 && (r.1 matches Err(pair) && pair.0@ == source.path@ && pair.1@
            == "rename into place: "@ + rename->Err_0@),
{
}

// ── pages ───────────────────────────────────────────────────────────────────────

/// The text that could be extracted of a page, or nothing.
pub open spec fn extracted(s: Option<String>) -> Seq<char> {
    if s is Some {
        s->0@
    } else {
        Seq::empty()
    }
}

/// The pages whose text is another than before.
spec fn changed_wanted(pages: Seq<PageEdit>) -> spec_fn(int) -> bool {
    |i: int| 0 <= i < pages.len() && extracted(pages[i].before) != extracted(pages[i].after)
}

/// As many pages count as changed as have another text than before.
proof fn lemma_changed_pages(pages: Seq<PageEdit>) -> (at: Seq<int>)
    ensures
        picks::lists_all(at, changed_wanted(pages), picks::ascending()),
        doc_replace::changed_pages(pages) == at.len(),
    decreases pages.len(),
{
    let wanted = changed_wanted(pages);
    if pages.len() == 0 {
        picks::lemma_lists_none(wanted, picks::ascending());
        Seq::empty()
    } else {
        let t = pages.drop_last();
        let i = pages.len() - 1;
        let before = lemma_changed_pages(t);
        let in_before = changed_wanted(t);
        assert forall|k: int| k != i implies (#[trigger] wanted(k) <==> in_before(k)) by {
            if 0 <= k < t.len() {
                assert(t[k] == pages[k]);
            }
        }
        picks::lemma_lists_next(before, i, in_before, wanted, picks::ascending());
        picks::with_next(before, i, wanted(i))
    }
}

/// A page held the text before: it was something, the text, and something more.
pub open spec fn held_before(page: PageEdit, find: Seq<char>) -> bool {
    exists|a: Seq<char>, b: Seq<char>| extracted(page.before) == #[trigger] (a + find + b)
}

/// What a PDF engine did is told by the pages: as many were replaced in as have another
/// text than before, and the document holds the text in vain where there are none of these
/// and some page held it.
pub proof fn law_pages_tell(pages: Seq<PageEdit>, find: Seq<char>, r: ReplaceOutcome) -> (at: Seq<
    int,
>)
    requires
        doc_replace::is_pdf_outcome(pages, find, r),
    ensures
        picks::lists_all(
            at,
            |i: int| 0 <= i < pages.len() && extracted(pages[i].before) != extracted(
                pages[i].after,
            ),
            |a: int, b: int| a < b,
        ),
        r.replaced == at.len(),
        r.whole_run_only,
        r.matched_but_unreplaced <==> at.len() == 0 && exists|i: int|
            0 <= i < pages.len() && held_before(#[trigger] pages[i], find),
{
    let at = lemma_changed_pages(pages);
    assert forall|i: int| 0 <= i < pages.len() implies held_before(#[trigger] pages[i], find)
        == doc_replace::page_held(pages[i], find) by {
        text_laws::law_contains(extracted(pages[i].before), find);
    }
    if doc_replace::any_page_held(pages, find) {
        let i = choose|i: int| 0 <= i < pages.len() && doc_replace::page_held(
            #[trigger] pages[i],
            find,
        );
        assert(held_before(pages[i], find));
    }
    if exists|i: int| 0 <= i < pages.len() && held_before(#[trigger] pages[i], find) {
        let i = choose|i: int| 0 <= i < pages.len() && held_before(#[trigger] pages[i], find);
        assert(doc_replace::page_held(pages[i], find));
    }
    at
}

// ── all documents ───────────────────────────────────────────────────────────────

/// The documents that have a row.
spec fn row_wanted(
    per_file: Seq<Result<Option<DocReplaceHit>, (String, String)>>,
) -> spec_fn(int) -> bool {
    |i: int| 0 <= i < per_file.len() && per_file[i] is Ok && per_file[i]->Ok_0 is Some
}

/// The rows of some documents, by the documents that have one.
proof fn lemma_rows(per_file: Seq<Result<Option<DocReplaceHit>, (String, String)>>) -> (at: Seq<
    int,
>)
    ensures
        picks::lists_all(at, row_wanted(per_file), picks::ascending()),
        ({
            let rows = doc_replace::all_rows(per_file);
            &&& rows.len() == at.len()
            &&& forall|k: int|
                0 <= k < at.len() ==> #[trigger] rows[k] == per_file[at[k]]->Ok_0->0@
        }),
    decreases per_file.len(),
{
    let wanted = row_wanted(per_file);
    if per_file.len() == 0 {
        picks::lemma_lists_none(wanted, picks::ascending());
        Seq::empty()
    } else {
        let t = per_file.drop_last();
        let i = per_file.len() - 1;
        let before = lemma_rows(t);
        let in_before = row_wanted(t);
        assert forall|k: int| k != i implies (#[trigger] wanted(k) <==> in_before(k)) by {
            if 0 <= k < t.len() {
                assert(t[k] == per_file[k]);
            }
        }
        picks::lemma_lists_next(before, i, in_before, wanted, picks::ascending());
        let at = picks::with_next(before, i, wanted(i));
        let rows = doc_replace::all_rows(per_file);
        let fewer = doc_replace::all_rows(t);
        assert forall|k: int| 0 <= k < at.len() implies #[trigger] rows[k]
            == per_file[at[k]]->Ok_0->0@ by {
            if k < before.len() {
                assert(rows[k] == fewer[k]);
                assert(in_before(before[k]));
                assert(t[before[k]] == per_file[before[k]]);
            }
        }
        at
    }
}

/// The documents with which something went wrong.
pub open spec fn error_wanted<T>(per_file: Seq<Result<T, (String, String)>>) -> spec_fn(
    int,
) -> bool {
    |i: int| 0 <= i < per_file.len() && per_file[i] is Err
}

/// What went wrong with some documents, by those with which something did.
pub proof fn lemma_errors<T>(per_file: Seq<Result<T, (String, String)>>) -> (at: Seq<int>)
    ensures
        picks::lists_all(at, error_wanted(per_file), picks::ascending()),
        ({
            let errors = doc_collect::all_errors(per_file);
            &&& errors.len() == at.len()
            &&& forall|k: int|
                0 <= k < at.len() ==> #[trigger] errors[k] == (
                    per_file[at[k]]->Err_0.0@,
                    per_file[at[k]]->Err_0.1@,
                )
        }),
    decreases per_file.len(),
{
    let wanted = error_wanted(per_file);
    if per_file.len() == 0 {
        picks::lemma_lists_none(wanted, picks::ascending());
        Seq::empty()
    } else {
        let t = per_file.drop_last();
        let i = per_file.len() - 1;
        let before = lemma_errors(t);
        let in_before = error_wanted(t);
        assert forall|k: int| k != i implies (#[trigger] wanted(k) <==> in_before(k)) by {
            if 0 <= k < t.len() {
                assert(t[k] == per_file[k]);
            }
        }
        picks::lemma_lists_next(before, i, in_before, wanted, picks::ascending());
        let at = picks::with_next(before, i, wanted(i));
        let errors = doc_collect::all_errors(per_file);
        let fewer = doc_collect::all_errors(t);
        assert forall|k: int| 0 <= k < at.len() implies #[trigger] errors[k] == (
            per_file[at[k]]->Err_0.0@,
            per_file[at[k]]->Err_0.1@,
        ) by {
            if k < before.len() {
                assert(errors[k] == fewer[k]);
                assert(in_before(before[k]));
                assert(t[before[k]] == per_file[before[k]]);
            }
        }
        at
    }
}

/// A replacement lists the rows of all documents that have one, in their order, each as it
/// is, and so it does with what went wrong.
pub proof fn law_rows_are_listed(
    per_file: Seq<Result<Option<DocReplaceHit>, (String, String)>>,
    apply: bool,
    folded: bool,
    r: DocReplaceResult,
) -> (at: (Seq<int>, Seq<int>))
    requires
        doc_replace::is_summary(per_file, apply, folded, r),
    ensures
        picks::lists_all(
            at.0,
            |i: int| 0 <= i < per_file.len() && per_file[i] is Ok && per_file[i]->Ok_0 is Some,
            |a: int, b: int| a < b,
        ),
        r.hits@.len() == at.0.len(),
        forall|k: int|
            0 <= k < at.0.len() ==> {
                let row = per_file[at.0[k]]->Ok_0->0;
                let hit = #[trigger] r.hits@[k];
                &&& hit.path@ == row.path@
                &&& hit.rel@ == row.rel@
                &&& hit.format@ == row.format@
                &&& hit.replaced == row.replaced
                &&& hit.whole_run_only == row.whole_run_only
            },
        picks::lists_all(
            at.1,
            |i: int| 0 <= i < per_file.len() && per_file[i] is Err,
            |a: int, b: int| a < b,
        ),
        r.errors@.len() == at.1.len(),
        forall|k: int|
            0 <= k < at.1.len() ==> {
                let e = #[trigger] r.errors@[k];
                e.0@ == per_file[at.1[k]]->Err_0.0@ && e.1@ == per_file[at.1[k]]->Err_0.1@
            },
        r.applied == apply,
        r.case_note is Some <==> folded,
        folded ==> r.case_note->0@ == doc_replace::case_note_text(),
{
    let rows = lemma_rows(per_file);
    let errors = lemma_errors(per_file);
    let views = doc_replace::row_views(r.hits@);
    assert(views.len() == r.hits@.len());
    assert forall|k: int| 0 <= k < rows.len() implies {
        let row = per_file[rows[k]]->Ok_0->0;
        let hit = #[trigger] r.hits@[k];
        &&& hit.path@ == row.path@
        &&& hit.rel@ == row.rel@
        &&& hit.format@ == row.format@
        &&& hit.replaced == row.replaced
        &&& hit.whole_run_only == row.whole_run_only
    } by {
        assert(views[k] == r.hits@[k]@);
        assert(views[k] == per_file[rows[k]]->Ok_0->0@);
    }
    let told = doc_collect::error_views(r.errors@);
    assert(told.len() == r.errors@.len());
    assert forall|k: int| 0 <= k < errors.len() implies {
        let e = #[trigger] r.errors@[k];
        e.0@ == per_file[errors[k]]->Err_0.0@ && e.1@ == per_file[errors[k]]->Err_0.1@
    } by {
        assert(told[k] == (r.errors@[k].0@, r.errors@[k].1@));
    }
    (rows, errors)
}

/// What the rows of a replacement add up to: the sum of what was replaced, and how many
/// tell of anything.
pub open spec fn sum_of(hits: Seq<DocReplaceHit>) -> int {
    hits.map_values(|h: DocReplaceHit| h.replaced as int).fold_left(0, |a: int, b: int| a + b)
}

/// The totals of rows, one row after the other.
proof fn lemma_totals(hits: Seq<DocReplaceHit>) -> (at: Seq<int>)
    ensures
        doc_replace::total_of(doc_replace::row_views(hits)) == sum_of(hits),
        picks::lists_all(
            at,
            |i: int| 0 <= i < hits.len() && hits[i].replaced > 0,
            picks::ascending(),
        ),
        doc_replace::files_of(doc_replace::row_views(hits)) == at.len(),
    decreases hits.len(),
{
    let rows = doc_replace::row_views(hits);
    let counts = hits.map_values(|h: DocReplaceHit| h.replaced as int);
    let add = |a: int, b: int| a + b;
    let wanted = |i: int| 0 <= i < hits.len() && hits[i].replaced > 0;
    reveal_with_fuel(Seq::fold_left, 2);
    if hits.len() == 0 {
        assert(rows.len() == 0);
        picks::lemma_lists_none(wanted, picks::ascending());
        Seq::empty()
    } else {
        let t = hits.drop_last();
        let i = hits.len() - 1;
        let before = lemma_totals(t);
        assert(rows.drop_last() =~= doc_replace::row_views(t));
        assert(counts.drop_last() =~= t.map_values(|h: DocReplaceHit| h.replaced as int));
        assert(counts.fold_left(0, add) == counts.drop_last().fold_left(0, add) + counts.last());
        let in_before = |k: int| 0 <= k < t.len() && t[k].replaced > 0;
        assert forall|k: int| k != i implies (#[trigger] wanted(k) <==> in_before(k)) by {
            if 0 <= k < t.len() {
                assert(t[k] == hits[k]);
            }
        }
        picks::lemma_lists_next(before, i, in_before, wanted, picks::ascending());
        picks::with_next(before, i, wanted(i))
    }
}

/// A replacement adds up its own rows: the total is the sum of what they tell, and as many
/// documents change as have a row that tells of any replacement.
pub proof fn law_rows_add_up(
    per_file: Seq<Result<Option<DocReplaceHit>, (String, String)>>,
    apply: bool,
    folded: bool,
    r: DocReplaceResult,
) -> (at: Seq<int>)
    requires
        doc_replace::is_summary(per_file, apply, folded, r),
    ensures
        r.total == sum_of(r.hits@),
        picks::lists_all(
            at,
            |i: int| 0 <= i < r.hits@.len() && r.hits@[i].replaced > 0,
            |a: int, b: int| a < b,
        ),
        r.files == at.len(),
{
    lemma_totals(r.hits@)
}

/// Nothing is told where nothing was done.
pub proof fn law_nothing_done(r: DocReplaceResult)
    requires
        doc_replace::is_nothing(r),
    ensures
        r.hits@.len() + r.errors@.len() + r.total + r.files == 0,
        !r.applied,
        r.case_note is None,
{
}

/// The name of a temporary file is a mark, the number of the process, a hyphen, the name
/// of the document and an ending, one behind the other.
pub proof fn law_temp_name(name: Seq<char>, pid: u32) -> (digits: Seq<char>)
    ensures
        doc_replace::temp_name_of(name, pid) == ".zmax-doc-"@ + digits + "-"@ + name + ".tmp"@,
        text::is_number(digits),
        text::number(digits) == pid,
        digits[0] == '0' ==> digits.len() == 1,
{
    reveal_strlit("-");
    assert("-"@ =~= seq!['-']);
    text_laws::law_decimal(pid as nat);
    text::decimal(pid as nat)
}

/// A document goes by its name where it has one.
pub proof fn law_document_name(name: &str)
    ensures
        doc_replace::document_name(Some(name)) == name@,
        doc_replace::document_name(None) == "doc"@,
{
}

/// Documents are opened for a replacement just where a search would be done: a regular
/// expression is refused, and nothing is replaced where there is nothing to look for.
pub proof fn law_replace_plan(
    query: Seq<char>,
    opts: DocSearchOpts,
    r: Result<bool, String>,
    search: Result<Option<SearchPlan>, String>,
)
    requires
        doc_replace::is_replace_plan(query, opts, r),
        doc_collect::is_plan_of(query, opts, search),
    ensures
        r is Err <==> opts.regex == Some(true),
        r is Err ==> search is Err && r->Err_0@ == search->Err_0@,
        r is Ok ==> (r->Ok_0 <==> search is Ok && search->Ok_0 is Some),
        r is Ok ==> (r->Ok_0 <==> query != Seq::<char>::empty()),
{
    if query.len() == 0 {
        assert(query =~= Seq::empty());
    }
}

/// A replacement is refused as its plan is, does nothing where no documents are opened, and
/// else tells of all of them. It notes that case counts just where it did not in the search.
pub proof fn law_replacement(
    query: Seq<char>,
    apply: bool,
    opts: DocSearchOpts,
    per_file: Seq<Result<Option<DocReplaceHit>, (String, String)>>,
    r: Result<DocReplaceResult, String>,
    plan: Result<bool, String>,
)
    requires
        doc_replace::is_replacement(query, apply, opts, per_file, r),
        doc_replace::is_replace_plan(query, opts, plan),
    ensures
        r is Err <==> opts.regex == Some(true),
        r is Err ==> plan is Err && r->Err_0@ == plan->Err_0@,
        r is Ok && !plan->Ok_0 ==> {
            let out = r->Ok_0;
            &&& out.hits@.len() == 0 && out.errors@.len() == 0
            &&& out.total == 0 && out.files == 0
            &&& !out.applied && out.case_note is None
        },
        r is Ok && plan->Ok_0 ==> {
            let out = r->Ok_0;
            &&& out.applied == apply
            &&& out.case_note is Some <==> opts.case_insensitive == Some(true)
            &&& out.case_note is Some ==> out.case_note->0@
                == "Document replace is case-sensitive: the lossless package rewrite edits raw XML text nodes. Case-insensitive search hits whose case differs from the query are reported above but were not replaced."@
            &&& doc_replace::is_summary(
                per_file,
                apply,
                opts.case_insensitive == Some(true),
                out,
            )
        },
{
}

/// An office document counts as changed by as much as its engine replaced: with none there
/// is nothing to tell of it, and with some it is replaced where the change is to be kept.
pub proof fn law_office_counts(
    n: usize,
    source: DocSource,
    step: ReplaceStep,
    look: ReplaceStep,
)
    requires
        doc_replace::is_step_after(source, Ok(doc_replace::office_result(n)), true, true, step),
        doc_replace::is_step_after(source, Ok(doc_replace::office_result(n)), true, false, look),
    ensures
        step is Rename <==> n > 0,
        n == 0 ==> step is Finish && step->Finish_0 is Ok && step->Finish_0->Ok_0 is None,
        n == 0 ==> look is Finish && look->Finish_0 is Ok && look->Finish_0->Ok_0 is None,
        n > 0 ==> look is Finish && look->Finish_0 is Ok && look->Finish_0->Ok_0 is Some && {
            let row = look->Finish_0->Ok_0->0;
            row.replaced == n && !row.whole_run_only && row.path@ == source.path@
        },
        doc_replace::office_result(n).replaced == n,
        !doc_replace::office_result(n).whole_run_only,
{
}

} // verus!
