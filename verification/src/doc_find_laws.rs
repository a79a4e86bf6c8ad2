//! What a search of a document finds: every place that holds the query, and no other.

use crate::doc_laws;
use crate::doc_search;
use crate::doc_search::Cell;
use crate::doc_search::DocContent;
use crate::doc_search::DocHit;
use crate::doc_search::DocLocator;
use crate::doc_search::NeedleText;
use crate::doc_search::PdfPage;
use crate::doc_search::Sheet;
use crate::picks;
use crate::sort;
use crate::text;
use crate::text_laws;
use crate::utf8;
use vstd::prelude::*;
use vstd::utf8::*;

verus! {

// ── paragraphs ──────────────────────────────────────────────────────────────────

/// The paragraphs that hold the query.
pub open spec fn paragraph_wanted(paragraphs: Seq<String>, n: NeedleText) -> spec_fn(int) -> bool {
    |i: int| 0 <= i < paragraphs.len() && doc_search::is_match(n, paragraphs[i]@)
}

/// The matches among some paragraphs, by the paragraphs that hold the query.
proof fn lemma_paragraphs<R>(paragraphs: Seq<String>, n: NeedleText) -> (at: Seq<int>)
    ensures
        picks::lists_all(at, paragraph_wanted(paragraphs, n), picks::ascending()),
        ({
            let found = doc_search::found_in_paragraphs::<R>(paragraphs, n);
            &&& found.len() == at.len()
            &&& forall|k: int|
                0 <= k < at.len() ==> #[trigger] found[k] == (doc_search::Found {
                    place: doc_search::Place::<R>::Paragraph { index: at[k] },
                    text: doc_search::snippet_of(paragraphs[at[k]]@),
                })
        }),
    decreases paragraphs.len(),
{
    let wanted = paragraph_wanted(paragraphs, n);
    if paragraphs.len() == 0 {
        picks::lemma_lists_none(wanted, picks::ascending());
        Seq::empty()
    } else {
        let t = paragraphs.drop_last();
        let i = paragraphs.len() - 1;
        let before = lemma_paragraphs::<R>(t, n);
        let in_before = paragraph_wanted(t, n);
        assert forall|k: int| k != i implies (#[trigger] wanted(k) <==> in_before(k)) by {
            if 0 <= k < t.len() {
                assert(t[k] == paragraphs[k]);
            }
        }
        picks::lemma_lists_next(before, i, in_before, wanted, picks::ascending());
        let at = picks::with_next(before, i, wanted(i));
        assert forall|k: int| 0 <= k < before.len() implies #[trigger] before[k] < t.len() by {
            assert(in_before(before[k]));
        }
        let found = doc_search::found_in_paragraphs::<R>(paragraphs, n);
        let fewer = doc_search::found_in_paragraphs::<R>(t, n);
        assert forall|k: int| 0 <= k < at.len() implies #[trigger] found[k] == (doc_search::Found {
            place: doc_search::Place::<R>::Paragraph { index: at[k] },
            text: doc_search::snippet_of(paragraphs[at[k]]@),
        }) by {
            if k < before.len() {
                assert(found[k] == fewer[k]);
                assert(before[k] < t.len());
                assert(in_before(before[k]));
                assert(t[before[k]] == paragraphs[before[k]]);
            }
        }
        at
    }
}

/// A hit tells the document it is in, as it was asked for, and shows `shown`.
pub open spec fn is_hit_in<R>(
    hit: DocHit<R>,
    path: Seq<char>,
    rel: Seq<char>,
    format: Seq<char>,
    shown: Seq<char>,
) -> bool {
    hit.path@ == path && hit.rel@ == rel && hit.format@ == format && hit.text@ == shown
}

/// A search of a word processor file gives a hit for every paragraph that holds the query
/// and for no other: each once, by its place, from the first to the last, with what it
/// begins with.
pub proof fn law_every_paragraph<R>(
    path: Seq<char>,
    rel: Seq<char>,
    format: Seq<char>,
    paragraphs: Vec<String>,
    n: NeedleText,
    r: Result<Vec<DocHit<R>>, String>,
) -> (at: Seq<int>)
    requires
        doc_search::search_outcome(path, rel, format, Ok(DocContent::Writer(paragraphs)), n, r),
    ensures
        r is Ok,
        picks::lists_all(
            at,
            |i: int| 0 <= i < paragraphs@.len() && doc_search::is_match(n, paragraphs@[i]@),
            |a: int, b: int| a < b,
        ),
        r->Ok_0@.len() == at.len(),
        forall|k: int|
            0 <= k < at.len() ==> {
                let hit = #[trigger] r->Ok_0@[k];
                &&& is_hit_in(hit, path, rel, format, doc_search::snippet_of(paragraphs@[at[k]]@))
                &&& hit.locator matches DocLocator::Paragraph { index } && index as int == at[k]
            },
{
    let at = lemma_paragraphs::<R>(paragraphs@, n);
    let found = doc_search::found_in_paragraphs::<R>(paragraphs@, n);
    let hits = r->Ok_0@;
    let views = doc_search::hit_views(hits);
    assert(views.len() == hits.len());
    assert forall|k: int| 0 <= k < at.len() implies {
        let hit = #[trigger] hits[k];
        &&& is_hit_in(hit, path, rel, format, doc_search::snippet_of(paragraphs@[at[k]]@))
        &&& hit.locator matches DocLocator::Paragraph { index } && index as int == at[k]
    } by {
        assert(views[k] == hits[k]@);
        assert(views[k].place == found[k].place);
        assert(views[k].text == found[k].text);
    }
    at
}

// ── cells ───────────────────────────────────────────────────────────────────────

/// The place of a cell: its sheet, its row there, and its place in the row.
pub struct CellAt {
    pub sheet: int,
    pub row: int,
    pub cell: int,
}

/// A cell stands before another: on an earlier sheet, in an earlier row, or earlier in it.
pub open spec fn cell_before(a: CellAt, b: CellAt) -> bool {
    a.sheet < b.sheet || (a.sheet == b.sheet && (a.row < b.row || (a.row == b.row && a.cell
        < b.cell)))
}

/// The order of cells.
spec fn cell_order() -> spec_fn(CellAt, CellAt) -> bool {
    |a: CellAt, b: CellAt| cell_before(a, b)
}

/// A spreadsheet has a cell at a place.
pub open spec fn has_cell(sheets: Seq<Sheet>, at: CellAt) -> bool {
    &&& 0 <= at.sheet < sheets.len()
    &&& 0 <= at.row < sheets[at.sheet].rows@.len()
    &&& 0 <= at.cell < sheets[at.sheet].rows@[at.row]@.len()
}

/// The cell at a place.
pub open spec fn cell_at(sheets: Seq<Sheet>, at: CellAt) -> Cell {
    sheets[at.sheet].rows@[at.row]@[at.cell]
}

/// The cells of one row that hold the query, and their matches.
spec fn row_wanted(sheet: int, row: int, cells: Seq<Cell>, n: NeedleText) -> spec_fn(CellAt) -> bool {
    |a: CellAt|
        a.sheet == sheet && a.row == row && 0 <= a.cell < cells.len() && doc_search::is_match(
            n,
            cells[a.cell].value@,
        )
}

/// The cells of some rows of one sheet that hold the query.
spec fn rows_wanted(sheet: int, rows: Seq<Vec<Cell>>, n: NeedleText) -> spec_fn(CellAt) -> bool {
    |a: CellAt|
        a.sheet == sheet && 0 <= a.row < rows.len() && 0 <= a.cell < rows[a.row]@.len()
            && doc_search::is_match(n, rows[a.row]@[a.cell].value@)
}

/// The cells that hold the query.
spec fn sheets_wanted(sheets: Seq<Sheet>, n: NeedleText) -> spec_fn(CellAt) -> bool {
    |a: CellAt| has_cell(sheets, a) && doc_search::is_match(n, cell_at(sheets, a).value@)
}

/// A match in a cell.
spec fn cell_found<R>(sheet: int, name: Seq<char>, cell: Cell) -> doc_search::Found<R> {
    doc_search::Found {
        place: doc_search::Place::Cell { sheet, sheet_name: name, reference: cell.reference@ },
        text: doc_search::snippet_of(cell.value@),
    }
}

/// The matches of one row, by its cells that hold the query.
proof fn lemma_row<R>(
    sheet: int,
    row: int,
    name: Seq<char>,
    cells: Seq<Cell>,
    n: NeedleText,
) -> (at: Seq<CellAt>)
    ensures
        picks::lists_all(at, row_wanted(sheet, row, cells, n), cell_order()),
        ({
            let found = doc_search::found_in_cells::<R>(sheet, name, cells, n);
            &&& found.len() == at.len()
            &&& forall|k: int|
                0 <= k < at.len() ==> #[trigger] found[k] == cell_found::<R>(
                    sheet,
                    name,
                    cells[at[k].cell],
                )
        }),
    decreases cells.len(),
{
    let wanted = row_wanted(sheet, row, cells, n);
    if cells.len() == 0 {
        picks::lemma_lists_none(wanted, cell_order());
        Seq::empty()
    } else {
        let t = cells.drop_last();
        let next = CellAt { sheet, row, cell: cells.len() - 1 };
        let before = lemma_row::<R>(sheet, row, name, t, n);
        let in_before = row_wanted(sheet, row, t, n);
        assert forall|a: CellAt| a != next implies (#[trigger] wanted(a) <==> in_before(a)) by {
            if a.sheet == sheet && a.row == row && 0 <= a.cell < cells.len() {
                assert(a.cell != next.cell);
                assert(t[a.cell] == cells[a.cell]);
            }
        }
        picks::lemma_lists_next(before, next, in_before, wanted, cell_order());
        let at = picks::with_next(before, next, wanted(next));
        let found = doc_search::found_in_cells::<R>(sheet, name, cells, n);
        let fewer = doc_search::found_in_cells::<R>(sheet, name, t, n);
        assert forall|k: int| 0 <= k < at.len() implies #[trigger] found[k] == cell_found::<R>(
            sheet,
            name,
            cells[at[k].cell],
        ) by {
            if k < before.len() {
                assert(found[k] == fewer[k]);
                assert(in_before(before[k]));
                assert(t[before[k].cell] == cells[before[k].cell]);
            }
        }
        at
    }
}

/// The matches of some rows, by their cells that hold the query.
proof fn lemma_rows<R>(
    sheet: int,
    name: Seq<char>,
    rows: Seq<Vec<Cell>>,
    n: NeedleText,
) -> (at: Seq<CellAt>)
    ensures
        picks::lists_all(at, rows_wanted(sheet, rows, n), cell_order()),
        ({
            let found = doc_search::found_in_rows::<R>(sheet, name, rows, n);
            &&& found.len() == at.len()
            &&& forall|k: int|
                0 <= k < at.len() ==> #[trigger] found[k] == cell_found::<R>(
                    sheet,
                    name,
                    rows[at[k].row]@[at[k].cell],
                )
        }),
    decreases rows.len(),
{
    let wanted = rows_wanted(sheet, rows, n);
    if rows.len() == 0 {
        picks::lemma_lists_none(wanted, cell_order());
        Seq::empty()
    } else {
        let t = rows.drop_last();
        let row = rows.len() - 1;
        let before = lemma_rows::<R>(sheet, name, t, n);
        let own = lemma_row::<R>(sheet, row, name, rows.last()@, n);
        let in_before = rows_wanted(sheet, t, n);
        let in_own = row_wanted(sheet, row, rows.last()@, n);
        assert forall|a: CellAt| #[trigger] wanted(a) <==> in_before(a) || in_own(a) by {
            if 0 <= a.row < row {
                assert(t[a.row] == rows[a.row]);
            }
        }
        picks::lemma_lists_both(before, own, in_before, in_own, wanted, cell_order());
        let at = before + own;
        let found = doc_search::found_in_rows::<R>(sheet, name, rows, n);
        let fewer = doc_search::found_in_rows::<R>(sheet, name, t, n);
        assert forall|k: int| 0 <= k < at.len() implies #[trigger] found[k] == cell_found::<R>(
            sheet,
            name,
            rows[at[k].row]@[at[k].cell],
        ) by {
            if k < before.len() {
                assert(found[k] == fewer[k]);
                assert(at[k] == before[k]);
                assert(in_before(before[k]));
                assert(t[before[k].row] == rows[before[k].row]);
            } else {
                assert(at[k] == own[k - before.len()]);
                assert(in_own(own[k - before.len()]));
            }
        }
        at
    }
}

/// The matches in a spreadsheet, by the cells that hold the query.
proof fn lemma_sheets<R>(sheets: Seq<Sheet>, n: NeedleText) -> (at: Seq<CellAt>)
    ensures
        picks::lists_all(at, sheets_wanted(sheets, n), cell_order()),
        ({
            let found = doc_search::found_in_sheets::<R>(sheets, n);
            &&& found.len() == at.len()
            &&& forall|k: int|
                0 <= k < at.len() ==> #[trigger] found[k] == cell_found::<R>(
                    at[k].sheet,
                    sheets[at[k].sheet].name@,
                    cell_at(sheets, at[k]),
                )
        }),
    decreases sheets.len(),
{
    let wanted = sheets_wanted(sheets, n);
    if sheets.len() == 0 {
        picks::lemma_lists_none(wanted, cell_order());
        Seq::empty()
    } else {
        let t = sheets.drop_last();
        let sheet = sheets.len() - 1;
        let last = sheets.last();
        let before = lemma_sheets::<R>(t, n);
        let own = lemma_rows::<R>(sheet, last.name@, last.rows@, n);
        let in_before = sheets_wanted(t, n);
        let in_own = rows_wanted(sheet, last.rows@, n);
        assert forall|a: CellAt| #[trigger] wanted(a) <==> in_before(a) || in_own(a) by {
            if 0 <= a.sheet < sheet {
                assert(t[a.sheet] == sheets[a.sheet]);
            }
        }
        picks::lemma_lists_both(before, own, in_before, in_own, wanted, cell_order());
        let at = before + own;
        let found = doc_search::found_in_sheets::<R>(sheets, n);
        let fewer = doc_search::found_in_sheets::<R>(t, n);
        assert forall|k: int| 0 <= k < at.len() implies #[trigger] found[k] == cell_found::<R>(
            at[k].sheet,
            sheets[at[k].sheet].name@,
            cell_at(sheets, at[k]),
        ) by {
            if k < before.len() {
                assert(found[k] == fewer[k]);
                assert(at[k] == before[k]);
                assert(in_before(before[k]));
                assert(t[before[k].sheet] == sheets[before[k].sheet]);
            } else {
                assert(at[k] == own[k - before.len()]);
                assert(in_own(own[k - before.len()]));
            }
        }
        at
    }
}

/// A search of a spreadsheet gives a hit for every cell of every row of every sheet that
/// holds the query and for no other: each once, by its sheet and its reference, sheet by
/// sheet and row by row, with what its value begins with.
pub proof fn law_every_cell<R>(
    path: Seq<char>,
    rel: Seq<char>,
    format: Seq<char>,
    sheets: Vec<Sheet>,
    n: NeedleText,
    r: Result<Vec<DocHit<R>>, String>,
) -> (at: Seq<CellAt>)
    requires
        doc_search::search_outcome(path, rel, format, Ok(DocContent::Calc(sheets)), n, r),
    ensures
        r is Ok,
        picks::lists_all(
            at,
            |a: CellAt|
                has_cell(sheets@, a) && doc_search::is_match(n, cell_at(sheets@, a).value@),
            |a: CellAt, b: CellAt| cell_before(a, b),
        ),
        r->Ok_0@.len() == at.len(),
        forall|k: int|
            0 <= k < at.len() ==> {
                let hit = #[trigger] r->Ok_0@[k];
                let cell = cell_at(sheets@, at[k]);
                &&& is_hit_in(hit, path, rel, format, doc_search::snippet_of(cell.value@))
                &&& hit.locator matches DocLocator::Cell { sheet, sheet_name, reference }
                    && sheet as int == at[k].sheet && sheet_name@ == sheets@[at[k].sheet].name@
                    && reference@ == cell.reference@
            },
{
    let at = lemma_sheets::<R>(sheets@, n);
    let found = doc_search::found_in_sheets::<R>(sheets@, n);
    let hits = r->Ok_0@;
    let views = doc_search::hit_views(hits);
    assert(views.len() == hits.len());
    assert forall|k: int| 0 <= k < at.len() implies {
        let hit = #[trigger] hits[k];
        let cell = cell_at(sheets@, at[k]);
        &&& is_hit_in(hit, path, rel, format, doc_search::snippet_of(cell.value@))
        &&& hit.locator matches DocLocator::Cell { sheet, sheet_name, reference } && sheet as int
            == at[k].sheet && sheet_name@ == sheets@[at[k].sheet].name@ && reference@
            == cell.reference@
    } by {
        assert(views[k] == hits[k]@);
        assert(views[k].place == found[k].place);
        assert(views[k].text == found[k].text);
    }
    at
}

// ── slides ──────────────────────────────────────────────────────────────────────

/// The place of a text on slides: its slide, and its place there.
pub struct TextAt {
    pub slide: int,
    pub text: int,
}

/// A text stands before another: on an earlier slide, or earlier on it.
pub open spec fn text_before(a: TextAt, b: TextAt) -> bool {
    a.slide < b.slide || (a.slide == b.slide && a.text < b.text)
}

/// The order of texts.
spec fn text_order() -> spec_fn(TextAt, TextAt) -> bool {
    |a: TextAt, b: TextAt| text_before(a, b)
}

/// Slides have a text at a place.
pub open spec fn has_text(slides: Seq<Vec<String>>, at: TextAt) -> bool {
    0 <= at.slide < slides.len() && 0 <= at.text < slides[at.slide]@.len()
}

/// The texts of one slide that hold the query.
spec fn slide_wanted(slide: int, texts: Seq<String>, n: NeedleText) -> spec_fn(TextAt) -> bool {
    |a: TextAt|
        a.slide == slide && 0 <= a.text < texts.len() && doc_search::is_match(n, texts[a.text]@)
}

/// The texts that hold the query.
spec fn slides_wanted(slides: Seq<Vec<String>>, n: NeedleText) -> spec_fn(TextAt) -> bool {
    |a: TextAt| has_text(slides, a) && doc_search::is_match(n, slides[a.slide]@[a.text]@)
}

/// The matches of one slide, by its texts that hold the query.
proof fn lemma_slide<R>(slide: int, texts: Seq<String>, n: NeedleText) -> (at: Seq<TextAt>)
    ensures
        picks::lists_all(at, slide_wanted(slide, texts, n), text_order()),
        ({
            let found = doc_search::found_in_slide::<R>(slide, texts, n);
            &&& found.len() == at.len()
            &&& forall|k: int|
                0 <= k < at.len() ==> #[trigger] found[k] == (doc_search::Found {
                    place: doc_search::Place::<R>::Slide { index: slide },
                    text: doc_search::snippet_of(texts[at[k].text]@),
                })
        }),
    decreases texts.len(),
{
    let wanted = slide_wanted(slide, texts, n);
    if texts.len() == 0 {
        picks::lemma_lists_none(wanted, text_order());
        Seq::empty()
    } else {
        let t = texts.drop_last();
        let next = TextAt { slide, text: texts.len() - 1 };
        let before = lemma_slide::<R>(slide, t, n);
        let in_before = slide_wanted(slide, t, n);
        assert forall|a: TextAt| a != next implies (#[trigger] wanted(a) <==> in_before(a)) by {
            if a.slide == slide && 0 <= a.text < texts.len() {
                assert(a.text != next.text);
                assert(t[a.text] == texts[a.text]);
            }
        }
        picks::lemma_lists_next(before, next, in_before, wanted, text_order());
        let at = picks::with_next(before, next, wanted(next));
        let found = doc_search::found_in_slide::<R>(slide, texts, n);
        let fewer = doc_search::found_in_slide::<R>(slide, t, n);
        assert forall|k: int| 0 <= k < at.len() implies #[trigger] found[k] == (doc_search::Found {
            place: doc_search::Place::<R>::Slide { index: slide },
            text: doc_search::snippet_of(texts[at[k].text]@),
        }) by {
            if k < before.len() {
                assert(found[k] == fewer[k]);
                assert(in_before(before[k]));
                assert(t[before[k].text] == texts[before[k].text]);
            }
        }
        at
    }
}

/// The matches in slides, by the texts that hold the query.
proof fn lemma_slides<R>(slides: Seq<Vec<String>>, n: NeedleText) -> (at: Seq<TextAt>)
    ensures
        picks::lists_all(at, slides_wanted(slides, n), text_order()),
        ({
            let found = doc_search::found_in_slides::<R>(slides, n);
            &&& found.len() == at.len()
            &&& forall|k: int|
                0 <= k < at.len() ==> #[trigger] found[k] == (doc_search::Found {
                    place: doc_search::Place::<R>::Slide { index: at[k].slide },
                    text: doc_search::snippet_of(slides[at[k].slide]@[at[k].text]@),
                })
        }),
    decreases slides.len(),
{
    let wanted = slides_wanted(slides, n);
    if slides.len() == 0 {
        picks::lemma_lists_none(wanted, text_order());
        Seq::empty()
    } else {
        let t = slides.drop_last();
        let slide = slides.len() - 1;
        let before = lemma_slides::<R>(t, n);
        let own = lemma_slide::<R>(slide, slides.last()@, n);
        let in_before = slides_wanted(t, n);
        let in_own = slide_wanted(slide, slides.last()@, n);
        assert forall|a: TextAt| #[trigger] wanted(a) <==> in_before(a) || in_own(a) by {
            if 0 <= a.slide < slide {
                assert(t[a.slide] == slides[a.slide]);
            }
        }
        picks::lemma_lists_both(before, own, in_before, in_own, wanted, text_order());
        let at = before + own;
        let found = doc_search::found_in_slides::<R>(slides, n);
        let fewer = doc_search::found_in_slides::<R>(t, n);
        assert forall|k: int| 0 <= k < at.len() implies #[trigger] found[k] == (doc_search::Found {
            place: doc_search::Place::<R>::Slide { index: at[k].slide },
            text: doc_search::snippet_of(slides[at[k].slide]@[at[k].text]@),
        }) by {
            if k < before.len() {
                assert(found[k] == fewer[k]);
                assert(at[k] == before[k]);
                assert(in_before(before[k]));
                assert(t[before[k].slide] == slides[before[k].slide]);
            } else {
                assert(at[k] == own[k - before.len()]);
                assert(in_own(own[k - before.len()]));
            }
        }
        at
    }
}

/// A search of slides gives a hit for every text of every slide that holds the query and
/// for no other: each once, by its slide, from the first to the last, with what it begins
/// with.
pub proof fn law_every_slide<R>(
    path: Seq<char>,
    rel: Seq<char>,
    format: Seq<char>,
    slides: Vec<Vec<String>>,
    n: NeedleText,
    r: Result<Vec<DocHit<R>>, String>,
) -> (at: Seq<TextAt>)
    requires
        doc_search::search_outcome(path, rel, format, Ok(DocContent::Impress(slides)), n, r),
    ensures
        r is Ok,
        picks::lists_all(
            at,
            |a: TextAt|
                has_text(slides@, a) && doc_search::is_match(n, slides@[a.slide]@[a.text]@),
            |a: TextAt, b: TextAt| text_before(a, b),
        ),
        r->Ok_0@.len() == at.len(),
        forall|k: int|
            0 <= k < at.len() ==> {
                let hit = #[trigger] r->Ok_0@[k];
                let t = slides@[at[k].slide]@[at[k].text]@;
                &&& is_hit_in(hit, path, rel, format, doc_search::snippet_of(t))
                &&& hit.locator matches DocLocator::Slide { index } && index as int == at[k].slide
            },
{
    let at = lemma_slides::<R>(slides@, n);
    let found = doc_search::found_in_slides::<R>(slides@, n);
    let hits = r->Ok_0@;
    let views = doc_search::hit_views(hits);
    assert(views.len() == hits.len());
    assert forall|k: int| 0 <= k < at.len() implies {
        let hit = #[trigger] hits[k];
        let t = slides@[at[k].slide]@[at[k].text]@;
        &&& is_hit_in(hit, path, rel, format, doc_search::snippet_of(t))
        &&& hit.locator matches DocLocator::Slide { index } && index as int == at[k].slide
    } by {
        assert(views[k] == hits[k]@);
        assert(views[k].place == found[k].place);
        assert(views[k].text == found[k].text);
    }
    at
}

// ── pages ───────────────────────────────────────────────────────────────────────

/// The pages whose text could be extracted and holds the query.
pub open spec fn page_wanted(pages: Seq<PdfPage>, n: NeedleText, i: int) -> bool {
    0 <= i < pages.len() && pages[i].text is Some && doc_search::is_match(n, pages[i].text->0@)
}

/// A page comes before another: by its number, or by its place where the numbers are the
/// same.
pub open spec fn page_before(pages: Seq<PdfPage>, a: int, b: int) -> bool {
    pages[a].number < pages[b].number || (pages[a].number == pages[b].number && a < b)
}

/// A list of places holds place `i`.
spec fn is_listed(order: Seq<usize>, i: int) -> bool {
    exists|j: int| 0 <= j < order.len() && #[trigger] order[j] as int == i
}

/// The pages of a sorted list that hold the query, and their matches.
proof fn lemma_pages<R>(
    pages: Seq<PdfPage>,
    order: Seq<usize>,
    rects: Seq<(u32, R)>,
    n: NeedleText,
) -> (at: Seq<int>)
    requires
        forall|i: int| 0 <= i < order.len() ==> 0 <= #[trigger] order[i] < pages.len(),
        forall|i: int, j: int|
            0 <= i < j < order.len() ==> page_before(
                pages,
                #[trigger] order[i] as int,
                #[trigger] order[j] as int,
            ),
    ensures
        picks::lists_all(
            at,
            |i: int| page_wanted(pages, n, i) && is_listed(order, i),
            |a: int, b: int| page_before(pages, a, b),
        ),
        ({
            let found = doc_search::found_on_pages(pages, order, rects, n);
            &&& found.len() == at.len()
            &&& forall|k: int|
                0 <= k < at.len() ==> Some(#[trigger] found[k]) == doc_search::found_on_page(
                    pages[at[k]],
                    rects,
                    n,
                )
        }),
    decreases order.len(),
{
    let wanted = |i: int| page_wanted(pages, n, i) && is_listed(order, i);
    let lt = |a: int, b: int| page_before(pages, a, b);
    if order.len() == 0 {
        picks::lemma_lists_none(wanted, lt);
        Seq::empty()
    } else {
        let t = order.drop_last();
        let last = order.len() - 1;
        let next = order[last] as int;
        assert forall|i: int| 0 <= i < t.len() implies 0 <= #[trigger] t[i] < pages.len() by {
            assert(t[i] == order[i]);
        }
        assert forall|i: int, j: int| 0 <= i < j < t.len() implies page_before(
            pages,
            #[trigger] t[i] as int,
            #[trigger] t[j] as int,
        ) by {
            assert(t[i] == order[i] && t[j] == order[j]);
        }
        let before = lemma_pages(pages, t, rects, n);
        let in_before = |i: int| page_wanted(pages, n, i) && is_listed(t, i);
        assert forall|i: int| i != next implies (#[trigger] wanted(i) <==> in_before(i)) by {
            if is_listed(order, i) {
                let j = choose|j: int| 0 <= j < order.len() && #[trigger] order[j] as int == i;
                assert(t[j] as int == i);
            }
            if is_listed(t, i) {
                let j = choose|j: int| 0 <= j < t.len() && #[trigger] t[j] as int == i;
                assert(order[j] as int == i);
            }
        }
        assert forall|i: int| #[trigger] in_before(i) implies lt(i, next) by {
            let j = choose|j: int| 0 <= j < t.len() && #[trigger] t[j] as int == i;
            assert(page_before(pages, order[j] as int, order[last] as int));
        }
        assert(!in_before(next)) by {
            if in_before(next) {
                assert(lt(next, next));
            }
        }
        picks::lemma_lists_next(before, next, in_before, wanted, lt);
        assert(order[last] as int == next);
        assert(is_listed(order, next));
        let at = picks::with_next(before, next, wanted(next));
        let found = doc_search::found_on_pages(pages, order, rects, n);
        let fewer = doc_search::found_on_pages(pages, t, rects, n);
        doc_laws::law_page_hit_means_match(pages[next], rects, n);
        assert(0 <= order[last] < pages.len());
        assert forall|k: int| 0 <= k < at.len() implies Some(#[trigger] found[k])
            == doc_search::found_on_page(pages[at[k]], rects, n) by {
            if k < before.len() {
                assert(found[k] == fewer[k]);
            }
        }
        at
    }
}

/// What is known of the place of a match on a page: the first place that is listed for the
/// page, and nothing where none is.
pub open spec fn is_first_rect<R>(rects: Seq<(u32, R)>, page: u32, rect: Option<R>) -> bool {
    match rect {
        Some(r) => exists|i: int|
            0 <= i < rects.len() && (#[trigger] rects[i]) == (page, r) && forall|j: int|
                0 <= j < i ==> (#[trigger] rects[j]).0 != page,
        None => forall|j: int| 0 <= j < rects.len() ==> (#[trigger] rects[j]).0 != page,
    }
}

/// The place that is looked up is the first.
proof fn lemma_first_rect<R>(rects: Seq<(u32, R)>, page: u32)
    ensures
        is_first_rect(rects, page, doc_search::rect_on(rects, page)),
    decreases rects.len(),
{
    if rects.len() > 0 {
        let t = rects.drop_last();
        let last = rects.len() - 1;
        lemma_first_rect(t, page);
        assert forall|j: int| 0 <= j < last implies t[j] == #[trigger] rects[j] by {}
        match doc_search::rect_on(t, page) {
            Some(r) => {
                let i = choose|i: int|
                    0 <= i < t.len() && (#[trigger] t[i]) == (page, r) && forall|j: int|
                        0 <= j < i ==> (#[trigger] t[j]).0 != page;
                assert(rects[i] == (page, r));
                assert forall|j: int| 0 <= j < i implies (#[trigger] rects[j]).0 != page by {
                    assert(t[j].0 != page);
                }
            },
            None => {
                assert forall|j: int| 0 <= j < last implies (#[trigger] rects[j]).0 != page by {
                    assert(t[j].0 != page);
                }
                if rects.last().0 == page {
                    assert(rects[last] == (page, rects.last().1));
                }
            },
        }
    }
}

/// A search of a PDF gives a hit for every page whose text could be extracted and holds the
/// query, and for no other: each once, by its number, in the order of the numbers, with the
/// first place that is listed for the page and with the text around the first match.
pub proof fn law_every_page<R>(
    path: Seq<char>,
    rel: Seq<char>,
    format: Seq<char>,
    pages: Vec<PdfPage>,
    rects: Vec<(u32, R)>,
    n: NeedleText,
    r: Result<Vec<DocHit<R>>, String>,
) -> (at: Seq<int>)
    requires
        doc_search::search_outcome(path, rel, format, Ok(DocContent::Pdf { pages, rects }), n, r),
    ensures
        r is Ok,
        picks::lists_all(
            at,
            |i: int|
                0 <= i < pages@.len() && pages@[i].text is Some && doc_search::is_match(
                    n,
                    pages@[i].text->0@,
                ),
            |a: int, b: int|
                pages@[a].number < pages@[b].number || (pages@[a].number == pages@[b].number && a
                    < b),
        ),
        r->Ok_0@.len() == at.len(),
        forall|k: int|
            0 <= k < at.len() ==> {
                let hit = #[trigger] r->Ok_0@[k];
                let t = pages@[at[k]].text->0@;
                &&& doc_search::match_offset(n, t) is Some
                &&& is_hit_in(
                    hit,
                    path,
                    rel,
                    format,
                    doc_search::snippet_near(t, doc_search::match_offset(n, t)->0),
                )
                &&& hit.locator matches DocLocator::Page { page, rect } && page
                    == pages@[at[k]].number && is_first_rect(rects@, page, rect)
            },
{
    let numbers = doc_search::page_numbers(pages@);
    let order = sort::order_of(numbers);
    assert(pages.len() == pages@.len());
    assert(numbers.len() == pages@.len());
    sort::law_order_exists(numbers);
    assert forall|i: int, j: int| 0 <= i < j < order.len() implies page_before(
        pages@,
        #[trigger] order[i] as int,
        #[trigger] order[j] as int,
    ) by {
        assert(sort::earlier(numbers, order[i] as int, order[j] as int));
        assert(0 <= order[i] < pages@.len() && 0 <= order[j] < pages@.len());
    }
    let at = lemma_pages(pages@, order, rects@, n);
    let listed = |i: int| page_wanted(pages@, n, i) && is_listed(order, i);
    let wanted = |i: int|
        0 <= i < pages@.len() && pages@[i].text is Some && doc_search::is_match(
            n,
            pages@[i].text->0@,
        );
    let lt = |a: int, b: int|
        pages@[a].number < pages@[b].number || (pages@[a].number == pages@[b].number && a < b);
    assert forall|i: int| #[trigger] wanted(i) <==> listed(i) by {
        if wanted(i) {
            assert(order.contains(i as usize));
            let j = choose|j: int| 0 <= j < order.len() && order[j] == i as usize;
            assert(order[j] as int == i);
        }
    }
    assert(picks::lists_all(at, wanted, lt)) by {
        assert forall|k: int| 0 <= k < at.len() implies wanted(#[trigger] at[k]) by {
            assert(listed(at[k]));
        }
        assert forall|i: int, j: int| 0 <= i < j < at.len() implies lt(
            #[trigger] at[i],
            #[trigger] at[j],
        ) by {
            assert(page_before(pages@, at[i], at[j]));
        }
        assert forall|i: int| #[trigger] wanted(i) implies at.contains(i) by {
            assert(listed(i));
        }
    }
    let found = doc_search::found_on_pages(pages@, order, rects@, n);
    let hits = r->Ok_0@;
    let views = doc_search::hit_views(hits);
    assert(views.len() == hits.len());
    assert forall|k: int| 0 <= k < at.len() implies {
        let hit = #[trigger] hits[k];
        let t = pages@[at[k]].text->0@;
        &&& doc_search::match_offset(n, t) is Some
        &&& is_hit_in(
            hit,
            path,
            rel,
            format,
            doc_search::snippet_near(t, doc_search::match_offset(n, t)->0),
        )
        &&& hit.locator matches DocLocator::Page { page, rect } && page == pages@[at[k]].number
            && is_first_rect(rects@, page, rect)
    } by {
        assert(views[k] == hits[k]@);
        assert(wanted(at[k]));
        assert(views[k].place == found[k].place);
        assert(views[k].text == found[k].text);
        assert(Some(found[k]) == doc_search::found_on_page(pages@[at[k]], rects@, n));
        lemma_first_rect(rects@, pages@[at[k]].number);
    }
    at
}

/// A document that could not be read gives no hits but the reason.
pub proof fn law_unreadable_document<R>(
    path: Seq<char>,
    rel: Seq<char>,
    format: Seq<char>,
    e: String,
    n: NeedleText,
    r: Result<Vec<DocHit<R>>, String>,
)
    requires
        doc_search::search_outcome(path, rel, format, Err(e), n, r),
    ensures
        r is Err,
        r->Err_0@ == e@,
{
}

// ── the query ───────────────────────────────────────────────────────────────────

/// A query is looked for as it stands where case counts, and in lower case where not.
pub proof fn law_needle(query: Seq<char>)
    ensures
        doc_search::needle_of(query, false) == (NeedleText { text: query, fold: false }),
        doc_search::needle_of(query, true) == (NeedleText { text: text::lower(query), fold: true }),
{
}

/// A query as the search holds it is what it was made of.
pub proof fn law_needle_view(needle: doc_search::Needle)
    ensures
        needle@.text == needle.text@,
        needle@.fold == needle.fold,
{
}

/// A text holds the query just where it is something, the query, and something more; in
/// lower case where case does not count.
pub proof fn law_match(n: NeedleText, hay: Seq<char>)
    ensures
        !n.fold ==> (doc_search::is_match(n, hay) <==> exists|a: Seq<char>, b: Seq<char>|
            hay == #[trigger] (a + n.text + b)),
        n.fold ==> (doc_search::is_match(n, hay) <==> exists|a: Seq<char>, b: Seq<char>|
            text::lower(hay) == #[trigger] (a + n.text + b)),
{
    text_laws::law_contains(hay, n.text);
    text_laws::law_contains(text::lower(hay), n.text);
}

/// The offset of a match counts the bytes before the query where it first stands.
pub proof fn law_match_offset(n: NeedleText, hay: Seq<char>, a: Seq<char>, b: Seq<char>)
    requires
        (if n.fold {
            text::lower(hay)
        } else {
            hay
        }) == a + n.text + b,
        forall|x: Seq<char>, y: Seq<char>|
            a + n.text + b == #[trigger] (x + n.text + y) ==> a.len() <= x.len(),
    ensures
        doc_search::match_offset(n, hay) == Some(encode_utf8(a).len() as int),
{
    let h = a + n.text + b;
    text_laws::law_find(h, n.text, a, b);
    let i = text::find(h, n.text)->0;
    let (x, y) = choose|x: Seq<char>, y: Seq<char>|
        x.len() == i && h == #[trigger] (x + n.text + y);
    assert(i == a.len());
    assert(h.take(i) =~= a);
}

/// Where no text holds the query there is no offset of a match.
pub proof fn law_no_match_offset(n: NeedleText, hay: Seq<char>)
    ensures
        doc_search::match_offset(n, hay) is Some <==> doc_search::is_match(n, hay),
{
    text::lemma_find(doc_search::folded(hay, n.fold), n.text);
}

// ── snippets ────────────────────────────────────────────────────────────────────

/// A snippet is the text without the white space around it, or four hundred characters of
/// that where it has more.
pub proof fn law_snippet(before: Seq<char>, body: Seq<char>, behind: Seq<char>)
    requires
        text_laws::all_white(before),
        text_laws::all_white(behind),
        text_laws::is_trimmed(body),
    ensures
        body.len() <= 400 ==> doc_search::snippet_of(before + body + behind) == body,
        body.len() > 400 ==> doc_search::snippet_of(before + body + behind) == body.take(400),
{
    text_laws::law_trim(before, body, behind);
    assert(body.take(body.len() as int) =~= body);
}

/// The snippet around an offset is that of the text from a character on: the last that
/// starts at most a hundred bytes before the offset, or the first where there is none.
pub proof fn law_snippet_near(head: Seq<char>, tail: Seq<char>, at: int)
    requires
        encode_utf8(head).len() <= at - 100 || head.len() == 0,
        tail.len() > 0 ==> at - 100 < encode_utf8(head).len() + encode_scalar(
            tail[0] as u32,
        ).len(),
    ensures
        doc_search::snippet_near(head + tail, at) == doc_search::snippet_of(tail),
{
    let s = head + tail;
    let j = head.len() as int;
    assert(s.take(j) =~= head);
    assert(s.skip(j) =~= tail);
    assert(encode_utf8(Seq::<char>::empty()).len() == 0);
    doc_laws::lemma_snippet_start(s, at, j);
    utf8::lemma_slice(s, j, s.len() as int);
    assert(s.take(s.len() as int) =~= s);
    assert(s.subrange(j, s.len() as int) =~= tail);
}

} // verus!
