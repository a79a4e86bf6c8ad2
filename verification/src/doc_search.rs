//! Search in documents that are not plain text: word processor files, spreadsheets,
//! slides and PDF.
//!
//! The extension of a file decides first how it is treated; only then do its bytes. So a
//! document is never taken for an opaque file, though its bytes hold NULs. Every format
//! is searched by the same rule: a query is a literal text, and case counts unless the
//! request says otherwise.

use crate::paths;
use crate::project;
use crate::sort;
use crate::text;
use crate::utf8;
use std::collections::HashMap;
use vstd::prelude::*;
use vstd::string::StringSliceAdditionalSpecFns;
use vstd::utf8::*;

verus! {

// ── kinds of files ──────────────────────────────────────────────────────────────

/// The program that a word processor file, a spreadsheet or slides belong to.
#[derive(Debug, Clone, Copy, PartialEq, Eq, Structural)]
pub enum App {
    Writer,
    Calc,
    Impress,
}

/// How a file is treated.
#[derive(Debug, Clone, Copy, PartialEq, Eq, Structural)]
pub enum FileKind {
    /// Plain text.
    Text,
    /// A word processor file, a spreadsheet or slides.
    Office(App),
    Pdf,
    /// Neither text nor a document: left out.
    Opaque,
}

/// The document that an extension in lower case names.
pub open spec fn kind_of_ext(ext: Seq<char>) -> Option<FileKind> {
    if ext == "docx"@ || ext == "odt"@ {
        Some(FileKind::Office(App::Writer))
    } else if ext == "xlsx"@ || ext == "ods"@ {
        Some(FileKind::Office(App::Calc))
    } else if ext == "pptx"@ || ext == "odp"@ {
        Some(FileKind::Office(App::Impress))
    } else if ext == "pdf"@ {
        Some(FileKind::Pdf)
    } else {
        None
    }
}

/// The document that an extension in lower case names. Formats that can be found but not
/// replaced in without loss are not among them.
pub fn doc_ext_kind(ext: &str) -> (r: Option<FileKind>)
    ensures
        r == kind_of_ext(ext@),
{
    if text::same_text(ext, "docx") || text::same_text(ext, "odt") {
        Some(FileKind::Office(App::Writer))
    } else if text::same_text(ext, "xlsx") || text::same_text(ext, "ods") {
        Some(FileKind::Office(App::Calc))
    } else if text::same_text(ext, "pptx") || text::same_text(ext, "odp") {
        Some(FileKind::Office(App::Impress))
    } else if text::same_text(ext, "pdf") {
        Some(FileKind::Pdf)
    } else {
        None
    }
}

/// How a file with an extension and some leading bytes is treated.
pub open spec fn kind_of(ext: Seq<char>, head: Seq<u8>) -> FileKind {
    match kind_of_ext(ext) {
        Some(kind) => kind,
        None => if project::has_early_nul(head) {
            FileKind::Opaque
        } else {
            FileKind::Text
        },
    }
}

/// How a file with the extension `ext`, in lower case, is treated.
pub fn classify_ext(ext: &str, head: &[u8]) -> (r: FileKind)
    ensures
        r == kind_of(ext@, head@),
{
    match doc_ext_kind(ext) {
        Some(kind) => kind,
        None => {
            if project::looks_binary(head) {
                FileKind::Opaque
            } else {
                FileKind::Text
            }
        },
    }
}

/// How the file at `path` is treated. `head` holds its leading bytes, or nothing where it
/// has not been read.
pub fn classify(path: &str, head: &[u8]) -> (r: FileKind)
    ensures
        exists|ext: Seq<char>| #[trigger] paths::is_ext_of(path@, ext) && r == kind_of(ext, head@),
{
    let ext = paths::ext_of(path);
    classify_ext(ext.as_str(), head)
}

/// The engine that reads and rewrites a kind of document.
#[derive(Debug, Clone, Copy, PartialEq, Eq, Structural)]
pub enum Engine {
    Writer,
    Calc,
    Impress,
    Pdf,
}

/// The engine of a kind of file; none where it is no document.
pub open spec fn engine_of(kind: FileKind) -> Option<Engine> {
    match kind {
        FileKind::Office(App::Writer) => Some(Engine::Writer),
        FileKind::Office(App::Calc) => Some(Engine::Calc),
        FileKind::Office(App::Impress) => Some(Engine::Impress),
        FileKind::Pdf => Some(Engine::Pdf),
        FileKind::Text => None,
        FileKind::Opaque => None,
    }
}

/// The engine that opens files of a kind, or how the kind is refused.
pub open spec fn is_engine_for(kind: FileKind, r: Result<Engine, String>) -> bool {
    match r {
        Ok(engine) => engine_of(kind) == Some(engine),
        Err(e) => engine_of(kind) is None && e@ == "not a supported document format"@,
    }
}

/// The engine that reads and rewrites a kind of document.
pub fn engine_for(kind: FileKind) -> (r: Result<Engine, String>)
    ensures
        is_engine_for(kind, r),
{
    match kind {
        FileKind::Office(App::Writer) => Ok(Engine::Writer),
        FileKind::Office(App::Calc) => Ok(Engine::Calc),
        FileKind::Office(App::Impress) => Ok(Engine::Impress),
        FileKind::Pdf => Ok(Engine::Pdf),
        FileKind::Text => Err("not a supported document format".to_owned()),
        FileKind::Opaque => Err("not a supported document format".to_owned()),
    }
}

// ── matching ────────────────────────────────────────────────────────────────────

/// A query that is looked for: its text, and whether case counts.
#[derive(Debug, Clone)]
pub struct Needle {
    pub text: String,
    pub fold: bool,
}

/// A query as a mathematical value.
pub struct NeedleText {
    pub text: Seq<char>,
    pub fold: bool,
}

impl View for Needle {
    type V = NeedleText;

    open spec fn view(&self) -> NeedleText {
        NeedleText { text: self.text@, fold: self.fold }
    }
}

/// A text in lower case where case does not count.
pub open spec fn folded(s: Seq<char>, fold: bool) -> Seq<char> {
    if fold {
        text::lower(s)
    } else {
        s
    }
}

/// The query that stands for `query`.
pub open spec fn needle_of(query: Seq<char>, fold: bool) -> NeedleText {
    NeedleText { text: folded(query, fold), fold }
}

/// A text holds the query.
pub open spec fn is_match(n: NeedleText, hay: Seq<char>) -> bool {
    text::contains(folded(hay, n.fold), n.text)
}

/// The byte offset of the query in a text, in lower case where case does not count.
pub open spec fn match_offset(n: NeedleText, hay: Seq<char>) -> Option<int> {
    let h = folded(hay, n.fold);
    match text::find(h, n.text) {
        Some(i) => Some(encode_utf8(h.take(i)).len() as int),
        None => None,
    }
}

/// A text, in lower case where case does not count.
fn fold_text(s: &str, fold: bool) -> (r: String)
    ensures
        r@ == folded(s@, fold),
{
    if fold {
        s.to_lowercase()
    } else {
        s.to_owned()
    }
}

impl Needle {
    /// The query `query`; case does not count where `fold` is set.
    pub fn new(query: &str, fold: bool) -> (r: Needle)
        ensures
            r@ == needle_of(query@, fold),
    {
        Needle { text: fold_text(query, fold), fold }
    }

    /// Whether `hay` holds the query.
    pub fn matches(&self, hay: &str) -> (r: bool)
        ensures
            r == is_match(self@, hay@),
    {
        text::has_text(fold_text(hay, self.fold).as_str(), self.text.as_str())
    }

    /// The byte offset of the first match. It counts in the text in lower case where
    /// case does not count, so it only serves to place a snippet.
    pub fn find_at(&self, hay: &str) -> (r: Option<usize>)
        ensures
            match r {
                Some(at) => match_offset(self@, hay@) == Some(at as int),
                None => match_offset(self@, hay@) is None,
            },
            r is Some <==> is_match(self@, hay@),
    {
        let h = text::to_chars(fold_text(hay, self.fold).as_str());
        let needle = text::to_chars(self.text.as_str());
        proof {
            text::lemma_find(h@, needle@);
        }
        match text::find_chars(&h, &needle) {
            Some(i) => {
                let before = text::substring(&h, 0, i);
                assert(h@.subrange(0, i as int) == h@.take(i as int));
                Some(before.as_str().as_bytes().len())
            },
            None => None,
        }
    }
}

// ── snippets ────────────────────────────────────────────────────────────────────

/// How many characters of a text a hit shows.
pub const SNIPPET_CHARS: usize = 400;

/// How many bytes before a match its snippet starts.
pub const SNIPPET_LEAD: usize = 100;

/// What a hit shows of a text: its first characters without the white space around it.
pub open spec fn snippet_of(s: Seq<char>) -> Seq<char> {
    text::first_chars(text::trim(s), SNIPPET_CHARS as int)
}

/// The first characters of a text without the white space around it.
pub fn snippet(text: &str) -> (r: String)
    ensures
        r@ == snippet_of(text@),
{
    text::beginning(text::trimmed(text).as_str(), SNIPPET_CHARS)
}

/// The last offset between two characters at or before `n`.
pub open spec fn boundary_before(bytes: Seq<u8>, n: int) -> int
    decreases n,
{
    if n <= 0 {
        0
    } else if is_char_boundary(bytes, n) {
        n
    } else {
        boundary_before(bytes, n - 1)
    }
}

/// Where the snippet of a match at byte `at` starts.
pub open spec fn snippet_start(s: Seq<char>, at: int) -> int {
    boundary_before(encode_utf8(s), at - SNIPPET_LEAD)
}

/// What a hit shows of a long text around a match at byte `at`.
pub open spec fn snippet_near(s: Seq<char>, at: int) -> Seq<char> {
    snippet_of(utf8::slice_of(s, snippet_start(s, at), encode_utf8(s).len() as int))
}

/// A snippet around the match at byte `at`: the beginning of a long text would often miss
/// it.
pub fn snippet_around(text: &str, at: usize) -> (r: String)
    ensures
        r@ == snippet_near(text@, at as int),
{
    let ghost bytes = encode_utf8(text@);
    proof {
        encode_utf8_valid_utf8(text@);
        is_char_boundary_start_end_of_seq(bytes);
    }
    let mut start: usize = at.saturating_sub(SNIPPET_LEAD);
    while start > 0 && !text.is_char_boundary(start)
        invariant
            bytes == encode_utf8(text@),
            boundary_before(bytes, at - SNIPPET_LEAD) == boundary_before(bytes, start as int),
        decreases start,
    {
        start -= 1;
    }
    let (_, tail) = text.split_at(start);
    proof {
        assert(tail.spec_bytes() == bytes.subrange(start as int, bytes.len() as int));
        utf8::lemma_text_of_bytes(tail@, bytes.subrange(start as int, bytes.len() as int));
    }
    snippet(tail)
}

// ── hits ────────────────────────────────────────────────────────────────────────

/// Where in a document a hit stands. `R` is what tells a place on a page.
#[derive(Debug, Clone, PartialEq)]
pub enum DocLocator<R> {
    /// A paragraph, counted from zero.
    Paragraph { index: usize },
    /// A cell: the sheet, counted from zero, its name, and the cell's reference.
    Cell { sheet: usize, sheet_name: String, reference: String },
    /// A slide, counted from zero.
    Slide { index: usize },
    /// A page by its number, and the place of the matching run where it is known. Without
    /// one the hit still stands, for the page as a whole.
    Page { page: u32, rect: Option<R> },
}

/// Where in a document a hit stands.
#[verifier::ext_equal]
pub enum Place<R> {
    Paragraph { index: int },
    Cell { sheet: int, sheet_name: Seq<char>, reference: Seq<char> },
    Slide { index: int },
    Page { page: u32, rect: Option<R> },
}

impl<R> View for DocLocator<R> {
    type V = Place<R>;

    open spec fn view(&self) -> Place<R> {
        match self {
            DocLocator::Paragraph { index } => Place::Paragraph { index: *index as int },
            DocLocator::Cell { sheet, sheet_name, reference } => Place::Cell {
                sheet: *sheet as int,
                sheet_name: sheet_name@,
                reference: reference@,
            },
            DocLocator::Slide { index } => Place::Slide { index: *index as int },
            DocLocator::Page { page, rect } => Place::Page { page: *page, rect: *rect },
        }
    }
}

/// One hit in a document.
#[derive(Debug, Clone)]
pub struct DocHit<R> {
    pub path: String,
    /// The path from the directory that was searched.
    pub rel: String,
    /// The extension of the document, in lower case.
    pub format: String,
    pub locator: DocLocator<R>,
    pub text: String,
}

/// A hit as a mathematical value.
#[verifier::ext_equal]
pub struct Hit<R> {
    pub path: Seq<char>,
    pub rel: Seq<char>,
    pub format: Seq<char>,
    pub place: Place<R>,
    pub text: Seq<char>,
}

impl<R> View for DocHit<R> {
    type V = Hit<R>;

    open spec fn view(&self) -> Hit<R> {
        Hit {
            path: self.path@,
            rel: self.rel@,
            format: self.format@,
            place: self.locator@,
            text: self.text@,
        }
    }
}

/// The values of a list of hits.
pub open spec fn hit_views<R>(hits: Seq<DocHit<R>>) -> Seq<Hit<R>> {
    hits.map_values(|h: DocHit<R>| h@)
}

/// A list of hits that holds one more.
pub proof fn lemma_hit_views_push<R>(hits: Seq<DocHit<R>>, h: DocHit<R>)
    ensures
        hit_views(hits.push(h)) == hit_views(hits).push(h@),
{
    assert(hit_views(hits.push(h)) =~= hit_views(hits).push(h@));
}

// ── the text of documents ───────────────────────────────────────────────────────

/// A cell of a spreadsheet.
#[derive(Debug)]
pub struct Cell {
    pub reference: String,
    pub value: String,
}

/// A sheet of a spreadsheet: its rows, each with the cells it has.
#[derive(Debug)]
pub struct Sheet {
    pub name: String,
    pub rows: Vec<Vec<Cell>>,
}

/// A page of a PDF: its number, and its text where it could be extracted.
#[derive(Debug)]
pub struct PdfPage {
    pub number: u32,
    pub text: Option<String>,
}

/// What the search reads of a document.
#[derive(Debug)]
pub enum DocContent<R> {
    /// The paragraphs of a word processor file.
    Writer(Vec<String>),
    /// The sheets of a spreadsheet.
    Calc(Vec<Sheet>),
    /// The texts of each slide.
    Impress(Vec<Vec<String>>),
    /// The pages of a PDF, and the places of the runs that match, each with its page.
    Pdf { pages: Vec<PdfPage>, rects: Vec<(u32, R)> },
}

/// A match within a document.
#[verifier::ext_equal]
pub struct Found<R> {
    pub place: Place<R>,
    pub text: Seq<char>,
}

/// The matches among some paragraphs.
pub open spec fn found_in_paragraphs<R>(paragraphs: Seq<String>, n: NeedleText) -> Seq<Found<R>>
    decreases paragraphs.len(),
{
    if paragraphs.len() == 0 {
        Seq::empty()
    } else {
        let before = found_in_paragraphs(paragraphs.drop_last(), n);
        let p = paragraphs.last()@;
        if is_match(n, p) {
            before.push(
                Found {
                    place: Place::Paragraph { index: paragraphs.len() - 1 },
                    text: snippet_of(p),
                },
            )
        } else {
            before
        }
    }
}

/// The matches among the cells of a row.
pub open spec fn found_in_cells<R>(
    sheet: int,
    name: Seq<char>,
    cells: Seq<Cell>,
    n: NeedleText,
) -> Seq<Found<R>>
    decreases cells.len(),
{
    if cells.len() == 0 {
        Seq::empty()
    } else {
        let before = found_in_cells(sheet, name, cells.drop_last(), n);
        let cell = cells.last();
        if is_match(n, cell.value@) {
            before.push(
                Found {
                    place: Place::Cell { sheet, sheet_name: name, reference: cell.reference@ },
                    text: snippet_of(cell.value@),
                },
            )
        } else {
            before
        }
    }
}

/// The matches among the rows of a sheet.
pub open spec fn found_in_rows<R>(
    sheet: int,
    name: Seq<char>,
    rows: Seq<Vec<Cell>>,
    n: NeedleText,
) -> Seq<Found<R>>
    decreases rows.len(),
{
    if rows.len() == 0 {
        Seq::empty()
    } else {
        found_in_rows(sheet, name, rows.drop_last(), n) + found_in_cells(
            sheet,
            name,
            rows.last()@,
            n,
        )
    }
}

/// The matches in a spreadsheet: sheet by sheet, row by row, cell by cell.
pub open spec fn found_in_sheets<R>(sheets: Seq<Sheet>, n: NeedleText) -> Seq<Found<R>>
    decreases sheets.len(),
{
    if sheets.len() == 0 {
        Seq::empty()
    } else {
        found_in_sheets(sheets.drop_last(), n) + found_in_rows(
            sheets.len() - 1,
            sheets.last().name@,
            sheets.last().rows@,
            n,
        )
    }
}

/// The matches among the texts of a slide.
pub open spec fn found_in_slide<R>(index: int, texts: Seq<String>, n: NeedleText) -> Seq<Found<R>>
    decreases texts.len(),
{
    if texts.len() == 0 {
        Seq::empty()
    } else {
        let before = found_in_slide(index, texts.drop_last(), n);
        let t = texts.last()@;
        if is_match(n, t) {
            before.push(Found { place: Place::Slide { index }, text: snippet_of(t) })
        } else {
            before
        }
    }
}

/// The matches in slides.
pub open spec fn found_in_slides<R>(slides: Seq<Vec<String>>, n: NeedleText) -> Seq<Found<R>>
    decreases slides.len(),
{
    if slides.len() == 0 {
        Seq::empty()
    } else {
        found_in_slides(slides.drop_last(), n) + found_in_slide(
            slides.len() - 1,
            slides.last()@,
            n,
        )
    }
}

/// The first place that is known on a page.
pub open spec fn rect_on<R>(rects: Seq<(u32, R)>, page: u32) -> Option<R>
    decreases rects.len(),
{
    if rects.len() == 0 {
        None
    } else {
        match rect_on(rects.drop_last(), page) {
            Some(r) => Some(r),
            None => if rects.last().0 == page {
                Some(rects.last().1)
            } else {
                None
            },
        }
    }
}

/// The match on a page: at most one, around the first occurrence. A page whose text could
/// not be extracted has none.
pub open spec fn found_on_page<R>(
    page: PdfPage,
    rects: Seq<(u32, R)>,
    n: NeedleText,
) -> Option<Found<R>> {
    match page.text {
        Some(t) => match match_offset(n, t@) {
            Some(at) => Some(
                Found {
                    place: Place::Page { page: page.number, rect: rect_on(rects, page.number) },
                    text: snippet_near(t@, at),
                },
            ),
            None => None,
        },
        None => None,
    }
}

/// The matches on some pages, in the order that `order` lists them.
pub open spec fn found_on_pages<R>(
    pages: Seq<PdfPage>,
    order: Seq<usize>,
    rects: Seq<(u32, R)>,
    n: NeedleText,
) -> Seq<Found<R>>
    decreases order.len(),
{
    if order.len() == 0 {
        Seq::empty()
    } else {
        let before = found_on_pages(pages, order.drop_last(), rects, n);
        match found_on_page(pages[order.last() as int], rects, n) {
            Some(f) => before.push(f),
            None => before,
        }
    }
}

/// The numbers of some pages.
pub open spec fn page_numbers(pages: Seq<PdfPage>) -> Seq<u32> {
    pages.map_values(|p: PdfPage| p.number)
}

/// The matches in a document, from its start to its end.
pub open spec fn found_in<R>(content: DocContent<R>, n: NeedleText) -> Seq<Found<R>> {
    match content {
        DocContent::Writer(paragraphs) => found_in_paragraphs(paragraphs@, n),
        DocContent::Calc(sheets) => found_in_sheets(sheets@, n),
        DocContent::Impress(slides) => found_in_slides(slides@, n),
        DocContent::Pdf { pages, rects } => found_on_pages(
            pages@,
            sort::order_of(page_numbers(pages@)),
            rects@,
            n,
        ),
    }
}

// ── searching one document ──────────────────────────────────────────────────────

/// A match as the search collects it.
pub open spec fn found_views<R>(v: Seq<(DocLocator<R>, String)>) -> Seq<Found<R>> {
    v.map_values(|f: (DocLocator<R>, String)| Found { place: f.0@, text: f.1@ })
}

/// Put a match behind the others.
fn add_found<R>(found: &mut Vec<(DocLocator<R>, String)>, locator: DocLocator<R>, text: String)
    ensures
        found_views(final(found)@) == found_views(old(found)@).push(
            (Found { place: locator@, text: text@ }),
        ),
{
    let ghost before = found@;
    found.push((locator, text));
    assert(found_views(found@) =~= found_views(before).push(Found { place: locator@, text: text@ }));
}

/// Collect the matches among some paragraphs.
fn search_paragraphs<R>(
    paragraphs: &Vec<String>,
    needle: &Needle,
    found: &mut Vec<(DocLocator<R>, String)>,
)
    ensures
        found_views(final(found)@) == found_views(old(found)@) + found_in_paragraphs::<R>(
            paragraphs@,
            needle@,
        ),
{
    let ghost before = found_views(found@);
    let mut i: usize = 0;
    assert(before + found_in_paragraphs::<R>(paragraphs@.take(0), needle@) =~= before);
    while i < paragraphs.len()
        invariant
            i <= paragraphs@.len(),
            found_views(found@) == before + found_in_paragraphs::<R>(
                paragraphs@.take(i as int),
                needle@,
            ),
        decreases paragraphs@.len() - i,
    {
        proof {
            assert(paragraphs@.take(i + 1).drop_last() =~= paragraphs@.take(i as int));
            assert(paragraphs@.take(i + 1).last() == paragraphs@[i as int]);
        }
        let p: &str = paragraphs[i].as_str();
        if needle.matches(p) {
            add_found(found, DocLocator::Paragraph { index: i }, snippet(p));
        }
        i += 1;
        assert(found_views(found@) =~= before + found_in_paragraphs::<R>(
            paragraphs@.take(i as int),
            needle@,
        ));
    }
    assert(paragraphs@.take(paragraphs@.len() as int) =~= paragraphs@);
}

/// Collect the matches among the cells of a row.
fn search_cells<R>(
    sheet: usize,
    name: &str,
    cells: &Vec<Cell>,
    needle: &Needle,
    found: &mut Vec<(DocLocator<R>, String)>,
)
    ensures
        found_views(final(found)@) == found_views(old(found)@) + found_in_cells::<R>(
            sheet as int,
            name@,
            cells@,
            needle@,
        ),
{
    let ghost before = found_views(found@);
    let mut i: usize = 0;
    assert(before + found_in_cells::<R>(sheet as int, name@, cells@.take(0), needle@) =~= before);
    while i < cells.len()
        invariant
            i <= cells@.len(),
            found_views(found@) == before + found_in_cells::<R>(
                sheet as int,
                name@,
                cells@.take(i as int),
                needle@,
            ),
        decreases cells@.len() - i,
    {
        proof {
            assert(cells@.take(i + 1).drop_last() =~= cells@.take(i as int));
            assert(cells@.take(i + 1).last() == cells@[i as int]);
        }
        let cell: &Cell = &cells[i];
        if needle.matches(cell.value.as_str()) {
            let locator = DocLocator::Cell {
                sheet,
                sheet_name: name.to_owned(),
                reference: cell.reference.clone(),
            };
            add_found(found, locator, snippet(cell.value.as_str()));
        }
        i += 1;
        assert(found_views(found@) =~= before + found_in_cells::<R>(
            sheet as int,
            name@,
            cells@.take(i as int),
            needle@,
        ));
    }
    assert(cells@.take(cells@.len() as int) =~= cells@);
}

/// Collect the matches among the rows of a sheet.
fn search_rows<R>(
    sheet: usize,
    name: &str,
    rows: &Vec<Vec<Cell>>,
    needle: &Needle,
    found: &mut Vec<(DocLocator<R>, String)>,
)
    ensures
        found_views(final(found)@) == found_views(old(found)@) + found_in_rows::<R>(
            sheet as int,
            name@,
            rows@,
            needle@,
        ),
{
    let ghost before = found_views(found@);
    let mut i: usize = 0;
    assert(before + found_in_rows::<R>(sheet as int, name@, rows@.take(0), needle@) =~= before);
    while i < rows.len()
        invariant
            i <= rows@.len(),
            found_views(found@) == before + found_in_rows::<R>(
                sheet as int,
                name@,
                rows@.take(i as int),
                needle@,
            ),
        decreases rows@.len() - i,
    {
        proof {
            assert(rows@.take(i + 1).drop_last() =~= rows@.take(i as int));
            assert(rows@.take(i + 1).last() == rows@[i as int]);
        }
        search_cells(sheet, name, &rows[i], needle, found);
        i += 1;
        assert(found_views(found@) =~= before + found_in_rows::<R>(
            sheet as int,
            name@,
            rows@.take(i as int),
            needle@,
        ));
    }
    assert(rows@.take(rows@.len() as int) =~= rows@);
}

/// Collect the matches in a spreadsheet.
fn search_sheets<R>(
    sheets: &Vec<Sheet>,
    needle: &Needle,
    found: &mut Vec<(DocLocator<R>, String)>,
)
    ensures
        found_views(final(found)@) == found_views(old(found)@) + found_in_sheets::<R>(
            sheets@,
            needle@,
        ),
{
    let ghost before = found_views(found@);
    let mut i: usize = 0;
    assert(before + found_in_sheets::<R>(sheets@.take(0), needle@) =~= before);
    while i < sheets.len()
        invariant
            i <= sheets@.len(),
            found_views(found@) == before + found_in_sheets::<R>(sheets@.take(i as int), needle@),
        decreases sheets@.len() - i,
    {
        proof {
            assert(sheets@.take(i + 1).drop_last() =~= sheets@.take(i as int));
            assert(sheets@.take(i + 1).last() == sheets@[i as int]);
        }
        search_rows(i, sheets[i].name.as_str(), &sheets[i].rows, needle, found);
        i += 1;
        assert(found_views(found@) =~= before + found_in_sheets::<R>(
            sheets@.take(i as int),
            needle@,
        ));
    }
    assert(sheets@.take(sheets@.len() as int) =~= sheets@);
}

/// Collect the matches among the texts of a slide.
fn search_slide<R>(
    index: usize,
    texts: &Vec<String>,
    needle: &Needle,
    found: &mut Vec<(DocLocator<R>, String)>,
)
    ensures
        found_views(final(found)@) == found_views(old(found)@) + found_in_slide::<R>(
            index as int,
            texts@,
            needle@,
        ),
{
    let ghost before = found_views(found@);
    let mut i: usize = 0;
    assert(before + found_in_slide::<R>(index as int, texts@.take(0), needle@) =~= before);
    while i < texts.len()
        invariant
            i <= texts@.len(),
            found_views(found@) == before + found_in_slide::<R>(
                index as int,
                texts@.take(i as int),
                needle@,
            ),
        decreases texts@.len() - i,
    {
        proof {
            assert(texts@.take(i + 1).drop_last() =~= texts@.take(i as int));
            assert(texts@.take(i + 1).last() == texts@[i as int]);
        }
        let t: &str = texts[i].as_str();
        if needle.matches(t) {
            add_found(found, DocLocator::Slide { index }, snippet(t));
        }
        i += 1;
        assert(found_views(found@) =~= before + found_in_slide::<R>(
            index as int,
            texts@.take(i as int),
            needle@,
        ));
    }
    assert(texts@.take(texts@.len() as int) =~= texts@);
}

/// Collect the matches in slides.
fn search_slides<R>(
    slides: &Vec<Vec<String>>,
    needle: &Needle,
    found: &mut Vec<(DocLocator<R>, String)>,
)
    ensures
        found_views(final(found)@) == found_views(old(found)@) + found_in_slides::<R>(
            slides@,
            needle@,
        ),
{
    let ghost before = found_views(found@);
    let mut i: usize = 0;
    assert(before + found_in_slides::<R>(slides@.take(0), needle@) =~= before);
    while i < slides.len()
        invariant
            i <= slides@.len(),
            found_views(found@) == before + found_in_slides::<R>(slides@.take(i as int), needle@),
        decreases slides@.len() - i,
    {
        proof {
            assert(slides@.take(i + 1).drop_last() =~= slides@.take(i as int));
            assert(slides@.take(i + 1).last() == slides@[i as int]);
        }
        search_slide(i, &slides[i], needle, found);
        i += 1;
        assert(found_views(found@) =~= before + found_in_slides::<R>(
            slides@.take(i as int),
            needle@,
        ));
    }
    assert(slides@.take(slides@.len() as int) =~= slides@);
}

/// What a table of places holds for a page.
spec fn looked_up<R>(table: Map<u32, R>, page: u32) -> Option<R> {
    if table.dom().contains(page) {
        Some(table[page])
    } else {
        None
    }
}

/// The first place that is known on each page.
fn first_rects<R: Copy>(rects: &Vec<(u32, R)>) -> (table: HashMap<u32, R>)
    ensures
        forall|page: u32| #[trigger] looked_up(table@, page) == rect_on(rects@, page),
{
    broadcast use vstd::std_specs::hash::group_hash_axioms;

    let mut table: HashMap<u32, R> = HashMap::new();
    let mut i: usize = 0;
    while i < rects.len()
        invariant
            i <= rects@.len(),
            forall|page: u32| #[trigger]
                looked_up(table@, page) == rect_on(rects@.take(i as int), page),
        decreases rects@.len() - i,
    {
        let (page, rect) = rects[i];
        let ghost before = table@;
        proof {
            assert(rects@.take(i + 1).drop_last() =~= rects@.take(i as int));
            assert(rects@.take(i + 1).last() == rects@[i as int]);
            assert(looked_up(before, page) == rect_on(rects@.take(i as int), page));
        }
        if !table.contains_key(&page) {
            table.insert(page, rect);
        }
        proof {
            assert forall|p: u32| #[trigger] looked_up(table@, p) == rect_on(
                rects@.take(i + 1),
                p,
            ) by {
                assert(looked_up(before, p) == rect_on(rects@.take(i as int), p));
            }
        }
        i += 1;
    }
    assert(rects@.take(rects@.len() as int) =~= rects@);
    table
}

/// The numbers of some pages.
fn numbers_of(pages: &Vec<PdfPage>) -> (r: Vec<u32>)
    ensures
        r@ == page_numbers(pages@),
{
    let mut r: Vec<u32> = Vec::new();
    let mut i: usize = 0;
    while i < pages.len()
        invariant
            i <= pages@.len(),
            r@ == page_numbers(pages@).take(i as int),
        decreases pages@.len() - i,
    {
        r.push(pages[i].number);
        i += 1;
        assert(page_numbers(pages@).take(i as int) =~= page_numbers(pages@).take(i - 1).push(
            pages@[i - 1].number,
        ));
    }
    assert(page_numbers(pages@).take(pages@.len() as int) =~= page_numbers(pages@));
    r
}

/// Collect the matches in a PDF, page by page in the order of their numbers.
fn search_pages<R: Copy>(
    pages: &Vec<PdfPage>,
    rects: &Vec<(u32, R)>,
    needle: &Needle,
    found: &mut Vec<(DocLocator<R>, String)>,
)
    ensures
        found_views(final(found)@) == found_views(old(found)@) + found_on_pages(
            pages@,
            sort::order_of(page_numbers(pages@)),
            rects@,
            needle@,
        ),
{
    broadcast use vstd::std_specs::hash::group_hash_axioms;

    let ghost before = found_views(found@);
    let order = sort::sorted_order(&numbers_of(pages));
    let table = first_rects(rects);
    let mut i: usize = 0;
    assert(before + found_on_pages(pages@, order@.take(0), rects@, needle@) =~= before);
    while i < order.len()
        invariant
            i <= order@.len(),
            forall|k: int| 0 <= k < order@.len() ==> #[trigger] order@[k] < pages@.len(),
            forall|page: u32| #[trigger] looked_up(table@, page) == rect_on(rects@, page),
            found_views(found@) == before + found_on_pages(
                pages@,
                order@.take(i as int),
                rects@,
                needle@,
            ),
        decreases order@.len() - i,
    {
        proof {
            assert(order@.take(i + 1).drop_last() =~= order@.take(i as int));
            assert(order@.take(i + 1).last() == order@[i as int]);
        }
        let page: &PdfPage = &pages[order[i]];
        match &page.text {
            Some(t) => {
                match needle.find_at(t.as_str()) {
                    Some(at) => {
                        let rect: Option<R> = match table.get(&page.number) {
                            Some(r) => Some(*r),
                            None => None,
                        };
                        assert(rect == looked_up(table@, page.number));
                        add_found(
                            found,
                            DocLocator::Page { page: page.number, rect },
                            snippet_around(t.as_str(), at),
                        );
                    },
                    None => {},
                }
            },
            None => {},
        }
        i += 1;
        assert(found_views(found@) =~= before + found_on_pages(
            pages@,
            order@.take(i as int),
            rects@,
            needle@,
        ));
    }
    assert(order@.take(order@.len() as int) =~= order@);
}

/// The hits that some matches make, in a document at a path.
pub open spec fn hits_for<R>(
    path: Seq<char>,
    rel: Seq<char>,
    format: Seq<char>,
    found: Seq<Found<R>>,
) -> Seq<Hit<R>> {
    found.map_values(|f: Found<R>| Hit { path, rel, format, place: f.place, text: f.text })
}

/// Why a document cannot be searched.
pub open spec fn search_refusal<R>(content: Result<DocContent<R>, String>) -> Option<Seq<char>> {
    match content {
        Err(e) => Some(e@),
        Ok(_) => None,
    }
}

/// What a search of one document gives.
pub open spec fn search_outcome<R>(
    path: Seq<char>,
    rel: Seq<char>,
    format: Seq<char>,
    content: Result<DocContent<R>, String>,
    n: NeedleText,
    r: Result<Vec<DocHit<R>>, String>,
) -> bool {
    match r {
        Ok(hits) => search_refusal(content) is None && hit_views(hits@) == hits_for(
            path,
            rel,
            format,
            found_in(content->Ok_0, n),
        ),
        Err(e) => search_refusal(content) == Some(e@),
    }
}

/// The hits in one document of a known format, from what could be read of it or from what
/// went wrong in reading it.
pub fn search_format<R: Copy>(
    path: &str,
    rel: &str,
    format: &str,
    content: Result<DocContent<R>, String>,
    needle: &Needle,
) -> (r: Result<Vec<DocHit<R>>, String>)
    ensures
        search_outcome(path@, rel@, format@, content, needle@, r),
{
    let content = match content {
        Ok(content) => content,
        Err(e) => {
            return Err(e);
        },
    };
    let mut found: Vec<(DocLocator<R>, String)> = Vec::new();
    assert(found_views(found@) =~= Seq::<Found<R>>::empty());
    match &content {
        DocContent::Writer(paragraphs) => search_paragraphs(paragraphs, needle, &mut found),
        DocContent::Calc(sheets) => search_sheets(sheets, needle, &mut found),
        DocContent::Impress(slides) => search_slides(slides, needle, &mut found),
        DocContent::Pdf { pages, rects } => search_pages(pages, rects, needle, &mut found),
    }
    let ghost all = found_in(content, needle@);
    assert(found_views(found@) =~= all);
    let mut hits: Vec<DocHit<R>> = Vec::new();
    let ghost pairs = found@;
    for pair in it: found.into_iter()
        invariant
            it.seq() == pairs,
            found_views(pairs) == all,
            hit_views(hits@) == hits_for(path@, rel@, format@, all.take(it.index() as int)),
    {
        let ghost k = it.index() as int;
        assert(found_views(pairs)[k] == all[k]);
        let (locator, text) = pair;
        let hit = DocHit {
            path: path.to_owned(),
            rel: rel.to_owned(),
            format: format.to_owned(),
            locator,
            text,
        };
        proof {
            lemma_hit_views_push(hits@, hit);
            assert(hits_for(path@, rel@, format@, all.take(k + 1)) =~= hits_for(
                path@,
                rel@,
                format@,
                all.take(k),
            ).push(hit@));
        }
        hits.push(hit);
    }
    assert(all.take(all.len() as int) =~= all);
    Ok(hits)
}

/// The hits in the document at `path`, from what could be read of it or from what went
/// wrong in reading it. `rel` is the path from the directory that is searched.
pub fn search_one<R: Copy>(
    path: &str,
    rel: &str,
    content: Result<DocContent<R>, String>,
    needle: &Needle,
) -> (r: Result<Vec<DocHit<R>>, String>)
    ensures
        exists|format: Seq<char>|
            paths::is_ext_of(path@, format) && #[trigger] search_outcome(
                path@,
                rel@,
                format,
                content,
                needle@,
                r,
            ),
{
    let format = paths::ext_of(path);
    search_format(path, rel, format.as_str(), content, needle)
}

} // verus!
