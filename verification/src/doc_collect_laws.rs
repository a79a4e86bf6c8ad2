//! Which documents are searched, in which order, and what a search of all of them gives.

use crate::doc_collect;
use crate::doc_collect::Candidate;
use crate::doc_collect::DocSearchOpts;
use crate::doc_collect::DocSearchResult;
use crate::doc_collect::OpenedDoc;
use crate::doc_collect::Part;
use crate::doc_collect::SearchPlan;
use crate::doc_replace_laws;
use crate::doc_search;
use crate::doc_search::App;
use crate::doc_search::DocHit;
use crate::doc_search::Engine;
use crate::doc_search::FileKind;
use crate::paths;
use crate::picks;
use crate::sort;
use crate::text;
use vstd::prelude::*;

verus! {

// ── kinds ───────────────────────────────────────────────────────────────────────

/// Each extension of a document stands for one kind, and no other extension for any.
pub proof fn law_kinds(ext: Seq<char>)
    ensures
        doc_search::kind_of_ext(ext) == Some(FileKind::Office(App::Writer)) <==> seq![
            "docx"@,
            "odt"@,
        ].contains(ext),
        doc_search::kind_of_ext(ext) == Some(FileKind::Office(App::Calc)) <==> seq![
            "xlsx"@,
            "ods"@,
        ].contains(ext),
        doc_search::kind_of_ext(ext) == Some(FileKind::Office(App::Impress)) <==> seq![
            "pptx"@,
            "odp"@,
        ].contains(ext),
        doc_search::kind_of_ext(ext) == Some(FileKind::Pdf) <==> ext == "pdf"@,
        doc_search::kind_of_ext(ext) != Some(FileKind::Text),
        doc_search::kind_of_ext(ext) != Some(FileKind::Opaque),
{
    lemma_pair("docx"@, "odt"@, ext);
    lemma_pair("xlsx"@, "ods"@, ext);
    lemma_pair("pptx"@, "odp"@, ext);
    reveal_strlit("docx");
    reveal_strlit("odt");
    reveal_strlit("xlsx");
    reveal_strlit("ods");
    reveal_strlit("pptx");
    reveal_strlit("odp");
    reveal_strlit("pdf");
    assert("docx"@[0] == 'd' && "xlsx"@[0] == 'x' && "pptx"@[0] == 'p');
    assert("odt"@[2] == 't' && "ods"@[2] == 's' && "odp"@[2] == 'p' && "pdf"@[2] == 'f');
    assert("docx"@.len() == 4 && "xlsx"@.len() == 4 && "pptx"@.len() == 4);
    assert("odt"@.len() == 3 && "ods"@.len() == 3 && "odp"@.len() == 3 && "pdf"@.len() == 3);
}

/// What is one of two.
proof fn lemma_pair(a: Seq<char>, b: Seq<char>, x: Seq<char>)
    ensures
        seq![a, b].contains(x) <==> x == a || x == b,
{
    let s = seq![a, b];
    assert(s[0] == a && s[1] == b);
}

/// A file that is no document is left out just where a NUL stands among its first 8192
/// bytes, and is text otherwise.
pub proof fn law_other_files(ext: Seq<char>, head: Seq<u8>)
    requires
        doc_search::kind_of_ext(ext) is None,
    ensures
        doc_search::kind_of(ext, head) == FileKind::Opaque <==> head.take(if head.len() < 8192 {
            head.len() as int
        } else {
            8192
        }).contains(0),
        doc_search::kind_of(ext, head) == FileKind::Opaque || doc_search::kind_of(ext, head)
            == FileKind::Text,
{
    let n = if head.len() < 8192 {
        head.len() as int
    } else {
        8192
    };
    let start = head.take(n);
    if start.contains(0) {
        let i = choose|i: int| 0 <= i < start.len() && start[i] == 0;
        assert(head[i] == 0);
    }
    if crate::project::has_early_nul(head) {
        let i = choose|i: int|
            0 <= i < head.len() && i < crate::project::BINARY_SNIFF_BYTES && head[i] == 0;
        assert(start[i] == 0);
    }
}

/// There is one engine for each kind of document, and none for other files.
pub proof fn law_engines(kind: FileKind)
    ensures
        doc_search::engine_of(kind) == Some(Engine::Writer) <==> kind == FileKind::Office(
            App::Writer,
        ),
        doc_search::engine_of(kind) == Some(Engine::Calc) <==> kind == FileKind::Office(App::Calc),
        doc_search::engine_of(kind) == Some(Engine::Impress) <==> kind == FileKind::Office(
            App::Impress,
        ),
        doc_search::engine_of(kind) == Some(Engine::Pdf) <==> kind == FileKind::Pdf,
{
}

/// Files of a kind are opened by its engine, and are refused where there is none: those
/// that are neither of an office kind nor a PDF.
pub proof fn law_engine_for(kind: FileKind, r: Result<Engine, String>)
    requires
        doc_search::is_engine_for(kind, r),
    ensures
        r is Ok <==> kind is Office || kind is Pdf,
        r is Ok ==> doc_search::engine_of(kind) == Some(r->Ok_0),
        r is Err ==> r->Err_0@ == "not a supported document format"@,
{
}

// ── the order of paths ──────────────────────────────────────────────────────────

/// A path that ends where another goes on comes first.
pub proof fn law_shorter_path_first(a: Seq<Part>, more: Seq<Part>)
    requires
        more.len() > 0,
    ensures
        doc_collect::path_before(a, a + more),
        !doc_collect::path_before(a + more, a),
{
    let b = a + more;
    let lt = doc_collect::part_order();
    let n = a.len() as int;
    sort::lemma_list_skip(a, b, lt, n);
    sort::lemma_list_skip(b, a, lt, n);
    assert(a.skip(n).len() == 0);
    assert(b.skip(n) =~= more);
}

/// Of two paths that part somewhere, the one comes first whose component there is of an
/// earlier kind, or of the same kind with an earlier name; what follows does not count.
pub proof fn law_paths_part(
    common: Seq<Part>,
    x: Part,
    y: Part,
    rest_x: Seq<Part>,
    rest_y: Seq<Part>,
)
    requires
        x != y,
    ensures
        doc_collect::path_before(common.push(x) + rest_x, common.push(y) + rest_y) <==> x.rank
            < y.rank || (x.rank == y.rank && sort::list_before(
            x.name,
            y.name,
            |a: u8, b: u8| a < b,
        )),
{
    let a = common.push(x) + rest_x;
    let b = common.push(y) + rest_y;
    let n = common.len() as int;
    let lt = doc_collect::part_order();
    assert forall|i: int| 0 <= i < n implies a[i] == b[i] by {
        assert(a[i] == common[i] && b[i] == common[i]);
    }
    sort::lemma_list_skip(a, b, lt, n);
    assert(a.skip(n)[0] == x);
    assert(b.skip(n)[0] == y);
}

/// Of two names, the one comes first whose first byte that differs is smaller, or that ends
/// where the other goes on.
pub proof fn law_names_part(
    common: Seq<u8>,
    x: u8,
    y: u8,
    rest_x: Seq<u8>,
    rest_y: Seq<u8>,
)
    ensures
        x != y ==> (sort::list_before(
            common.push(x) + rest_x,
            common.push(y) + rest_y,
            sort::byte_order(),
        ) <==> x < y),
        sort::list_before(common, common.push(y) + rest_y, sort::byte_order()),
        !sort::list_before(common.push(y) + rest_y, common, sort::byte_order()),
        !sort::list_before(common, common, sort::byte_order()),
{
    let a = common.push(x) + rest_x;
    let b = common.push(y) + rest_y;
    let n = common.len() as int;
    let lt = sort::byte_order();
    assert forall|i: int| 0 <= i < n implies a[i] == b[i] by {
        assert(a[i] == common[i] && b[i] == common[i]);
    }
    assert forall|i: int| 0 <= i < n implies common[i] == b[i] by {}
    sort::lemma_list_skip(a, b, lt, n);
    sort::lemma_list_skip(common, b, lt, n);
    sort::lemma_list_skip(b, common, lt, n);
    sort::lemma_list_strict(common, lt);
    assert(a.skip(n)[0] == x);
    assert(b.skip(n)[0] == y);
    assert(common.skip(n).len() == 0);
}

/// A path lies under a root just where it is the root and something more.
pub proof fn law_under(path: Seq<Part>, root: Seq<Part>)
    ensures
        doc_collect::is_under(path, root) <==> exists|more: Seq<Part>|
            path == #[trigger] (root + more),
{
    let n = root.len() as int;
    if doc_collect::is_under(path, root) {
        assert(path =~= path.take(n) + path.skip(n));
        assert(path == root + path.skip(n));
    }
    if exists|more: Seq<Part>| path == #[trigger] (root + more) {
        assert(path.take(n) =~= root);
    }
}

/// What is left of a path under a root, once the components to leave out are gone, leads
/// from the root to it. No components are left out of a path outside.
pub proof fn law_parts_to_drop(path: Seq<Part>, root: Seq<Part>)
    requires
        root.len() <= usize::MAX,
    ensures
        ({
            let n = doc_collect::to_drop(path, root);
            &&& n is Some <==> exists|more: Seq<Part>| path == #[trigger] (root + more)
            &&& n is Some ==> n->0 <= path.len() && path == root + path.skip(n->0 as int)
        }),
{
    law_under(path, root);
    if doc_collect::is_under(path, root) {
        let n = root.len() as int;
        assert(path =~= path.take(n) + path.skip(n));
    }
}

/// A component and a file are told by what they hold.
pub proof fn law_part_view(part: doc_collect::PathPart, file: Candidate)
    ensures
        part@.rank == part.rank,
        part@.name == part.name@,
        file@.len() == file.parts@.len(),
        forall|i: int| 0 <= i < file@.len() ==> #[trigger] file@[i] == file.parts@[i]@,
{
}

// ── collecting ──────────────────────────────────────────────────────────────────

/// A file is searched: its extension names a document, its format is asked for or none is,
/// and its size is known and at most 64 MiB.
pub open spec fn is_searched(
    file: Candidate,
    ext: Seq<char>,
    formats: Option<Seq<Seq<char>>>,
) -> bool {
    &&& doc_search::kind_of_ext(ext) is Some
    &&& formats is Some ==> exists|i: int|
        0 <= i < formats->0.len() && #[trigger] text::same_but_ascii_case(formats->0[i], ext)
    &&& file.len is Some
    &&& file.len->0 <= 0x400_0000
}

/// A file comes before another: by its path, or by its place where the paths are the same.
pub open spec fn file_before(files: Seq<Candidate>, a: int, b: int) -> bool {
    doc_collect::path_before(files[a]@, files[b]@) || (files[a]@ == files[b]@ && a < b)
}

/// A list of places holds place `i`.
spec fn is_listed(order: Seq<usize>, i: int) -> bool {
    exists|j: int| 0 <= j < order.len() && #[trigger] order[j] as int == i
}

/// The files of a sorted list that are searched.
proof fn lemma_places_in(
    files: Seq<Candidate>,
    exts: Seq<Seq<char>>,
    formats: Option<Seq<Seq<char>>>,
    order: Seq<usize>,
)
    requires
        forall|i: int| 0 <= i < order.len() ==> 0 <= #[trigger] order[i] < files.len(),
        forall|i: int, j: int|
            0 <= i < j < order.len() ==> file_before(
                files,
                #[trigger] order[i] as int,
                #[trigger] order[j] as int,
            ),
    ensures
        ({
            let places = doc_collect::places_in(files, exts, formats, order);
            &&& picks::lists_all(
                places.map_values(|p: (usize, FileKind)| p.0 as int),
                |i: int|
                    0 <= i < files.len() && is_searched(files[i], exts[i], formats) && is_listed(
                        order,
                        i,
                    ),
                |a: int, b: int| file_before(files, a, b),
            )
            &&& forall|k: int|
                0 <= k < places.len() ==> Some((#[trigger] places[k]).1)
                    == doc_search::kind_of_ext(exts[places[k].0 as int])
        }),
    decreases order.len(),
{
    let places = doc_collect::places_in(files, exts, formats, order);
    let at = places.map_values(|p: (usize, FileKind)| p.0 as int);
    let wanted = |i: int|
        0 <= i < files.len() && is_searched(files[i], exts[i], formats) && is_listed(order, i);
    let lt = |a: int, b: int| file_before(files, a, b);
    if order.len() == 0 {
        picks::lemma_lists_none(wanted, lt);
        assert(at =~= Seq::empty());
    } else {
        let t = order.drop_last();
        let last = order.len() - 1;
        let next = order[last] as int;
        assert forall|i: int| 0 <= i < t.len() implies 0 <= #[trigger] t[i] < files.len() by {
            assert(t[i] == order[i]);
        }
        assert forall|i: int, j: int| 0 <= i < j < t.len() implies file_before(
            files,
            #[trigger] t[i] as int,
            #[trigger] t[j] as int,
        ) by {
            assert(t[i] == order[i] && t[j] == order[j]);
        }
        lemma_places_in(files, exts, formats, t);
        let fewer = doc_collect::places_in(files, exts, formats, t);
        let before = fewer.map_values(|p: (usize, FileKind)| p.0 as int);
        let in_before = |i: int|
            0 <= i < files.len() && is_searched(files[i], exts[i], formats) && is_listed(t, i);
        assert forall|i: int| i != next implies (#[trigger] wanted(i) <==> in_before(i)) by {
            if is_listed(order, i) {
                let j = choose|j: int| 0 <= j < order.len() && #[trigger] order[j] as int == i;
                assert(t[j] as int == i);
            }
            if is_listed(t, i) {
                let j = choose|j: int| 0 <= j < t.len() && #[trigger] t[j] as int == i;
                assert(order[j] as int == i);
            }
        }
        assert forall|i: int| #[trigger] in_before(i) implies lt(i, next) by {
            let j = choose|j: int| 0 <= j < t.len() && #[trigger] t[j] as int == i;
            assert(file_before(files, order[j] as int, order[last] as int));
        }
        assert(!in_before(next)) by {
            if in_before(next) {
                assert(lt(next, next));
                <Candidate as sort::Ranked>::precedes_is_strict(files[next]@);
            }
        }
        picks::lemma_lists_next(before, next, in_before, wanted, lt);
        assert(order[last] as int == next);
        assert(is_listed(order, next));
        assert(0 <= order[last] < files.len());
        let kind = doc_collect::kept(exts[next], files[next].len, formats);
        assert(kind is Some <==> is_searched(files[next], exts[next], formats)) by {
            match formats {
                Some(list) => {
                    if doc_collect::lists_format(list, exts[next]) {
                        let i = choose|i: int|
                            0 <= i < list.len() && #[trigger] text::same_but_ascii_case(
                                list[i],
                                exts[next],
                            );
                        assert(text::same_but_ascii_case(formats->0[i], exts[next]));
                    }
                },
                None => {},
            }
        }
        assert(at =~= picks::with_next(before, next, wanted(next)));
        assert forall|k: int| 0 <= k < places.len() implies Some((#[trigger] places[k]).1)
            == doc_search::kind_of_ext(exts[places[k].0 as int]) by {
            if k < fewer.len() {
                assert(places[k] == fewer[k]);
            }
        }
    }
}

/// The documents that are collected are the files that are searched, all of them and no
/// other, each once, in the order of their paths, and each of the kind that its extension
/// names.
pub proof fn law_every_document(
    files: Seq<Candidate>,
    exts: Seq<Seq<char>>,
    formats: Option<Seq<Seq<char>>>,
)
    requires
        exts.len() == files.len(),
        files.len() <= usize::MAX,
    ensures
        ({
            let places = doc_collect::places_of(files, exts, formats);
            &&& picks::lists_all(
                places.map_values(|p: (usize, FileKind)| p.0 as int),
                |i: int| 0 <= i < files.len() && is_searched(files[i], exts[i], formats),
                |a: int, b: int|
                    doc_collect::path_before(files[a]@, files[b]@) || (files[a]@ == files[b]@ && a
                        < b),
            )
            &&& forall|k: int|
                0 <= k < places.len() ==> Some((#[trigger] places[k]).1)
                    == doc_search::kind_of_ext(exts[places[k].0 as int])
            &&& doc_collect::documents_of(files, exts, formats) == places.map_values(
                |p: (usize, FileKind)| (files[p.0 as int].path@, p.1),
            )
        }),
{
    let order = sort::order_of(files);
    sort::law_order_exists(files);
    assert forall|i: int, j: int| 0 <= i < j < order.len() implies file_before(
        files,
        #[trigger] order[i] as int,
        #[trigger] order[j] as int,
    ) by {
        assert(sort::earlier(files, order[i] as int, order[j] as int));
    }
    lemma_places_in(files, exts, formats, order);
    doc_collect::lemma_places(files, exts, formats, order);
    let places = doc_collect::places_of(files, exts, formats);
    let at = places.map_values(|p: (usize, FileKind)| p.0 as int);
    let listed = |i: int|
        0 <= i < files.len() && is_searched(files[i], exts[i], formats) && is_listed(order, i);
    let wanted = |i: int| 0 <= i < files.len() && is_searched(files[i], exts[i], formats);
    let lt = |a: int, b: int|
        doc_collect::path_before(files[a]@, files[b]@) || (files[a]@ == files[b]@ && a < b);
    assert forall|i: int| #[trigger] wanted(i) <==> listed(i) by {
        if wanted(i) {
            assert(order.contains(i as usize));
            let j = choose|j: int| 0 <= j < order.len() && order[j] == i as usize;
            assert(order[j] as int == i);
        }
    }
    assert(picks::lists_all(at, wanted, lt)) by {
        assert forall|k: int| 0 <= k < at.len() implies wanted(#[trigger] at[k]) by {
            assert(listed(at[k]));
        }
        assert forall|i: int, j: int| 0 <= i < j < at.len() implies lt(
            #[trigger] at[i],
            #[trigger] at[j],
        ) by {
            assert(file_before(files, at[i], at[j]));
        }
        assert forall|i: int| #[trigger] wanted(i) implies at.contains(i) by {
            assert(listed(i));
        }
    }
}

/// A list of documents has the path and the kind of each at its place, and a list of formats
/// the text of each.
pub proof fn law_document_views(docs: Seq<(String, FileKind)>, formats: Vec<String>, i: int)
    ensures
        doc_collect::document_views(docs).len() == docs.len(),
        0 <= i < docs.len() ==> doc_collect::document_views(docs)[i] == (docs[i].0@, docs[i].1),
        doc_collect::formats_view(None) is None,
        doc_collect::formats_view(Some(formats)) == Some(text::views(formats@)),
{
}

// ── searching all documents ─────────────────────────────────────────────────────

/// A request gets a thousand hits where it does not say how many, and never more than
/// twenty thousand.
pub proof fn law_result_limit(asked: usize)
    ensures
        doc_collect::result_limit(None) == 1000,
        asked <= 20000 ==> doc_collect::result_limit(Some(asked)) == asked,
        asked >= 20000 ==> doc_collect::result_limit(Some(asked)) == 20000,
{
}

/// The hits that a search finds in one of some documents: those of its matches, where it
/// could be read.
pub open spec fn hits_of_one<R>(
    doc: OpenedDoc<R>,
    format: Seq<char>,
    n: doc_search::NeedleText,
) -> Seq<doc_search::Hit<R>> {
    if doc.content is Ok {
        doc_search::hits_for(
            doc.path@,
            doc.rel@,
            format,
            doc_search::found_in(doc.content->Ok_0, n),
        )
    } else {
        Seq::empty()
    }
}

/// The hits of some documents are those of each, one document behind the other.
proof fn lemma_hits_in<R>(
    docs: Seq<OpenedDoc<R>>,
    formats: Seq<Seq<char>>,
    n: doc_search::NeedleText,
)
    ensures
        doc_collect::hits_in(docs, formats, n) == Seq::new(
            docs.len(),
            |d: int| hits_of_one(docs[d], formats[d], n),
        ).flatten(),
    decreases docs.len(),
{
    let each = Seq::new(docs.len(), |d: int| hits_of_one(docs[d], formats[d], n));
    if docs.len() == 0 {
        assert(each.flatten() =~= Seq::empty());
    } else {
        let t = docs.drop_last();
        lemma_hits_in(t, formats, n);
        let before = Seq::new(t.len(), |d: int| hits_of_one(t[d], formats[d], n));
        let own = hits_of_one(docs.last(), formats[docs.len() - 1], n);
        assert(each =~= before.push(own));
        before.lemma_flatten_push(own);
        if docs.last().content is Err {
            assert(before.flatten() + own =~= before.flatten());
        }
    }
}

/// The documents that could not be read.
spec fn unreadable<R>(docs: Seq<OpenedDoc<R>>) -> spec_fn(int) -> bool {
    |i: int| 0 <= i < docs.len() && docs[i].content is Err
}

/// What went wrong with some documents, by those that could not be read.
proof fn lemma_refusals<R>(docs: Seq<OpenedDoc<R>>) -> (at: Seq<int>)
    ensures
        picks::lists_all(at, unreadable(docs), picks::ascending()),
        ({
            let errors = doc_collect::refusals_in(docs);
            &&& errors.len() == at.len()
            &&& forall|k: int|
                0 <= k < at.len() ==> #[trigger] errors[k] == (
                    docs[at[k]].path@,
                    docs[at[k]].content->Err_0@,
                )
        }),
    decreases docs.len(),
{
    let wanted = unreadable(docs);
    if docs.len() == 0 {
        picks::lemma_lists_none(wanted, picks::ascending());
        Seq::empty()
    } else {
        let t = docs.drop_last();
        let i = docs.len() - 1;
        let before = lemma_refusals(t);
        let in_before = unreadable(t);
        assert forall|k: int| k != i implies (#[trigger] wanted(k) <==> in_before(k)) by {
            if 0 <= k < t.len() {
                assert(t[k] == docs[k]);
            }
        }
        picks::lemma_lists_next(before, i, in_before, wanted, picks::ascending());
        let at = picks::with_next(before, i, wanted(i));
        let errors = doc_collect::refusals_in(docs);
        let fewer = doc_collect::refusals_in(t);
        assert forall|k: int| 0 <= k < at.len() implies #[trigger] errors[k] == (
            docs[at[k]].path@,
            docs[at[k]].content->Err_0@,
        ) by {
            if k < before.len() {
                assert(errors[k] == fewer[k]);
                assert(in_before(before[k]));
                assert(t[before[k]] == docs[before[k]]);
            }
        }
        at
    }
}

/// A search of all documents gives the hits of each, one document behind the other, as many
/// as fit; it says whether any are left out; and it names every document that could not be
/// read, in their order, with the reason.
pub proof fn law_search_of_all<R>(
    docs: Seq<OpenedDoc<R>>,
    formats: Seq<Seq<char>>,
    query: Seq<char>,
    fold: bool,
    max: nat,
    r: DocSearchResult<R>,
) -> (at: Seq<int>)
    requires
        doc_collect::is_search_of(docs, formats, query, fold, max, r),
        query.len() > 0,
    ensures
        ({
            let n = doc_search::needle_of(query, fold);
            let all = Seq::new(docs.len(), |d: int| hits_of_one(docs[d], formats[d], n)).flatten();
            &&& r.truncated <==> all.len() > max
            &&& r.hits@.len() == (if all.len() > max {
                max
            } else {
                all.len()
            })
            &&& forall|k: int| 0 <= k < r.hits@.len() ==> (#[trigger] r.hits@[k])@ == all[k]
        }),
        picks::lists_all(
            at,
            |i: int| 0 <= i < docs.len() && docs[i].content is Err,
            |a: int, b: int| a < b,
        ),
        r.errors@.len() == at.len(),
        forall|k: int|
            0 <= k < at.len() ==> {
                let e = #[trigger] r.errors@[k];
                e.0@ == docs[at[k]].path@ && e.1@ == docs[at[k]].content->Err_0@
            },
{
    let n = doc_search::needle_of(query, fold);
    lemma_hits_in(docs, formats, n);
    let all = doc_collect::hits_in(docs, formats, n);
    let views = doc_search::hit_views(r.hits@);
    assert(views.len() == r.hits@.len());
    assert forall|k: int| 0 <= k < r.hits@.len() implies (#[trigger] r.hits@[k])@ == all[k] by {
        assert(views[k] == r.hits@[k]@);
    }
    let at = lemma_refusals(docs);
    let told = doc_collect::error_views(r.errors@);
    assert(told.len() == r.errors@.len());
    assert forall|k: int| 0 <= k < at.len() implies {
        let e = #[trigger] r.errors@[k];
        e.0@ == docs[at[k]].path@ && e.1@ == docs[at[k]].content->Err_0@
    } by {
        assert(told[k] == (r.errors@[k].0@, r.errors@[k].1@));
    }
    at
}

/// A search for nothing gives nothing.
pub proof fn law_search_for_nothing<R>(
    docs: Seq<OpenedDoc<R>>,
    formats: Seq<Seq<char>>,
    fold: bool,
    max: nat,
    r: DocSearchResult<R>,
)
    requires
        doc_collect::is_search_of(docs, formats, Seq::empty(), fold, max, r),
    ensures
        r.hits@.len() == 0,
        !r.truncated,
        r.errors@.len() == 0,
{
}

/// The hits that were found in each of some documents, one document behind the other.
proof fn lemma_all_hits<R>(per_file: Seq<Result<Vec<DocHit<R>>, (String, String)>>)
    ensures
        doc_collect::all_hits(per_file) == Seq::new(
            per_file.len(),
            |d: int|
                if per_file[d] is Ok {
                    doc_search::hit_views(per_file[d]->Ok_0@)
                } else {
                    Seq::empty()
                },
        ).flatten(),
    decreases per_file.len(),
{
    let each = Seq::new(
        per_file.len(),
        |d: int|
            if per_file[d] is Ok {
                doc_search::hit_views(per_file[d]->Ok_0@)
            } else {
                Seq::empty()
            },
    );
    if per_file.len() == 0 {
        assert(each.flatten() =~= Seq::empty());
    } else {
        let t = per_file.drop_last();
        lemma_all_hits(t);
        let before = Seq::new(
            t.len(),
            |d: int|
                if t[d] is Ok {
                    doc_search::hit_views(t[d]->Ok_0@)
                } else {
                    Seq::empty()
                },
        );
        let own = each[per_file.len() - 1];
        assert(each =~= before.push(own));
        before.lemma_flatten_push(own);
        if per_file.last() is Err {
            assert(before.flatten() + own =~= before.flatten());
        }
    }
}

/// What is gathered of some documents: the hits of each, one document behind the other, as
/// many as fit; whether any are left out; and everything that went wrong, in its order.
pub proof fn law_gathering<R>(
    per_file: Seq<Result<Vec<DocHit<R>>, (String, String)>>,
    max: nat,
    r: DocSearchResult<R>,
) -> (at: Seq<int>)
    requires
        doc_collect::is_gathered(per_file, max, r),
    ensures
        ({
            let all = Seq::new(
                per_file.len(),
                |d: int|
                    if per_file[d] is Ok {
                        doc_search::hit_views(per_file[d]->Ok_0@)
                    } else {
                        Seq::empty()
                    },
            ).flatten();
            &&& r.truncated <==> all.len() > max
            &&& r.hits@.len() == (if all.len() > max {
                max
            } else {
                all.len()
            })
            &&& forall|k: int| 0 <= k < r.hits@.len() ==> (#[trigger] r.hits@[k])@ == all[k]
        }),
        picks::lists_all(
            at,
            |i: int| 0 <= i < per_file.len() && per_file[i] is Err,
            |a: int, b: int| a < b,
        ),
        r.errors@.len() == at.len(),
        forall|k: int|
            0 <= k < at.len() ==> {
                let e = #[trigger] r.errors@[k];
                e.0@ == per_file[at[k]]->Err_0.0@ && e.1@ == per_file[at[k]]->Err_0.1@
            },
{
    lemma_all_hits(per_file);
    let all = doc_collect::all_hits(per_file);
    let views = doc_search::hit_views(r.hits@);
    assert(views.len() == r.hits@.len());
    assert forall|k: int| 0 <= k < r.hits@.len() implies (#[trigger] r.hits@[k])@ == all[k] by {
        assert(views[k] == r.hits@[k]@);
    }
    let at = doc_replace_laws::lemma_errors(per_file);
    let told = doc_collect::error_views(r.errors@);
    assert(told.len() == r.errors@.len());
    assert forall|k: int| 0 <= k < at.len() implies {
        let e = #[trigger] r.errors@[k];
        e.0@ == per_file[at[k]]->Err_0.0@ && e.1@ == per_file[at[k]]->Err_0.1@
    } by {
        assert(told[k] == (r.errors@[k].0@, r.errors@[k].1@));
    }
    at
}

/// How many hits a request asks for: a thousand where it does not say, and never more than
/// twenty thousand.
pub open spec fn is_limit(asked: Option<usize>, max: int) -> bool {
    match asked {
        None => max == 1000,
        Some(n) => max <= n && max <= 20000 && (max == n || max == 20000),
    }
}

/// A request is refused just where it asks for a regular expression, and is told why.
pub proof fn law_regex_is_refused(opts: DocSearchOpts, r: Result<(), String>)
    requires
        doc_collect::is_literal_only(opts, r),
    ensures
        r is Err <==> opts.regex == Some(true),
        r is Err ==> r->Err_0@
            == "document search is literal-only: the office and pdf engines match substrings, not regular expressions. Clear the regex option to search documents."@,
{
}

/// A search is done just where there is something to look for and no regular expression is
/// asked for. It goes by what the request says, and by what is usual where it says nothing.
pub proof fn law_plan(
    query: Seq<char>,
    opts: DocSearchOpts,
    r: Result<Option<SearchPlan>, String>,
    rejected: Result<(), String>,
)
    requires
        doc_collect::is_plan_of(query, opts, r),
        doc_collect::is_literal_only(opts, rejected),
    ensures
        r is Err <==> rejected is Err,
        r is Err ==> r->Err_0@ == rejected->Err_0@,
        r is Ok ==> (r->Ok_0 is None <==> query == Seq::<char>::empty()),
        r is Ok && r->Ok_0 is Some ==> {
            let plan = r->Ok_0->0;
            &&& plan.show_hidden <==> opts.show_hidden == Some(true)
            &&& plan.needle.fold <==> opts.case_insensitive == Some(true)
            &&& !plan.needle.fold ==> plan.needle.text@ == query
            &&& plan.needle.fold ==> plan.needle.text@ == text::lower(query)
            &&& is_limit(opts.max_results, plan.max as int)
        },
{
    if query.len() == 0 {
        assert(query =~= Seq::empty());
    }
}

/// A search of documents is refused as its plan is; else it gives what a search gives that
/// goes by the plan's query and limit.
pub proof fn law_answer<R>(
    docs: Seq<OpenedDoc<R>>,
    formats: Seq<Seq<char>>,
    query: Seq<char>,
    opts: DocSearchOpts,
    r: Result<DocSearchResult<R>, String>,
    plan: Result<Option<SearchPlan>, String>,
)
    requires
        doc_collect::is_answer(docs, formats, query, opts, r),
        doc_collect::is_plan_of(query, opts, plan),
    ensures
        r is Err <==> opts.regex == Some(true),
        r is Err ==> plan is Err && r->Err_0@ == plan->Err_0@,
        r is Ok && query.len() == 0 ==> r->Ok_0.hits@.len() == 0 && r->Ok_0.errors@.len() == 0
            && !r->Ok_0.truncated,
        r is Ok && query.len() > 0 ==> {
            &&& plan is Ok && plan->Ok_0 is Some
            &&& doc_collect::is_search_of(
                docs,
                formats,
                query,
                plan->Ok_0->0.needle.fold,
                plan->Ok_0->0.max as nat,
                r->Ok_0,
            )
        },
{
}

/// Files and opened documents go by the extensions of their own paths, one for each.
pub proof fn law_own_extensions<R>(
    files: Seq<Candidate>,
    exts: Seq<Seq<char>>,
    docs: Seq<OpenedDoc<R>>,
    formats: Seq<Seq<char>>,
    i: int,
)
    requires
        doc_collect::are_exts_of(files, exts),
        doc_collect::are_formats_of(docs, formats),
    ensures
        exts.len() == files.len(),
        formats.len() == docs.len(),
        0 <= i < files.len() ==> paths::is_ext_of(files[i].path@, exts[i]),
        0 <= i < docs.len() ==> paths::is_ext_of(docs[i].path@, formats[i]),
{
}

} // verus!
