//! Which documents of a directory are searched, in which order, and what a search of all
//! of them gives.

use crate::doc_search;
use crate::doc_search::DocContent;
use crate::doc_search::DocHit;
use crate::doc_search::FileKind;
use crate::doc_search::Needle;
use crate::paths;
use crate::project;
use crate::sort;
use crate::sort::Ranked;
use crate::text;
use vstd::prelude::*;

verus! {

// ── the order of paths ──────────────────────────────────────────────────────────

/// A component of a path: its kind, by rank, and its name.
#[derive(Debug)]
pub struct PathPart {
    /// The rank of its kind: a prefix, the root, this directory, the parent directory,
    /// or a name.
    pub rank: u8,
    pub name: Vec<u8>,
}

/// A component as a mathematical value.
#[verifier::ext_equal]
pub struct Part {
    pub rank: u8,
    pub name: Seq<u8>,
}

impl View for PathPart {
    type V = Part;

    open spec fn view(&self) -> Part {
        Part { rank: self.rank, name: self.name@ }
    }
}

/// One component comes before another: by its kind, or by its name where the kinds are
/// the same.
pub open spec fn part_before(a: Part, b: Part) -> bool {
    a.rank < b.rank || (a.rank == b.rank && sort::list_before(
        a.name,
        b.name,
        sort::byte_order(),
    ))
}

/// The order of components.
pub open spec fn part_order() -> spec_fn(Part, Part) -> bool {
    |a: Part, b: Part| part_before(a, b)
}

/// The components of a path.
pub open spec fn part_views(parts: Seq<PathPart>) -> Seq<Part> {
    parts.map_values(|p: PathPart| p@)
}

/// A path comes before another: by the first component in which they differ.
pub open spec fn path_before(a: Seq<Part>, b: Seq<Part>) -> bool {
    sort::list_before(a, b, part_order())
}

/// The order of components is strict and total.
proof fn lemma_part_order()
    ensures
        sort::is_strict_order(part_order()),
{
    let lt = part_order();
    let bytes = sort::byte_order();
    assert forall|x: Part| !(#[trigger] lt(x, x)) by {
        sort::lemma_list_strict(x.name, bytes);
    }
    assert forall|x: Part, y: Part, z: Part| #[trigger] lt(x, y) && #[trigger] lt(y, z) implies lt(
        x,
        z,
    ) by {
        if x.rank == y.rank && y.rank == z.rank {
            sort::lemma_list_transitive(x.name, y.name, z.name, bytes);
        }
    }
    assert forall|x: Part, y: Part| x == y || #[trigger] lt(x, y) || lt(y, x) by {
        sort::lemma_list_total(x.name, y.name, bytes);
        if x.rank == y.rank && x.name == y.name {
            assert(x =~= y);
        }
    }
}

/// Whether one component comes before another.
fn is_part_before(a: &PathPart, b: &PathPart) -> (r: bool)
    ensures
        r == part_before(a@, b@),
{
    a.rank < b.rank || (a.rank == b.rank && sort::bytes_before(&a.name, &b.name))
}

/// Whether two components are the same.
fn is_same_part(a: &PathPart, b: &PathPart) -> (r: bool)
    ensures
        r == (a@ == b@),
{
    let less: bool = is_part_before(a, b);
    let more: bool = is_part_before(b, a);
    proof {
        lemma_part_order();
        let lt = part_order();
        assert(a@ == b@ || lt(a@, b@) || lt(b@, a@));
        assert(!lt(a@, a@));
    }
    !less && !more
}

/// A path lies under a root: it begins with all the components of the root.
pub open spec fn is_under(path: Seq<Part>, root: Seq<Part>) -> bool {
    root.len() <= path.len() && path.take(root.len() as int) == root
}

/// How many components to leave out of a path to tell it from a root.
pub open spec fn to_drop(path: Seq<Part>, root: Seq<Part>) -> Option<usize> {
    if is_under(path, root) {
        Some(root.len() as usize)
    } else {
        None
    }
}

/// How many components to leave out of `path` to tell it from `root`: those of the root.
/// None where the path lies outside, and is told as it stands.
pub fn parts_to_drop(path: &Vec<PathPart>, root: &Vec<PathPart>) -> (n: Option<usize>)
    ensures
        n == to_drop(part_views(path@), part_views(root@)),
{
    let ghost p = part_views(path@);
    let ghost r = part_views(root@);
    if root.len() > path.len() {
        return None;
    }
    let mut i: usize = 0;
    while i < root.len()
        invariant
            p == part_views(path@),
            r == part_views(root@),
            r.len() <= p.len(),
            i <= root@.len(),
            forall|j: int| 0 <= j < i ==> p[j] == r[j],
        decreases root@.len() - i,
    {
        if !is_same_part(&path[i], &root[i]) {
            proof {
                assert(p[i as int] != r[i as int]);
                assert(p.take(r.len() as int)[i as int] == p[i as int]);
            }
            return None;
        }
        i += 1;
    }
    assert(p.take(r.len() as int) =~= r);
    Some(root.len())
}

/// A file that was found: its path, the components of the path, and its size where it is
/// known.
#[derive(Debug)]
pub struct Candidate {
    pub path: String,
    pub parts: Vec<PathPart>,
    pub len: Option<u64>,
}

/// Files are told apart and sorted by the components of their paths.
impl View for Candidate {
    type V = Seq<Part>;

    open spec fn view(&self) -> Seq<Part> {
        part_views(self.parts@)
    }
}

impl Ranked for Candidate {
    open spec fn precedes(a: Seq<Part>, b: Seq<Part>) -> bool {
        path_before(a, b)
    }

    proof fn precedes_is_strict(a: Seq<Part>) {
        sort::lemma_list_strict(a, part_order());
    }

    proof fn precedes_is_transitive(a: Seq<Part>, b: Seq<Part>, c: Seq<Part>) {
        lemma_part_order();
        sort::lemma_list_transitive(a, b, c, part_order());
    }

    proof fn precedes_is_total(a: Seq<Part>, b: Seq<Part>) {
        lemma_part_order();
        sort::lemma_list_total(a, b, part_order());
    }

    fn is_before(&self, other: &Candidate) -> (r: bool) {
        let a: &Vec<PathPart> = &self.parts;
        let b: &Vec<PathPart> = &other.parts;
        let ghost x = part_views(a@);
        let ghost y = part_views(b@);
        let mut i: usize = 0;
        while i < a.len() && i < b.len()
            invariant
                i <= a@.len(),
                i <= b@.len(),
                x == part_views(a@),
                y == part_views(b@),
                x == self@,
                y == other@,
                forall|j: int| 0 <= j < i ==> x[j] == y[j],
            decreases a@.len() - i,
        {
            if !is_same_part(&a[i], &b[i]) {
                proof {
                    sort::lemma_list_skip(x, y, part_order(), i as int);
                    assert(x.skip(i as int)[0] == a@[i as int]@);
                    assert(y.skip(i as int)[0] == b@[i as int]@);
                }
                return is_part_before(&a[i], &b[i]);
            }
            i += 1;
        }
        proof {
            sort::lemma_list_skip(x, y, part_order(), i as int);
        }
        a.len() < b.len()
    }
}

// ── collecting ──────────────────────────────────────────────────────────────────

/// The format is in a list, whatever the case of its letters.
pub open spec fn lists_format(list: Seq<Seq<char>>, ext: Seq<char>) -> bool {
    exists|i: int| 0 <= i < list.len() && #[trigger] text::same_but_ascii_case(list[i], ext)
}

/// The format is among those asked for, whatever the case of its letters; where none is
/// asked for, every format is.
pub open spec fn is_asked_for(formats: Option<Seq<Seq<char>>>, ext: Seq<char>) -> bool {
    match formats {
        Some(list) => lists_format(list, ext),
        None => true,
    }
}

/// The formats of a request.
pub open spec fn formats_view(formats: Option<Vec<String>>) -> Option<Seq<Seq<char>>> {
    match formats {
        Some(list) => Some(text::views(list@)),
        None => None,
    }
}

/// How a file with an extension is searched: as the document its extension names, where
/// its format is asked for and its size is known and within the cap.
pub open spec fn kept(
    ext: Seq<char>,
    len: Option<u64>,
    formats: Option<Seq<Seq<char>>>,
) -> Option<FileKind> {
    if is_asked_for(formats, ext) && project::within(len, project::MAX_DOC_FILE_BYTES) {
        doc_search::kind_of_ext(ext)
    } else {
        None
    }
}

/// The places of the documents among some files, in the order that `order` lists them.
pub open spec fn places_in(
    files: Seq<Candidate>,
    exts: Seq<Seq<char>>,
    formats: Option<Seq<Seq<char>>>,
    order: Seq<usize>,
) -> Seq<(usize, FileKind)>
    decreases order.len(),
{
    if order.len() == 0 {
        Seq::empty()
    } else {
        let before = places_in(files, exts, formats, order.drop_last());
        let i = order.last();
        match kept(exts[i as int], files[i as int].len, formats) {
            Some(kind) => before.push((i, kind)),
            None => before,
        }
    }
}

/// The places of the documents among some files, sorted by their paths.
pub open spec fn places_of(
    files: Seq<Candidate>,
    exts: Seq<Seq<char>>,
    formats: Option<Seq<Seq<char>>>,
) -> Seq<(usize, FileKind)> {
    places_in(files, exts, formats, sort::order_of(files))
}

/// The documents among some files, in the order that `order` lists them.
pub open spec fn documents_in(
    files: Seq<Candidate>,
    exts: Seq<Seq<char>>,
    formats: Option<Seq<Seq<char>>>,
    order: Seq<usize>,
) -> Seq<(Seq<char>, FileKind)>
    decreases order.len(),
{
    if order.len() == 0 {
        Seq::empty()
    } else {
        let before = documents_in(files, exts, formats, order.drop_last());
        let i = order.last() as int;
        match kept(exts[i], files[i].len, formats) {
            Some(kind) => before.push((files[i].path@, kind)),
            None => before,
        }
    }
}

/// The documents among some files, sorted by their paths.
pub open spec fn documents_of(
    files: Seq<Candidate>,
    exts: Seq<Seq<char>>,
    formats: Option<Seq<Seq<char>>>,
) -> Seq<(Seq<char>, FileKind)> {
    documents_in(files, exts, formats, sort::order_of(files))
}

/// The values of a list of documents.
pub open spec fn document_views(v: Seq<(String, FileKind)>) -> Seq<(Seq<char>, FileKind)> {
    v.map_values(|d: (String, FileKind)| (d.0@, d.1))
}

/// Whether a format is among those asked for.
fn asks_for(formats: &Option<Vec<String>>, ext: &str) -> (r: bool)
    ensures
        r == is_asked_for(formats_view(*formats), ext@),
{
    match formats {
        Some(list) => {
            let ghost texts = text::views(list@);
            let mut i: usize = 0;
            while i < list.len()
                invariant
                    i <= list@.len(),
                    texts == text::views(list@),
                    formats_view(*formats) == Some(texts),
                    forall|j: int|
                        0 <= j < i ==> !#[trigger] text::same_but_ascii_case(texts[j], ext@),
                decreases list@.len() - i,
            {
                assert(texts[i as int] == list@[i as int]@);
                if text::same_ignoring_ascii_case(list[i].as_str(), ext) {
                    assert(text::same_but_ascii_case(texts[i as int], ext@));
                    return true;
                }
                i += 1;
            }
            false
        },
        None => true,
    }
}

/// How a file is searched, if at all.
fn keep(ext: &str, len: Option<u64>, formats: &Option<Vec<String>>) -> (r: Option<FileKind>)
    ensures
        r == kept(ext@, len, formats_view(*formats)),
{
    if asks_for(formats, ext) && project::may_read(len, project::MAX_DOC_FILE_BYTES) {
        doc_search::doc_ext_kind(ext)
    } else {
        None
    }
}

/// The documents are the files at the places of the documents.
pub proof fn lemma_places(
    files: Seq<Candidate>,
    exts: Seq<Seq<char>>,
    formats: Option<Seq<Seq<char>>>,
    order: Seq<usize>,
)
    requires
        forall|k: int| 0 <= k < order.len() ==> #[trigger] order[k] < files.len(),
    ensures
        ({
            let places = places_in(files, exts, formats, order);
            &&& documents_in(files, exts, formats, order) == places.map_values(
                |p: (usize, FileKind)| (files[p.0 as int].path@, p.1),
            )
            &&& forall|k: int| 0 <= k < places.len() ==> (#[trigger] places[k]).0 < files.len()
        }),
    decreases order.len(),
{
    let places = places_in(files, exts, formats, order);
    let docs = places.map_values(|p: (usize, FileKind)| (files[p.0 as int].path@, p.1));
    if order.len() == 0 {
        assert(docs =~= Seq::empty());
    } else {
        let t = order.drop_last();
        let i = order[order.len() - 1];
        assert forall|k: int| 0 <= k < t.len() implies #[trigger] t[k] < files.len() by {
            assert(t[k] == order[k]);
        }
        lemma_places(files, exts, formats, t);
        let before = places_in(files, exts, formats, t);
        let docs_before = before.map_values(
            |p: (usize, FileKind)| (files[p.0 as int].path@, p.1),
        );
        match kept(exts[i as int], files[i as int].len, formats) {
            Some(kind) => {
                assert(docs =~= docs_before.push((files[i as int].path@, kind)));
            },
            None => {},
        }
    }
}

/// The places of the documents among `files`, sorted by their paths. `exts` holds their
/// extensions, in lower case.
pub fn places_by_ext(
    files: &Vec<Candidate>,
    exts: &Vec<String>,
    formats: &Option<Vec<String>>,
) -> (places: Vec<(usize, FileKind)>)
    requires
        exts@.len() == files@.len(),
    ensures
        places@ == places_of(files@, text::views(exts@), formats_view(*formats)),
        forall|k: int| 0 <= k < places@.len() ==> (#[trigger] places@[k]).0 < files@.len(),
        places@.map_values(|p: (usize, FileKind)| (files@[p.0 as int].path@, p.1))
            == documents_of(files@, text::views(exts@), formats_view(*formats)),
{
    let order = sort::sorted_order(files);
    let ghost texts = text::views(exts@);
    let ghost wanted = formats_view(*formats);
    let mut places: Vec<(usize, FileKind)> = Vec::new();
    let mut i: usize = 0;
    while i < order.len()
        invariant
            exts@.len() == files@.len(),
            texts == text::views(exts@),
            wanted == formats_view(*formats),
            i <= order@.len(),
            forall|k: int| 0 <= k < order@.len() ==> #[trigger] order@[k] < files@.len(),
            places@ == places_in(files@, texts, wanted, order@.take(i as int)),
        decreases order@.len() - i,
    {
        let at: usize = order[i];
        proof {
            assert(order@.take(i + 1).drop_last() =~= order@.take(i as int));
            assert(order@.take(i + 1).last() == at);
            assert(texts[at as int] == exts@[at as int]@);
        }
        match keep(exts[at].as_str(), files[at].len, formats) {
            Some(kind) => {
                places.push((at, kind));
            },
            None => {},
        }
        i += 1;
    }
    proof {
        assert(order@.take(order@.len() as int) =~= order@);
        lemma_places(files@, texts, wanted, order@);
    }
    places
}

/// The paths of the files at some places.
fn paths_at(files: &Vec<Candidate>, places: &Vec<(usize, FileKind)>) -> (docs: Vec<
    (String, FileKind),
>)
    requires
        forall|k: int| 0 <= k < places@.len() ==> (#[trigger] places@[k]).0 < files@.len(),
    ensures
        document_views(docs@) == places@.map_values(
            |p: (usize, FileKind)| (files@[p.0 as int].path@, p.1),
        ),
{
    let ghost goal = places@.map_values(|p: (usize, FileKind)| (files@[p.0 as int].path@, p.1));
    let mut docs: Vec<(String, FileKind)> = Vec::new();
    let mut i: usize = 0;
    assert(document_views(docs@) =~= goal.take(0));
    while i < places.len()
        invariant
            i <= places@.len(),
            forall|k: int| 0 <= k < places@.len() ==> (#[trigger] places@[k]).0 < files@.len(),
            goal == places@.map_values(
                |p: (usize, FileKind)| (files@[p.0 as int].path@, p.1),
            ),
            document_views(docs@) == goal.take(i as int),
        decreases places@.len() - i,
    {
        let (at, kind) = places[i];
        assert(places@[i as int].0 < files@.len());
        let ghost before = docs@;
        let path = files[at].path.clone();
        docs.push((path, kind));
        proof {
            assert(document_views(docs@) =~= document_views(before).push((path@, kind)));
            assert(goal.take(i + 1) =~= goal.take(i as int).push((path@, kind)));
        }
        i += 1;
    }
    assert(goal.take(places@.len() as int) =~= goal);
    docs
}

/// The documents among `files`, sorted by their paths. `exts` holds their extensions, in
/// lower case.
pub fn collect_by_ext(
    files: &Vec<Candidate>,
    exts: &Vec<String>,
    formats: &Option<Vec<String>>,
) -> (docs: Vec<(String, FileKind)>)
    requires
        exts@.len() == files@.len(),
    ensures
        document_views(docs@) == documents_of(
            files@,
            text::views(exts@),
            formats_view(*formats),
        ),
{
    let places = places_by_ext(files, exts, formats);
    paths_at(files, &places)
}

/// `exts` can be the extensions of some files in lower case.
pub open spec fn are_exts_of(files: Seq<Candidate>, exts: Seq<Seq<char>>) -> bool {
    &&& exts.len() == files.len()
    &&& forall|i: int|
        0 <= i < files.len() ==> paths::is_ext_of(#[trigger] files[i].path@, exts[i])
}

/// The extensions of some files in lower case.
fn exts_of(files: &Vec<Candidate>) -> (exts: Vec<String>)
    ensures
        exts@.len() == files@.len(),
        are_exts_of(files@, text::views(exts@)),
{
    let mut exts: Vec<String> = Vec::new();
    let mut i: usize = 0;
    while i < files.len()
        invariant
            i <= files@.len(),
            exts@.len() == i,
            forall|k: int|
                0 <= k < i ==> paths::is_ext_of(#[trigger] files@[k].path@, exts@[k]@),
        decreases files@.len() - i,
    {
        exts.push(paths::ext_of(files[i].path.as_str()));
        i += 1;
    }
    proof {
        let texts = text::views(exts@);
        assert forall|k: int| 0 <= k < files@.len() implies paths::is_ext_of(
            #[trigger] files@[k].path@,
            texts[k],
        ) by {
            assert(texts[k] == exts@[k]@);
        }
    }
    exts
}

/// The places of the documents among `files`, sorted by their paths: of every file whose
/// extension names a document, whose format is asked for and whose size is known and
/// within the cap.
pub fn collect_places(files: &Vec<Candidate>, formats: &Option<Vec<String>>) -> (places: Vec<
    (usize, FileKind),
>)
    ensures
        exists|exts: Seq<Seq<char>>|
            are_exts_of(files@, exts) && places@ == #[trigger] places_of(
                files@,
                exts,
                formats_view(*formats),
            ),
        forall|k: int| 0 <= k < places@.len() ==> (#[trigger] places@[k]).0 < files@.len(),
{
    let exts = exts_of(files);
    places_by_ext(files, &exts, formats)
}

/// The documents among `files`, sorted by their paths: every file whose extension names a
/// document, whose format is asked for and whose size is known and within the cap.
pub fn collect_documents(files: &Vec<Candidate>, formats: &Option<Vec<String>>) -> (docs: Vec<
    (String, FileKind),
>)
    ensures
        exists|exts: Seq<Seq<char>>|
            are_exts_of(files@, exts) && document_views(docs@) == #[trigger] documents_of(
                files@,
                exts,
                formats_view(*formats),
            ),
{
    let exts = exts_of(files);
    collect_by_ext(files, &exts, formats)
}

// ── searching ───────────────────────────────────────────────────────────────────

/// What a search is asked to do.
#[derive(Debug, Clone)]
pub struct DocSearchOpts {
    pub show_hidden: Option<bool>,
    pub max_results: Option<usize>,
    /// Only documents of these formats; all where there are none given.
    pub formats: Option<Vec<String>>,
    /// Case does not count. A replacement always goes by it.
    pub case_insensitive: Option<bool>,
    /// Set only by a request that is to be refused: documents are searched for literal
    /// texts.
    pub regex: Option<bool>,
}

impl Default for DocSearchOpts {
    /// A request that says nothing.
    fn default() -> (r: DocSearchOpts)
        ensures
            r.show_hidden is None,
            r.max_results is None,
            r.formats is None,
            r.case_insensitive is None,
            r.regex is None,
    {
        DocSearchOpts {
            show_hidden: None,
            max_results: None,
            formats: None,
            case_insensitive: None,
            regex: None,
        }
    }
}

/// What a search of all documents gives.
#[derive(Debug)]
pub struct DocSearchResult<R> {
    pub hits: Vec<DocHit<R>>,
    /// There are more hits than were asked for.
    pub truncated: bool,
    /// The documents that could not be read, each with what went wrong.
    pub errors: Vec<(String, String)>,
}

impl<R> Default for DocSearchResult<R> {
    /// Nothing was found.
    fn default() -> (r: DocSearchResult<R>)
        ensures
            r.hits@.len() == 0,
            !r.truncated,
            r.errors@.len() == 0,
    {
        DocSearchResult { hits: Vec::new(), truncated: false, errors: Vec::new() }
    }
}

/// How many hits are given when the request does not say.
pub const DEFAULT_RESULTS: usize = 1000;

/// How many hits are given at most.
pub const MAX_RESULTS: usize = 20_000;

/// How a regular expression is refused.
pub open spec fn regex_refusal() -> Seq<char> {
    "document search is literal-only: the office and pdf engines match substrings, not regular expressions. Clear the regex option to search documents."@
}

/// A request is refused where it asks for a regular expression, and taken where it does
/// not.
pub open spec fn is_literal_only(opts: DocSearchOpts, r: Result<(), String>) -> bool {
    match r {
        Ok(_) => !text::is_set(opts.regex),
        Err(e) => text::is_set(opts.regex) && e@ == regex_refusal(),
    }
}

/// Refuse a request for a regular expression: taking it for a literal text would give a
/// wrong answer without a word.
pub fn reject_regex(opts: &DocSearchOpts) -> (r: Result<(), String>)
    ensures
        is_literal_only(*opts, r),
{
    if opts.regex.unwrap_or(false) {
        Err(
            "document search is literal-only: the office and pdf engines match substrings, not regular expressions. Clear the regex option to search documents.".to_owned(),
        )
    } else {
        Ok(())
    }
}

/// The most hits that a request can get.
pub open spec fn result_limit(asked: Option<usize>) -> nat {
    let n = match asked {
        Some(n) => n,
        None => DEFAULT_RESULTS,
    };
    if n < MAX_RESULTS {
        n as nat
    } else {
        MAX_RESULTS as nat
    }
}

/// A search that is to be done: what to look for, whether in hidden files too, and how
/// many hits to give.
#[derive(Debug)]
pub struct SearchPlan {
    pub needle: Needle,
    pub show_hidden: bool,
    pub max: usize,
}

/// The search that a request asks for. There is none where the query is empty.
pub open spec fn is_plan_of(
    query: Seq<char>,
    opts: DocSearchOpts,
    r: Result<Option<SearchPlan>, String>,
) -> bool {
    match r {
        Err(e) => text::is_set(opts.regex) && e@ == regex_refusal(),
        Ok(None) => !text::is_set(opts.regex) && query.len() == 0,
        Ok(Some(plan)) => {
            &&& !text::is_set(opts.regex)
            &&& query.len() > 0
            &&& plan.needle@ == doc_search::needle_of(query, text::is_set(opts.case_insensitive))
            &&& plan.show_hidden == text::is_set(opts.show_hidden)
            &&& plan.max == result_limit(opts.max_results)
        },
    }
}

/// The search that a request asks for. There is none where the query is empty.
pub fn search_plan(query: &str, opts: &DocSearchOpts) -> (r: Result<Option<SearchPlan>, String>)
    ensures
        is_plan_of(query@, *opts, r),
{
    match reject_regex(opts) {
        Ok(_) => {},
        Err(e) => {
            return Err(e);
        },
    }
    if query.is_empty() {
        return Ok(None);
    }
    let asked: usize = opts.max_results.unwrap_or(DEFAULT_RESULTS);
    let max: usize = if asked < MAX_RESULTS {
        asked
    } else {
        MAX_RESULTS
    };
    Ok(
        Some(
            SearchPlan {
                needle: Needle::new(query, opts.case_insensitive.unwrap_or(false)),
                show_hidden: opts.show_hidden.unwrap_or(false),
                max,
            },
        ),
    )
}

/// The hits of some documents, one document behind the other.
pub open spec fn all_hits<R>(
    per_file: Seq<Result<Vec<DocHit<R>>, (String, String)>>,
) -> Seq<doc_search::Hit<R>>
    decreases per_file.len(),
{
    if per_file.len() == 0 {
        Seq::empty()
    } else {
        let before = all_hits(per_file.drop_last());
        match per_file.last() {
            Ok(hits) => before + doc_search::hit_views(hits@),
            Err(_) => before,
        }
    }
}

/// The documents that could not be read, in order, each with what went wrong.
pub open spec fn all_errors<T>(per_file: Seq<Result<T, (String, String)>>) -> Seq<
    (Seq<char>, Seq<char>),
>
    decreases per_file.len(),
{
    if per_file.len() == 0 {
        Seq::empty()
    } else {
        let before = all_errors(per_file.drop_last());
        match per_file.last() {
            Ok(_) => before,
            Err(pair) => before.push((pair.0@, pair.1@)),
        }
    }
}

/// The values of a list of errors.
pub open spec fn error_views(errors: Seq<(String, String)>) -> Seq<(Seq<char>, Seq<char>)> {
    errors.map_values(|e: (String, String)| (e.0@, e.1@))
}

/// A list of errors that holds one more.
pub proof fn lemma_error_views_push(errors: Seq<(String, String)>, e: (String, String))
    ensures
        error_views(errors.push(e)) == error_views(errors).push((e.0@, e.1@)),
{
    assert(error_views(errors.push(e)) =~= error_views(errors).push((e.0@, e.1@)));
}

/// The first `n` entries of a list.
pub open spec fn first_of<A>(s: Seq<A>, n: nat) -> Seq<A> {
    if s.len() <= n {
        s
    } else {
        s.take(n as int)
    }
}

/// Put the hits of one document behind the others, as far as there is room, and tell
/// whether all of them found some.
fn add_hits<R>(hits: Vec<DocHit<R>>, max: usize, out: &mut Vec<DocHit<R>>) -> (complete: bool)
    requires
        old(out)@.len() <= max,
    ensures
        doc_search::hit_views(final(out)@) == first_of(
            doc_search::hit_views(old(out)@) + doc_search::hit_views(hits@),
            max as nat,
        ),
        complete == (old(out)@.len() + hits@.len() <= max),
        final(out)@.len() <= max,
{
    let ghost given = hits@;
    let ghost before = doc_search::hit_views(out@);
    let ghost texts = doc_search::hit_views(given);
    let mut complete: bool = true;
    assert(before + texts.take(0) =~= before);
    for hit in it: hits.into_iter()
        invariant
            it.seq() == given,
            texts == doc_search::hit_views(given),
            before.len() <= max,
            out@.len() <= max,
            doc_search::hit_views(out@) == first_of(
                before + texts.take(it.index() as int),
                max as nat,
            ),
            complete == (before.len() + it.index() <= max),
    {
        let ghost k = it.index() as int;
        let ghost now = doc_search::hit_views(out@);
        assert((before + texts.take(k + 1)) =~= (before + texts.take(k)).push(hit@));
        assert(now.len() == out@.len());
        if out.len() >= max {
            complete = false;
            assert(first_of(before + texts.take(k + 1), max as nat) =~= now);
        } else {
            proof {
                doc_search::lemma_hit_views_push(out@, hit);
            }
            out.push(hit);
        }
    }
    assert(texts.take(given.len() as int) =~= texts);
    complete
}

/// What a search gives, from the hits of each document or what went wrong with it: the
/// first `max` hits, whether there are more, and all errors.
pub fn gather_hits<R>(
    per_file: Vec<Result<Vec<DocHit<R>>, (String, String)>>,
    max: usize,
) -> (r: DocSearchResult<R>)
    ensures
        is_gathered(per_file@, max as nat, r),
{
    let ghost given = per_file@;
    let mut out: DocSearchResult<R> = DocSearchResult::default();
    assert(given.take(0) =~= Seq::empty());
    assert(doc_search::hit_views(out.hits@) =~= Seq::empty());
    assert(error_views(out.errors@) =~= Seq::empty());
    for entry in it: per_file.into_iter()
        invariant
            it.seq() == given,
            is_gathered(given.take(it.index() as int), max as nat, out),
    {
        let ghost k = it.index() as int;
        let ghost before = out;
        proof {
            assert(given.take(k + 1).drop_last() =~= given.take(k));
            assert(given.take(k + 1).last() == entry);
            assert(doc_search::hit_views(out.hits@).len() == out.hits@.len());
        }
        match entry {
            Ok(hits) => {
                let ghost some = doc_search::hit_views(hits@);
                let ghost all = all_hits(given.take(k));
                if !add_hits(hits, max, &mut out.hits) {
                    out.truncated = true;
                }
                proof {
                    if all.len() <= max {
                        assert(doc_search::hit_views(before.hits@) == all);
                    } else {
                        assert(first_of(first_of(all, max as nat) + some, max as nat) =~= first_of(
                            all + some,
                            max as nat,
                        ));
                    }
                }
            },
            Err(pair) => {
                proof {
                    lemma_error_views_push(out.errors@, pair);
                }
                out.errors.push(pair);
            },
        }
    }
    assert(given.take(given.len() as int) =~= given);
    out
}

/// What a search gives of what it found in each document.
pub open spec fn is_gathered<R>(
    per_file: Seq<Result<Vec<DocHit<R>>, (String, String)>>,
    max: nat,
    r: DocSearchResult<R>,
) -> bool {
    &&& doc_search::hit_views(r.hits@) == first_of(all_hits(per_file), max)
    &&& r.truncated == (all_hits(per_file).len() > max)
    &&& error_views(r.errors@) == all_errors(per_file)
}

/// A document that was opened: its path, its path from the directory that is searched,
/// and what could be read of it or what went wrong in reading it.
#[derive(Debug)]
pub struct OpenedDoc<R> {
    pub path: String,
    pub rel: String,
    pub content: Result<DocContent<R>, String>,
}

/// The hits in some documents of known formats, one document behind the other.
pub open spec fn hits_in<R>(
    docs: Seq<OpenedDoc<R>>,
    formats: Seq<Seq<char>>,
    n: doc_search::NeedleText,
) -> Seq<doc_search::Hit<R>>
    decreases docs.len(),
{
    if docs.len() == 0 {
        Seq::empty()
    } else {
        let before = hits_in(docs.drop_last(), formats, n);
        let doc = docs.last();
        if doc_search::search_refusal(doc.content) is None {
            before + doc_search::hits_for(
                doc.path@,
                doc.rel@,
                formats[docs.len() - 1],
                doc_search::found_in(doc.content->Ok_0, n),
            )
        } else {
            before
        }
    }
}

/// The documents that cannot be searched, in order, each with the reason.
pub open spec fn refusals_in<R>(docs: Seq<OpenedDoc<R>>) -> Seq<(Seq<char>, Seq<char>)>
    decreases docs.len(),
{
    if docs.len() == 0 {
        Seq::empty()
    } else {
        let before = refusals_in(docs.drop_last());
        let doc = docs.last();
        match doc_search::search_refusal(doc.content) {
            Some(e) => before.push((doc.path@, e)),
            None => before,
        }
    }
}

/// `formats` can be the formats of some documents.
pub open spec fn are_formats_of<R>(docs: Seq<OpenedDoc<R>>, formats: Seq<Seq<char>>) -> bool {
    &&& formats.len() == docs.len()
    &&& forall|i: int|
        0 <= i < docs.len() ==> paths::is_ext_of(#[trigger] docs[i].path@, formats[i])
}

/// What a search of some documents gives.
pub open spec fn is_search_of<R>(
    docs: Seq<OpenedDoc<R>>,
    formats: Seq<Seq<char>>,
    query: Seq<char>,
    fold: bool,
    max: nat,
    r: DocSearchResult<R>,
) -> bool {
    if query.len() == 0 {
        r.hits@.len() == 0 && !r.truncated && r.errors@.len() == 0
    } else {
        let hits = hits_in(docs, formats, doc_search::needle_of(query, fold));
        &&& doc_search::hit_views(r.hits@) == first_of(hits, max)
        &&& r.truncated == (hits.len() > max)
        &&& error_views(r.errors@) == refusals_in(docs)
    }
}

/// The hits in some documents, or what went wrong with each.
fn search_each<R: Copy>(docs: Vec<OpenedDoc<R>>, formats: &Vec<String>, needle: &Needle) -> (r: Vec<
    Result<Vec<DocHit<R>>, (String, String)>,
>)
    requires
        formats@.len() == docs@.len(),
    ensures
        all_hits(r@) == hits_in(docs@, text::views(formats@), needle@),
        all_errors(r@) == refusals_in(docs@),
{
    let ghost given = docs@;
    let ghost texts = text::views(formats@);
    let mut r: Vec<Result<Vec<DocHit<R>>, (String, String)>> = Vec::new();
    let mut i: usize = 0;
    assert(given.take(0) =~= Seq::empty());
    for doc in it: docs.into_iter()
        invariant
            it.seq() == given,
            i == it.index(),
            formats@.len() == given.len(),
            texts == text::views(formats@),
            all_hits(r@) == hits_in(given.take(i as int), texts, needle@),
            all_errors(r@) == refusals_in(given.take(i as int)),
    {
        let ghost before = r@;
        proof {
            assert(given.take(i + 1).drop_last() =~= given.take(i as int));
            assert(given.take(i + 1).last() == doc);
            assert(texts[i as int] == formats@[i as int]@);
        }
        let ghost content = doc.content;
        let one: Result<Vec<DocHit<R>>, (String, String)> = match doc_search::search_format(
            doc.path.as_str(),
            doc.rel.as_str(),
            formats[i].as_str(),
            doc.content,
            needle,
        ) {
            Ok(hits) => Ok(hits),
            Err(e) => Err((doc.path, e)),
        };
        r.push(one);
        proof {
            assert(r@.drop_last() =~= before);
            assert(i < formats.len());
        }
        i += 1;
    }
    assert(given.take(given.len() as int) =~= given);
    r
}

/// The formats of some documents.
fn formats_of<R>(docs: &Vec<OpenedDoc<R>>) -> (formats: Vec<String>)
    ensures
        formats@.len() == docs@.len(),
        are_formats_of(docs@, text::views(formats@)),
{
    let mut formats: Vec<String> = Vec::new();
    let mut i: usize = 0;
    while i < docs.len()
        invariant
            i <= docs@.len(),
            formats@.len() == i,
            forall|k: int|
                0 <= k < i ==> paths::is_ext_of(#[trigger] docs@[k].path@, formats@[k]@),
        decreases docs@.len() - i,
    {
        formats.push(paths::ext_of(docs[i].path.as_str()));
        i += 1;
    }
    proof {
        let texts = text::views(formats@);
        assert forall|k: int| 0 <= k < docs@.len() implies paths::is_ext_of(
            #[trigger] docs@[k].path@,
            texts[k],
        ) by {
            assert(texts[k] == formats@[k]@);
        }
    }
    formats
}

/// What a search of documents of known formats gives, or how it is refused.
pub open spec fn is_answer<R>(
    docs: Seq<OpenedDoc<R>>,
    formats: Seq<Seq<char>>,
    query: Seq<char>,
    opts: DocSearchOpts,
    r: Result<DocSearchResult<R>, String>,
) -> bool {
    match r {
        Err(e) => text::is_set(opts.regex) && e@ == regex_refusal(),
        Ok(out) => !text::is_set(opts.regex) && is_search_of(
            docs,
            formats,
            query,
            text::is_set(opts.case_insensitive),
            result_limit(opts.max_results),
            out,
        ),
    }
}

/// Search documents of known formats for `query`.
pub fn search_all_formats<R: Copy>(
    query: &str,
    opts: &DocSearchOpts,
    docs: Vec<OpenedDoc<R>>,
    formats: &Vec<String>,
) -> (r: Result<DocSearchResult<R>, String>)
    requires
        formats@.len() == docs@.len(),
    ensures
        is_answer(docs@, text::views(formats@), query@, *opts, r),
{
    match search_plan(query, opts) {
        Err(e) => Err(e),
        Ok(None) => Ok(DocSearchResult::default()),
        Ok(Some(plan)) => Ok(gather_hits(search_each(docs, formats, &plan.needle), plan.max)),
    }
}

/// Search documents for `query`. The hits come in the order of the documents and, within
/// each, from its start to its end.
pub fn search_all<R: Copy>(query: &str, opts: &DocSearchOpts, docs: Vec<OpenedDoc<R>>) -> (r: Result<
    DocSearchResult<R>,
    String,
>)
    ensures
        exists|formats: Seq<Seq<char>>|
            are_formats_of(docs@, formats) && #[trigger] is_answer(
                docs@,
                formats,
                query@,
                *opts,
                r,
            ),
{
    let formats = formats_of(&docs);
    search_all_formats(query, opts, docs, &formats)
}

} // verus!
