//! What holds of searching and replacing in documents.

use crate::doc_collect;
use crate::doc_replace;
use crate::doc_search;
use crate::sort;
use crate::text;
use crate::utf8;
use vstd::prelude::*;
use vstd::utf8::*;

verus! {

// ── kinds ───────────────────────────────────────────────────────────────────────

/// The extension of a document decides how it is treated, whatever its bytes are; so it
/// is never left out as an opaque file, and there is an engine for it.
pub proof fn law_extension_decides(ext: Seq<char>, head: Seq<u8>)
    requires
        doc_search::kind_of_ext(ext) is Some,
    ensures
        Some(doc_search::kind_of(ext, head)) == doc_search::kind_of_ext(ext),
        doc_search::kind_of(ext, head) != doc_search::FileKind::Opaque,
        doc_search::engine_of(doc_search::kind_of(ext, head)) is Some,
{
}

// ── snippets ────────────────────────────────────────────────────────────────────

/// A snippet is a piece of the text, and no longer than the cap.
pub proof fn law_snippet_is_short(s: Seq<char>)
    ensures
        doc_search::snippet_of(s).len() <= doc_search::SNIPPET_CHARS,
        text::contains(s, doc_search::snippet_of(s)),
{
    let t = text::trim_start(s);
    let u = text::trim_end(t);
    let n = doc_search::snippet_of(s).len() as int;
    text::lemma_lead(s);
    text::lemma_trail(t);
    let k = text::lead(s) as int;
    assert(s.subrange(k, k + n) =~= doc_search::snippet_of(s));
    assert(text::occurs_at(s, doc_search::snippet_of(s), k));
}

/// The byte offset of a character.
spec fn offset(s: Seq<char>, i: int) -> int {
    encode_utf8(s.take(i)).len() as int
}

/// The offsets of a text and of what follows its first character.
proof fn lemma_offset_step(s: Seq<char>, i: int)
    requires
        0 < i <= s.len(),
    ensures
        offset(s, i) == encode_scalar(s[0] as u32).len() + offset(s.drop_first(), i - 1),
{
    assert(s.take(i)[0] == s[0]);
    assert(s.take(i).drop_first() =~= s.drop_first().take(i - 1));
}

/// The boundary before an offset behind the first character.
proof fn lemma_boundary_step(s: Seq<char>, n: int)
    requires
        s.len() > 0,
        encode_scalar(s[0] as u32).len() <= n <= encode_utf8(s).len(),
    ensures
        doc_search::boundary_before(encode_utf8(s), n) == encode_scalar(s[0] as u32).len()
            + doc_search::boundary_before(
            encode_utf8(s.drop_first()),
            n - encode_scalar(s[0] as u32).len(),
        ),
    decreases n,
{
    let bytes = encode_utf8(s);
    let rest = encode_utf8(s.drop_first());
    let w = encode_scalar(s[0] as u32).len() as int;
    encode_utf8_valid_utf8(s);
    encode_utf8_valid_utf8(s.drop_first());
    encode_utf8_first_scalar(s);
    assert(pop_first_scalar(bytes) =~= rest);
    assert(is_char_boundary(bytes, n) == is_char_boundary(rest, n - w));
    if !is_char_boundary(bytes, n) {
        assert(n > w);
        lemma_boundary_step(s, n - 1);
    }
}

/// There is no boundary within the first character.
proof fn lemma_boundary_first(s: Seq<char>, n: int)
    requires
        s.len() > 0,
        0 <= n < encode_scalar(s[0] as u32).len(),
    ensures
        doc_search::boundary_before(encode_utf8(s), n) == 0,
    decreases n,
{
    if n > 0 {
        let bytes = encode_utf8(s);
        let rest = encode_utf8(s.drop_first());
        encode_utf8_valid_utf8(s);
        encode_utf8_valid_utf8(s.drop_first());
        encode_utf8_first_scalar(s);
        assert(pop_first_scalar(bytes) =~= rest);
        assert(!is_char_boundary(rest, n - length_of_first_scalar(bytes)));
        assert(!is_char_boundary(bytes, n));
        lemma_boundary_first(s, n - 1);
    }
}

/// The boundary before an offset is the offset of the character that it falls in.
proof fn lemma_boundary_char(s: Seq<char>, n: int) -> (j: int)
    requires
        0 <= n <= encode_utf8(s).len(),
    ensures
        0 <= j <= s.len(),
        offset(s, j) == doc_search::boundary_before(encode_utf8(s), n),
        j < s.len() ==> n < offset(s, j + 1),
    decreases s.len(),
{
    assert(s.take(0) =~= Seq::<char>::empty());
    if s.len() == 0 {
        0
    } else {
        let w = encode_scalar(s[0] as u32).len() as int;
        if n < w {
            lemma_boundary_first(s, n);
            lemma_offset_step(s, 1);
            assert(s.drop_first().take(0) =~= Seq::<char>::empty());
            0
        } else {
            let j = lemma_boundary_char(s.drop_first(), n - w);
            lemma_boundary_step(s, n);
            lemma_offset_step(s, j + 1);
            if j + 1 < s.len() {
                lemma_offset_step(s, j + 2);
            }
            j + 1
        }
    }
}

/// The snippet of an offset starts at character `j` where that is the last to start at
/// most as many bytes before the offset as a snippet leads in with, or the first where
/// there is none.
pub proof fn lemma_snippet_start(s: Seq<char>, at: int, j: int)
    requires
        0 <= j <= s.len(),
        encode_utf8(s.take(j)).len() <= at - doc_search::SNIPPET_LEAD || j == 0,
        j < s.len() ==> at - doc_search::SNIPPET_LEAD < encode_utf8(s.take(j)).len()
            + encode_scalar(s[j] as u32).len(),
    ensures
        doc_search::snippet_start(s, at) == encode_utf8(s.take(j)).len(),
{
    let n = at - doc_search::SNIPPET_LEAD;
    assert(s.take(0) =~= Seq::<char>::empty());
    if n <= 0 {
        if j > 0 {
            lemma_offsets_apart(s, 0, j);
        }
    } else {
        let bytes = encode_utf8(s);
        assert(s.take(s.len() as int) =~= s);
        let i = if n <= bytes.len() {
            lemma_boundary_char(s, n)
        } else {
            lemma_boundary_end(s, n);
            s.len() as int
        };
        lemma_boundary_low(bytes, n);
        if i < j {
            lemma_offsets_apart(s, i + 1, j);
        }
        if j < s.len() {
            let a = s.take(j);
            assert(s.take(j + 1) =~= a + seq![s[j]]);
            utf8::lemma_encode_concat(a, seq![s[j]]);
            assert(seq![s[j]].drop_first() =~= Seq::<char>::empty());
            assert(encode_utf8(Seq::<char>::empty()) =~= Seq::<u8>::empty());
            assert(encode_utf8(seq![s[j]]) == encode_scalar(s[j] as u32) + encode_utf8(
                seq![s[j]].drop_first(),
            ));
            if j < i {
                lemma_offsets_apart(s, j + 1, i);
            }
        }
    }
}

/// There are at least as many bytes between two characters as there are characters.
proof fn lemma_offsets_apart(s: Seq<char>, i: int, j: int)
    requires
        0 <= i <= j <= s.len(),
    ensures
        offset(s, i) + (j - i) <= offset(s, j),
    decreases j - i,
{
    if i < j {
        lemma_offsets_apart(s, i, j - 1);
        let a = s.take(j - 1);
        assert(s.take(j) =~= a + seq![s[j - 1]]);
        utf8::lemma_encode_concat(a, seq![s[j - 1]]);
        assert(encode_utf8(seq![s[j - 1]]).len() > 0);
    }
}

/// The snippet around a stretch of text shows it: the stretch neither begins nor ends in
/// white space and is at most 300 characters long.
proof fn lemma_window(s: Seq<char>, i: int, m: int) -> (k: int)
    requires
        0 <= i < i + m <= s.len(),
        m <= 300,
        !text::is_white(s[i]),
        !text::is_white(s[i + m - 1]),
    ensures
        ({
            let shown = doc_search::snippet_near(s, offset(s, i));
            &&& 0 <= k <= shown.len() - m
            &&& shown.subrange(k, k + m) == s.subrange(i, i + m)
        }),
{
    let bytes = encode_utf8(s);
    let at = offset(s, i);
    let n = at - doc_search::SNIPPET_LEAD;
    assert(s.take(s.len() as int) =~= s);
    assert(s.take(0) =~= Seq::<char>::empty());
    lemma_offsets_apart(s, i, s.len() as int);
    let j = if n <= 0 {
        lemma_offsets_apart(s, 0, i);
        0
    } else {
        let j = lemma_boundary_char(s, n);
        if j > i {
            lemma_offsets_apart(s, i, j);
            lemma_boundary_low(bytes, n);
        }
        if j + 1 <= i {
            lemma_offsets_apart(s, j + 1, i);
        }
        j
    };
    assert(j <= i <= j + 100);
    let start = doc_search::snippet_start(s, at);
    assert(start == offset(s, j));
    utf8::lemma_slice(s, j, s.len() as int);
    let tail = utf8::slice_of(s, start, bytes.len() as int);
    assert(tail =~= s.skip(j));
    let lead = text::lead(tail) as int;
    text::lemma_lead(tail);
    assert(tail[i - j] == s[i]);
    assert(lead <= i - j);
    let t = text::trim_start(tail);
    text::lemma_trail(t);
    let last = i + m - 1 - j - lead;
    assert(t[last] == s[i + m - 1]);
    assert(t.len() - text::trail(t) > last);
    let shown = doc_search::snippet_near(s, at);
    let k = i - j - lead;
    assert(shown.subrange(k, k + m) =~= s.subrange(i, i + m));
    k
}

/// The boundary before an offset is not behind it.
proof fn lemma_boundary_low(bytes: Seq<u8>, n: int)
    ensures
        doc_search::boundary_before(bytes, n) <= n || n < 0,
    decreases n,
{
    if n > 0 && !is_char_boundary(bytes, n) {
        lemma_boundary_low(bytes, n - 1);
    }
}

/// White space stays white space in lower case, and nothing else becomes it.
proof fn lemma_lower_white(c: char)
    ensures
        text::is_white(text::ascii_lower_char(c)) == text::is_white(c),
        '\0' <= c <= '\u{7f}' ==> '\0' <= text::ascii_lower_char(c) <= '\u{7f}',
{
    char_is_scalar(c);
}

/// The snippet of a page shows what was found there: where case counts, or where the text
/// is ASCII. The query neither begins nor ends in white space and is at most 300
/// characters long.
pub proof fn law_snippet_shows_match(s: Seq<char>, n: doc_search::NeedleText)
    requires
        doc_search::is_match(n, s),
        n.fold ==> is_ascii_chars(s),
        0 < n.text.len() <= 300,
        !text::is_white(n.text[0]),
        !text::is_white(n.text.last()),
    ensures
        doc_search::match_offset(n, s) is Some,
        doc_search::is_match(n, doc_search::snippet_near(s, doc_search::match_offset(n, s)->0)),
{
    let h = doc_search::folded(s, n.fold);
    let m = n.text.len() as int;
    text::lemma_find(h, n.text);
    let i = text::find(h, n.text)->0;
    let at = doc_search::match_offset(n, s)->0;
    assert(h.subrange(i, i + m)[0] == n.text[0]);
    assert(h.subrange(i, i + m)[m - 1] == n.text[m - 1]);
    if n.fold {
        assert(h =~= text::ascii_lower(s));
        lemma_lower_white(s[i]);
        lemma_lower_white(s[i + m - 1]);
        assert(at == offset(s, i)) by {
            assert forall|k: int| 0 <= k < h.len() implies '\0' <= #[trigger] h[k] <= '\u{7f}' by {
                assert(h[k] == text::ascii_lower_char(s[k]));
                assert('\0' <= s[k] <= '\u{7f}');
                lemma_lower_white(s[k]);
            }
            assert(is_ascii_chars(h.take(i)));
            assert(is_ascii_chars(s.take(i)));
            is_ascii_chars_encode_utf8(h.take(i));
            is_ascii_chars_encode_utf8(s.take(i));
        }
    }
    let k = lemma_window(s, i, m);
    let shown = doc_search::snippet_near(s, at);
    let shown_h = doc_search::folded(shown, n.fold);
    if n.fold {
        law_near_is_piece(s, at);
        assert(is_ascii_chars(shown)) by {
            let q = choose|q: int| text::occurs_at(s, shown, q);
            assert forall|x: int| 0 <= x < shown.len() implies '\0' <= #[trigger] shown[x]
                <= '\u{7f}' by {
                assert(shown[x] == s.subrange(q, q + shown.len())[x]);
                assert(s[q + x] == shown[x]);
            }
        }
        assert(shown_h =~= text::ascii_lower(shown));
        assert forall|x: int| 0 <= x < m implies shown_h.subrange(k, k + m)[x] == n.text[x] by {
            assert(shown.subrange(k, k + m)[x] == s.subrange(i, i + m)[x]);
            assert(h.subrange(i, i + m)[x] == n.text[x]);
        }
        assert(shown_h.subrange(k, k + m) =~= n.text);
    }
    assert(text::occurs_at(shown_h, n.text, k));
}

/// The snippet around an offset is a piece of the text, wherever the offset lies.
pub proof fn law_near_is_piece(s: Seq<char>, at: int)
    ensures
        text::contains(s, doc_search::snippet_near(s, at)),
        doc_search::snippet_near(s, at).len() <= doc_search::SNIPPET_CHARS,
{
    let bytes = encode_utf8(s);
    let n = at - doc_search::SNIPPET_LEAD;
    assert(s.take(s.len() as int) =~= s);
    assert(s.take(0) =~= Seq::<char>::empty());
    let j = if n <= 0 {
        0
    } else if n <= bytes.len() {
        lemma_boundary_char(s, n)
    } else {
        lemma_boundary_end(s, n);
        s.len() as int
    };
    let start = doc_search::snippet_start(s, at);
    assert(start == offset(s, j));
    utf8::lemma_slice(s, j, s.len() as int);
    let tail = utf8::slice_of(s, start, bytes.len() as int);
    assert(tail =~= s.skip(j));
    law_snippet_is_short(tail);
    let shown = doc_search::snippet_near(s, at);
    let k = choose|k: int| text::occurs_at(tail, shown, k);
    assert(s.subrange(j + k, j + k + shown.len()) =~= tail.subrange(k, k + shown.len()));
    assert(text::occurs_at(s, shown, j + k));
}

/// The boundary before an offset behind the end is the end.
proof fn lemma_boundary_end(s: Seq<char>, n: int)
    requires
        n >= encode_utf8(s).len(),
    ensures
        doc_search::boundary_before(encode_utf8(s), n) == encode_utf8(s).len(),
    decreases n,
{
    let bytes = encode_utf8(s);
    encode_utf8_valid_utf8(s);
    is_char_boundary_start_end_of_seq(bytes);
    if n > bytes.len() {
        lemma_boundary_end(s, n - 1);
    }
}

// ── matching ────────────────────────────────────────────────────────────────────

/// In ASCII text, what is found where case counts is found where it does not.
pub proof fn law_folding_finds_no_less(hay: Seq<char>, query: Seq<char>)
    requires
        is_ascii_chars(hay),
        doc_search::is_match(doc_search::needle_of(query, false), hay),
    ensures
        doc_search::is_match(doc_search::needle_of(query, true), hay),
{
    let i = choose|i: int| text::occurs_at(hay, query, i);
    assert(is_ascii_chars(query)) by {
        assert forall|k: int| 0 <= k < query.len() implies '\0' <= #[trigger] query[k]
            <= '\u{7f}' by {
            assert(hay.subrange(i, i + query.len())[k] == query[k]);
            assert('\0' <= hay[i + k] <= '\u{7f}');
        }
    }
    let h = text::ascii_lower(hay);
    let q = text::ascii_lower(query);
    assert(h.subrange(i, i + q.len()) =~= q) by {
        assert forall|k: int| 0 <= k < q.len() implies h.subrange(i, i + q.len())[k] == q[k] by {
            assert(hay.subrange(i, i + query.len())[k] == query[k]);
        }
    }
    assert(text::occurs_at(h, q, i));
}

/// Places on pages only add to hits: whether a page has one, and what it shows, does not
/// depend on them.
pub proof fn law_places_suppress_no_hit<R>(
    page: doc_search::PdfPage,
    some: Seq<(u32, R)>,
    other: Seq<(u32, R)>,
    n: doc_search::NeedleText,
)
    ensures
        match (
            doc_search::found_on_page(page, some, n),
            doc_search::found_on_page(page, other, n),
        ) {
            (Some(a), Some(b)) => a.text == b.text,
            (None, None) => true,
            _ => false,
        },
{
}

/// A page has a hit exactly where its text could be extracted and holds the query.
pub proof fn law_page_hit_means_match<R>(
    page: doc_search::PdfPage,
    rects: Seq<(u32, R)>,
    n: doc_search::NeedleText,
)
    ensures
        doc_search::found_on_page(page, rects, n) is Some <==> page.text is Some
            && doc_search::is_match(n, page.text->0@),
{
    if page.text is Some {
        text::lemma_find(doc_search::folded(page.text->0@, n.fold), n.text);
    }
}

// ── many documents ──────────────────────────────────────────────────────────────

/// Documents do not influence each other: the hits and the errors of some documents and
/// then some more are those of the ones and then those of the others. So a document that
/// cannot be read costs no hit elsewhere.
pub proof fn law_documents_are_independent<R>(
    a: Seq<doc_collect::OpenedDoc<R>>,
    b: Seq<doc_collect::OpenedDoc<R>>,
    formats_a: Seq<Seq<char>>,
    formats_b: Seq<Seq<char>>,
    n: doc_search::NeedleText,
)
    requires
        formats_a.len() == a.len(),
        formats_b.len() == b.len(),
    ensures
        doc_collect::hits_in(a + b, formats_a + formats_b, n) == doc_collect::hits_in(
            a,
            formats_a,
            n,
        ) + doc_collect::hits_in(b, formats_b, n),
        doc_collect::refusals_in(a + b) == doc_collect::refusals_in(a) + doc_collect::refusals_in(
            b,
        ),
    decreases b.len(),
{
    if b.len() == 0 {
        assert(a + b =~= a);
        assert(formats_a + formats_b =~= formats_a);
        assert(doc_collect::hits_in(a, formats_a, n) + Seq::<doc_search::Hit<R>>::empty()
            =~= doc_collect::hits_in(a, formats_a, n));
        assert(doc_collect::refusals_in(a) + Seq::<(Seq<char>, Seq<char>)>::empty()
            =~= doc_collect::refusals_in(a));
    } else {
        let t = b.drop_last();
        let ft = formats_b.drop_last();
        law_documents_are_independent(a, t, formats_a, ft, n);
        assert((a + b).drop_last() =~= a + t);
        lemma_hits_formats(a + t, formats_a + formats_b, formats_a + ft, n);
        lemma_hits_formats(t, formats_b, ft, n);
        let doc = b.last();
        let format = formats_b[b.len() - 1];
        assert((formats_a + formats_b)[(a + b).len() - 1] == format);
        let before = doc_collect::hits_in(a, formats_a, n);
        let more = doc_collect::hits_in(t, ft, n);
        if doc_search::search_refusal(doc.content) is None {
            let own = doc_search::hits_for(
                doc.path@,
                doc.rel@,
                format,
                doc_search::found_in(doc.content->Ok_0, n),
            );
            assert(before + more + own =~= before + (more + own));
        } else {
            let e = (doc.path@, doc_search::search_refusal(doc.content)->0);
            let x = doc_collect::refusals_in(a);
            let y = doc_collect::refusals_in(t);
            assert((x + y).push(e) =~= x + y.push(e));
        }
    }
}

/// The hits of some documents depend on their own formats alone.
proof fn lemma_hits_formats<R>(
    docs: Seq<doc_collect::OpenedDoc<R>>,
    f: Seq<Seq<char>>,
    g: Seq<Seq<char>>,
    n: doc_search::NeedleText,
)
    requires
        forall|i: int| 0 <= i < docs.len() ==> f[i] == g[i],
    ensures
        doc_collect::hits_in(docs, f, n) == doc_collect::hits_in(docs, g, n),
    decreases docs.len(),
{
    if docs.len() > 0 {
        lemma_hits_formats(docs.drop_last(), f, g, n);
    }
}

/// `p` lists each place below its length once.
pub open spec fn is_permutation(p: Seq<int>) -> bool {
    &&& forall|i: int| 0 <= i < p.len() ==> 0 <= #[trigger] p[i] < p.len()
    &&& forall|i: int, j: int| 0 <= i < j < p.len() ==> #[trigger] p[i] != #[trigger] p[j]
    &&& forall|x: int| 0 <= x < p.len() ==> #[trigger] p.contains(x)
}

/// No two files have the same path.
pub open spec fn paths_differ(files: Seq<doc_collect::Candidate>) -> bool {
    forall|i: int, j: int|
        0 <= i < j < files.len() ==> (#[trigger] files[i])@ != (#[trigger] files[j])@
}

/// The documents come out in one order, whatever order the files were found in.
pub proof fn law_collection_is_settled(
    files: Seq<doc_collect::Candidate>,
    exts: Seq<Seq<char>>,
    formats: Option<Seq<Seq<char>>>,
    p: Seq<int>,
)
    requires
        exts.len() == files.len(),
        p.len() == files.len(),
        files.len() <= usize::MAX,
        is_permutation(p),
        paths_differ(files),
    ensures
        doc_collect::documents_of(
            p.map_values(|i: int| files[i]),
            p.map_values(|i: int| exts[i]),
            formats,
        ) == doc_collect::documents_of(files, exts, formats),
{
    let n = files.len() as int;
    let shuffled = p.map_values(|i: int| files[i]);
    let shuffled_exts = p.map_values(|i: int| exts[i]);
    let order = sort::order_of(shuffled);
    sort::law_order_exists(shuffled);
    let back = Seq::new(order.len(), |k: int| p[order[k] as int] as usize);
    assert forall|k: int| 0 <= k < back.len() implies 0 <= #[trigger] back[k] < n && back[k] as int
        == p[order[k] as int] by {
        assert(0 <= order[k] < n);
        assert(0 <= p[order[k] as int] < p.len());
    }
    assert(sort::is_order(files, back, 0, n)) by {
        assert forall|x: usize| 0 <= x < n implies #[trigger] back.contains(x) by {
            assert(p.contains(x as int));
            let i = choose|i: int| 0 <= i < p.len() && p[i] == x as int;
            assert(order.contains(i as usize));
            let k = choose|k: int| 0 <= k < order.len() && order[k] == i as usize;
            assert(back[k] == x);
        }
        assert forall|i: int, j: int| 0 <= i < j < back.len() implies sort::earlier(
            files,
            #[trigger] back[i] as int,
            #[trigger] back[j] as int,
        ) by {
            let a = order[i] as int;
            let b = order[j] as int;
            assert(0 <= order[i] < n && 0 <= order[j] < n);
            assert(sort::earlier(shuffled, a, b));
            assert(shuffled[a] == files[p[a]] && shuffled[b] == files[p[b]]);
            if a == b {
                lemma_not_earlier(shuffled, a);
            }
            assert(p[a] != p[b]);
            if p[a] < p[b] {
                assert(files[p[a]]@ != files[p[b]]@);
            } else {
                assert(files[p[b]]@ != files[p[a]]@);
            }
        }
    }
    sort::law_one_order(files, back);
    lemma_documents_shuffled(files, exts, formats, p, order, back);
}

/// No file comes before itself.
proof fn lemma_not_earlier(files: Seq<doc_collect::Candidate>, a: int)
    ensures
        !sort::earlier(files, a, a),
{
    <doc_collect::Candidate as sort::Ranked>::precedes_is_strict(files[a]@);
}

/// The same files in the same order give the same documents.
proof fn lemma_documents_shuffled(
    files: Seq<doc_collect::Candidate>,
    exts: Seq<Seq<char>>,
    formats: Option<Seq<Seq<char>>>,
    p: Seq<int>,
    order: Seq<usize>,
    back: Seq<usize>,
)
    requires
        p.len() == files.len(),
        exts.len() == files.len(),
        back.len() == order.len(),
        forall|k: int|
            0 <= k < order.len() ==> 0 <= #[trigger] order[k] < p.len() && back[k] as int
                == p[order[k] as int] && 0 <= back[k] < files.len(),
    ensures
        doc_collect::documents_in(
            p.map_values(|i: int| files[i]),
            p.map_values(|i: int| exts[i]),
            formats,
            order,
        ) == doc_collect::documents_in(files, exts, formats, back),
    decreases order.len(),
{
    if order.len() > 0 {
        let o = order.drop_last();
        let b = back.drop_last();
        assert forall|k: int| 0 <= k < o.len() implies 0 <= #[trigger] o[k] < p.len() && b[k] as int
            == p[o[k] as int] && 0 <= b[k] < files.len() by {
            assert(o[k] == order[k]);
        }
        lemma_documents_shuffled(files, exts, formats, p, o, b);
        assert(0 <= order[order.len() - 1] < p.len());
    }
}

// ── replacing ───────────────────────────────────────────────────────────────────

/// A look never puts anything in the place of a document.
pub proof fn law_look_keeps_documents(
    run: Result<doc_replace::ReplaceOutcome, String>,
    out_exists: bool,
)
    ensures
        !doc_replace::is_kept(run, out_exists, false),
{
}

/// A look counts what a replacement that is kept counts.
pub proof fn law_look_counts_alike(
    source: doc_replace::DocSource,
    run: Result<doc_replace::ReplaceOutcome, String>,
    out_exists: bool,
)
    requires
        doc_replace::is_kept(run, out_exists, true),
    ensures
        doc_replace::discarded(source, run, out_exists) == doc_replace::renamed_end(
            source,
            run->Ok_0,
            Ok(()),
        ),
{
}

/// A row without a replacement is only there for a document that holds the text.
pub proof fn law_silent_only_without_match(
    source: doc_replace::DocSource,
    outcome: doc_replace::ReplaceOutcome,
    out_exists: bool,
)
    requires
        outcome.matched_but_unreplaced,
    ensures
        doc_replace::discarded(source, Ok(outcome), out_exists) is Ok,
        doc_replace::discarded(source, Ok(outcome), out_exists)->Ok_0 is Some,
{
}

/// A page counts as changed only where its text changed: none is counted exactly where
/// all pages read as before, and no more are counted than there are.
pub proof fn law_pages_are_counted(pages: Seq<doc_replace::PageEdit>)
    ensures
        doc_replace::changed_pages(pages) <= pages.len(),
        doc_replace::changed_pages(pages) == 0 <==> forall|i: int|
            0 <= i < pages.len() ==> !doc_replace::page_changed(#[trigger] pages[i]),
    decreases pages.len(),
{
    if pages.len() > 0 {
        let t = pages.drop_last();
        law_pages_are_counted(t);
        assert(forall|i: int| 0 <= i < t.len() ==> t[i] == #[trigger] pages[i]);
        if doc_replace::changed_pages(t) == 0 && !doc_replace::page_changed(pages.last()) {
            assert forall|i: int| 0 <= i < pages.len() implies !doc_replace::page_changed(
                #[trigger] pages[i],
            ) by {
                if i < t.len() {
                    assert(!doc_replace::page_changed(t[i]));
                }
            }
        }
        if doc_replace::changed_pages(t) > 0 {
            let i = choose|i: int| 0 <= i < t.len() && doc_replace::page_changed(#[trigger] t[i]);
            assert(doc_replace::page_changed(pages[i]));
        } else if doc_replace::page_changed(pages.last()) {
            assert(doc_replace::page_changed(pages[pages.len() - 1]));
        }
    }
}

/// Documents count as changed exactly where something was replaced, and no more are
/// counted than there are rows.
pub proof fn law_files_and_total(rows: Seq<doc_replace::Row>)
    ensures
        doc_replace::files_of(rows) <= rows.len(),
        doc_replace::files_of(rows) <= doc_replace::total_of(rows),
        doc_replace::files_of(rows) == 0 <==> doc_replace::total_of(rows) == 0,
    decreases rows.len(),
{
    if rows.len() > 0 {
        law_files_and_total(rows.drop_last());
    }
}

/// The temporary file is never the document itself.
pub proof fn law_temp_is_another_file(name: Seq<char>, pid: u32)
    ensures
        doc_replace::temp_name_of(name, pid) != name,
{
    reveal_strlit(".tmp");
    assert(".tmp"@.len() == 4);
    assert(doc_replace::temp_name_of(name, pid).len() >= name.len() + 4);
}

/// Documents of different names, or processes, have different temporary files.
pub proof fn law_temp_files_differ(name_a: Seq<char>, pid_a: u32, name_b: Seq<char>, pid_b: u32)
    requires
        doc_replace::temp_name_of(name_a, pid_a) == doc_replace::temp_name_of(name_b, pid_b),
    ensures
        name_a == name_b,
        pid_a == pid_b,
{
    let head = ".zmax-doc-"@;
    let tail = ".tmp"@;
    let h = head.len() as int;
    let da = text::decimal(pid_a as nat);
    let db = text::decimal(pid_b as nat);
    let a = doc_replace::temp_name_of(name_a, pid_a);
    let b = doc_replace::temp_name_of(name_b, pid_b);
    text::lemma_decimal(pid_a as nat);
    text::lemma_decimal(pid_b as nat);
    let (x, y) = (da.len() as int, db.len() as int);
    assert(a[h + x] == '-');
    assert(b[h + y] == '-');
    if x < y {
        assert(b[h + x] == db[x]);
        assert(text::is_digit(db[x]));
    }
    if y < x {
        assert(a[h + y] == da[y]);
        assert(text::is_digit(da[y]));
    }
    assert(da =~= a.subrange(h, h + x));
    assert(db =~= b.subrange(h, h + y));
    let n = a.len() - tail.len();
    assert(name_a =~= a.subrange(h + x + 1, n));
    assert(name_b =~= b.subrange(h + y + 1, n));
}

} // verus!
