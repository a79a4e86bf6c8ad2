//! Text as sequences of characters: white space, trimming, searching, splitting,
//! joining and decimal numbers.

use vstd::prelude::*;
use vstd::string::StringExecFns;
use vstd::utf8::*;

verus! {

/// `String::push` appends one character to the end of the string.
pub assume_specification[ String::push ](s: &mut String, c: char)
    ensures
        final(s)@ == old(s)@.push(c),
;

// ── characters ──────────────────────────────────────────────────────────────────

/// The characters with the Unicode `White_Space` property.
pub open spec fn is_white(c: char) -> bool {
    ||| '\u{9}' <= c <= '\u{d}'
    ||| c == ' '
    ||| c == '\u{85}'
    ||| c == '\u{a0}'
    ||| c == '\u{1680}'
    ||| '\u{2000}' <= c <= '\u{200a}'
    ||| c == '\u{2028}'
    ||| c == '\u{2029}'
    ||| c == '\u{202f}'
    ||| c == '\u{205f}'
    ||| c == '\u{3000}'
}

/// Whether `c` is white space.
pub fn is_whitespace(c: char) -> (b: bool)
    ensures
        b == is_white(c),
{
    ('\u{9}' <= c && c <= '\u{d}') || c == ' ' || c == '\u{85}' || c == '\u{a0}' || c == '\u{1680}'
        || ('\u{2000}' <= c && c <= '\u{200a}') || c == '\u{2028}' || c == '\u{2029}' || c
        == '\u{202f}' || c == '\u{205f}' || c == '\u{3000}'
}

/// The control characters: the C0 set, delete and the C1 set.
pub open spec fn is_ctrl(c: char) -> bool {
    c <= '\u{1f}' || '\u{7f}' <= c <= '\u{9f}'
}

/// Whether `c` is a control character.
pub fn is_control(c: char) -> (b: bool)
    ensures
        b == is_ctrl(c),
{
    c <= '\u{1f}' || ('\u{7f}' <= c && c <= '\u{9f}')
}

/// `c` with an ASCII capital replaced by its small letter.
pub open spec fn ascii_lower_char(c: char) -> char {
    if 'A' <= c <= 'Z' {
        (c as u8 + 32) as u8 as char
    } else {
        c
    }
}

/// `s` with every ASCII capital replaced by its small letter.
pub open spec fn ascii_lower(s: Seq<char>) -> Seq<char> {
    s.map_values(|c: char| ascii_lower_char(c))
}

/// What `str::to_lowercase` makes of a text with characters beyond ASCII.
pub uninterp spec fn unicode_lower(s: Seq<char>) -> Seq<char>;

/// `s` in lower case, letter by letter within ASCII and by the Unicode rules beyond.
pub open spec fn lower(s: Seq<char>) -> Seq<char> {
    if is_ascii_chars(s) {
        ascii_lower(s)
    } else {
        unicode_lower(s)
    }
}

/// `str::to_lowercase`: ASCII text is lowered letter by letter; for other text the
/// Unicode mapping decides, and it is the same for the same text.
pub assume_specification[ str::to_lowercase ](s: &str) -> (r: String)
    ensures
        r@ == (if is_ascii_chars(s@) {
            ascii_lower(s@)
        } else {
            unicode_lower(s@)
        }),
;

/// `c` with an ASCII capital replaced by its small letter.
pub fn lower_ascii_char(c: char) -> (r: char)
    ensures
        r == ascii_lower_char(c),
{
    if 'A' <= c && c <= 'Z' {
        (c as u8 + 32) as char
    } else {
        c
    }
}

// ── strings and character vectors ───────────────────────────────────────────────

/// The characters of `s`, in order.
pub fn to_chars(s: &str) -> (v: Vec<char>)
    ensures
        v@ == s@,
{
    let mut v: Vec<char> = Vec::new();
    for c in it: s.chars()
        invariant
            it.seq() == s@,
            v@ == s@.take(it.index() as int),
    {
        v.push(c);
        assert(s@.take(it.index() + 1) == s@.take(it.index() as int).push(c));
    }
    assert(s@.take(s@.len() as int) == s@);
    v
}

/// The characters of `v` from `from` up to `to`, as a string.
pub fn substring(v: &Vec<char>, from: usize, to: usize) -> (s: String)
    requires
        from <= to <= v@.len(),
    ensures
        s@ == v@.subrange(from as int, to as int),
{
    let mut s = String::new();
    let mut i: usize = from;
    while i < to
        invariant
            from <= i <= to <= v@.len(),
            s@ == v@.subrange(from as int, i as int),
        decreases to - i,
    {
        s.push(v[i]);
        i += 1;
        assert(v@.subrange(from as int, i as int) == v@.subrange(from as int, i - 1).push(v@[i - 1]));
    }
    s
}

/// The text of an optional string.
pub open spec fn opt_view(s: Option<String>) -> Option<Seq<char>> {
    match s {
        Some(s) => Some(s@),
        None => None,
    }
}

/// The text of a result, whichever it is.
pub open spec fn result_view(r: Result<String, String>) -> Result<Seq<char>, Seq<char>> {
    match r {
        Ok(s) => Ok(s@),
        Err(e) => Err(e@),
    }
}

/// An option that is set.
pub open spec fn is_set(option: Option<bool>) -> bool {
    option == Some(true)
}

/// Two strings with the same UTF-8 bytes hold the same characters.
pub proof fn lemma_bytes_determine_chars(a: Seq<char>, b: Seq<char>)
    requires
        encode_utf8(a) == encode_utf8(b),
    ensures
        a == b,
{
    encode_utf8_decode_utf8(a);
    encode_utf8_decode_utf8(b);
}

/// Whether two strings hold the same characters.
pub fn same_text(a: &str, b: &str) -> (r: bool)
    ensures
        r == (a@ == b@),
{
    let x: &[u8] = a.as_bytes();
    let y: &[u8] = b.as_bytes();
    if x.len() != y.len() {
        return false;
    }
    let mut i: usize = 0;
    while i < x.len()
        invariant
            x@ == encode_utf8(a@),
            y@ == encode_utf8(b@),
            x@.len() == y@.len(),
            i <= x@.len(),
            forall|j: int| 0 <= j < i ==> x@[j] == y@[j],
        decreases x@.len() - i,
    {
        if x[i] != y[i] {
            return false;
        }
        i += 1;
    }
    proof {
        assert(x@ == y@);
        lemma_bytes_determine_chars(a@, b@);
    }
    true
}

/// Two texts that differ at most in the case of ASCII letters.
pub open spec fn same_but_ascii_case(a: Seq<char>, b: Seq<char>) -> bool {
    ascii_lower(a) == ascii_lower(b)
}

/// Whether two strings differ at most in the case of ASCII letters.
pub fn same_ignoring_ascii_case(a: &str, b: &str) -> (r: bool)
    ensures
        r == same_but_ascii_case(a@, b@),
{
    let x = to_chars(a);
    let y = to_chars(b);
    if x.len() != y.len() {
        assert(ascii_lower(a@).len() != ascii_lower(b@).len());
        return false;
    }
    let mut i: usize = 0;
    while i < x.len()
        invariant
            x@ == a@,
            y@ == b@,
            x@.len() == y@.len(),
            i <= x@.len(),
            forall|j: int| 0 <= j < i ==> ascii_lower_char(a@[j]) == ascii_lower_char(b@[j]),
        decreases x@.len() - i,
    {
        if lower_ascii_char(x[i]) != lower_ascii_char(y[i]) {
            assert(ascii_lower(a@)[i as int] != ascii_lower(b@)[i as int]);
            return false;
        }
        i += 1;
    }
    assert(ascii_lower(a@) =~= ascii_lower(b@));
    true
}

// ── trimming ────────────────────────────────────────────────────────────────────

/// How many white characters `s` begins with.
pub open spec fn lead(s: Seq<char>) -> nat
    decreases s.len(),
{
    if s.len() > 0 && is_white(s[0]) {
        1 + lead(s.drop_first())
    } else {
        0
    }
}

/// How many white characters `s` ends with.
pub open spec fn trail(s: Seq<char>) -> nat
    decreases s.len(),
{
    if s.len() > 0 && is_white(s.last()) {
        1 + trail(s.drop_last())
    } else {
        0
    }
}

/// `s` without the white space it begins with.
pub open spec fn trim_start(s: Seq<char>) -> Seq<char> {
    s.skip(lead(s) as int)
}

/// `s` without the white space it ends with.
pub open spec fn trim_end(s: Seq<char>) -> Seq<char> {
    s.take(s.len() - trail(s))
}

/// `s` without the white space at either end.
pub open spec fn trim(s: Seq<char>) -> Seq<char> {
    trim_end(trim_start(s))
}

/// The leading white space ends at the first character that is not white.
pub proof fn lemma_lead(s: Seq<char>)
    ensures
        lead(s) <= s.len(),
        forall|i: int| 0 <= i < lead(s) ==> is_white(#[trigger] s[i]),
        lead(s) < s.len() ==> !is_white(s[lead(s) as int]),
    decreases s.len(),
{
    if s.len() > 0 && is_white(s[0]) {
        let t = s.drop_first();
        lemma_lead(t);
        assert forall|i: int| 0 <= i < lead(s) implies is_white(#[trigger] s[i]) by {
            if i > 0 {
                assert(s[i] == t[i - 1]);
            }
        }
    }
}

/// A count of white characters that ends at one that is not white is the lead.
pub proof fn lemma_lead_is(s: Seq<char>, n: int)
    requires
        0 <= n <= s.len(),
        forall|i: int| 0 <= i < n ==> is_white(#[trigger] s[i]),
        n < s.len() ==> !is_white(s[n]),
    ensures
        lead(s) == n,
{
    lemma_lead(s);
}

/// The trailing white space starts behind the last character that is not white.
pub proof fn lemma_trail(s: Seq<char>)
    ensures
        trail(s) <= s.len(),
        forall|i: int| s.len() - trail(s) <= i < s.len() ==> is_white(#[trigger] s[i]),
        trail(s) < s.len() ==> !is_white(s[s.len() - trail(s) - 1]),
    decreases s.len(),
{
    if s.len() > 0 && is_white(s.last()) {
        let t = s.drop_last();
        lemma_trail(t);
        assert forall|i: int| s.len() - trail(s) <= i < s.len() implies is_white(#[trigger] s[i]) by {
            if i < s.len() - 1 {
                assert(s[i] == t[i]);
            }
        }
        if trail(s) < s.len() {
            assert(s[s.len() - trail(s) - 1] == t[t.len() - trail(t) - 1]);
        }
    }
}

/// A count of white characters from the end that stops at one that is not white is the
/// trail.
pub proof fn lemma_trail_is(s: Seq<char>, n: int)
    requires
        0 <= n <= s.len(),
        forall|i: int| s.len() - n <= i < s.len() ==> is_white(#[trigger] s[i]),
        n < s.len() ==> !is_white(s[s.len() - n - 1]),
    ensures
        trail(s) == n,
{
    lemma_trail(s);
}

/// Where the text of `v` between `from` and `to` starts once its leading white space
/// is left out.
pub fn skip_white(v: &Vec<char>, from: usize, to: usize) -> (r: usize)
    requires
        from <= to <= v@.len(),
    ensures
        r == from + lead(v@.subrange(from as int, to as int)),
        from <= r <= to,
        v@.subrange(r as int, to as int) == trim_start(v@.subrange(from as int, to as int)),
{
    let ghost s = v@.subrange(from as int, to as int);
    let mut r: usize = from;
    while r < to && is_whitespace(v[r])
        invariant
            from <= r <= to <= v@.len(),
            s == v@.subrange(from as int, to as int),
            forall|i: int| 0 <= i < r - from ==> is_white(#[trigger] s[i]),
        decreases to - r,
    {
        r += 1;
    }
    proof {
        lemma_lead_is(s, r - from);
    }
    r
}

/// Where the text of `v` between `from` and `to` ends once its trailing white space is
/// left out.
pub fn drop_white(v: &Vec<char>, from: usize, to: usize) -> (r: usize)
    requires
        from <= to <= v@.len(),
    ensures
        r == to - trail(v@.subrange(from as int, to as int)),
        from <= r <= to,
        v@.subrange(from as int, r as int) == trim_end(v@.subrange(from as int, to as int)),
{
    let ghost s = v@.subrange(from as int, to as int);
    let mut r: usize = to;
    while r > from && is_whitespace(v[r - 1])
        invariant
            from <= r <= to <= v@.len(),
            s == v@.subrange(from as int, to as int),
            forall|i: int| r - from <= i < s.len() ==> is_white(#[trigger] s[i]),
        decreases r,
    {
        r -= 1;
    }
    proof {
        lemma_trail_is(s, to - r);
    }
    r
}

/// `s` without the white space at either end.
pub fn trimmed(s: &str) -> (r: String)
    ensures
        r@ == trim(s@),
{
    let v = to_chars(s);
    let from: usize = skip_white(&v, 0, v.len());
    let to: usize = drop_white(&v, from, v.len());
    proof {
        assert(v@.subrange(0, v@.len() as int) == s@);
    }
    substring(&v, from, to)
}

/// `s` without one carriage return at its end.
pub open spec fn strip_cr(s: Seq<char>) -> Seq<char> {
    if s.len() > 0 && s.last() == '\r' {
        s.drop_last()
    } else {
        s
    }
}

/// `line` without one carriage return at its end.
pub fn without_cr(line: &str) -> (r: String)
    ensures
        r@ == strip_cr(line@),
{
    let v = to_chars(line);
    let n: usize = v.len();
    if n > 0 && v[n - 1] == '\r' {
        assert(v@.subrange(0, n - 1) == line@.drop_last());
        substring(&v, 0, n - 1)
    } else {
        assert(v@.subrange(0, n as int) == line@);
        substring(&v, 0, n)
    }
}

/// The first characters of a text, at most `n`.
pub open spec fn first_chars(s: Seq<char>, n: int) -> Seq<char> {
    if s.len() <= n {
        s
    } else {
        s.take(n)
    }
}

/// The first characters of `s`, at most `n`.
pub fn beginning(s: &str, n: usize) -> (r: String)
    ensures
        r@ == first_chars(s@, n as int),
{
    let v = to_chars(s);
    let to: usize = if v.len() <= n {
        v.len()
    } else {
        n
    };
    let r = substring(&v, 0, to);
    assert(s@.subrange(0, to as int) == first_chars(s@, n as int));
    r
}

// ── searching ───────────────────────────────────────────────────────────────────

/// `needle` stands in `hay` at position `i`.
pub open spec fn occurs_at(hay: Seq<char>, needle: Seq<char>, i: int) -> bool {
    &&& 0 <= i <= hay.len() - needle.len()
    &&& hay.subrange(i, i + needle.len()) == needle
}

/// `needle` stands somewhere in `hay`.
pub open spec fn contains(hay: Seq<char>, needle: Seq<char>) -> bool {
    exists|i: int| occurs_at(hay, needle, i)
}

/// The first position at or behind `from` where `needle` stands in `hay`.
pub open spec fn find_from(hay: Seq<char>, needle: Seq<char>, from: int) -> Option<int>
    decreases hay.len() - from + 1,
{
    if from > hay.len() - needle.len() {
        None
    } else if occurs_at(hay, needle, from) {
        Some(from)
    } else {
        find_from(hay, needle, from + 1)
    }
}

/// The first position where `needle` stands in `hay`.
pub open spec fn find(hay: Seq<char>, needle: Seq<char>) -> Option<int> {
    find_from(hay, needle, 0)
}

/// `find_from` gives the least position, and gives one whenever there is one.
pub proof fn lemma_find_from(hay: Seq<char>, needle: Seq<char>, from: int)
    requires
        0 <= from,
    ensures
        match find_from(hay, needle, from) {
            Some(i) => from <= i && occurs_at(hay, needle, i) && forall|j: int|
                from <= j < i ==> !occurs_at(hay, needle, j),
            None => forall|j: int| from <= j ==> !occurs_at(hay, needle, j),
        },
    decreases hay.len() - from + 1,
{
    if from > hay.len() - needle.len() {
    } else if occurs_at(hay, needle, from) {
    } else {
        lemma_find_from(hay, needle, from + 1);
    }
}

/// `find` gives the first occurrence, and fails only where there is none.
pub proof fn lemma_find(hay: Seq<char>, needle: Seq<char>)
    ensures
        match find(hay, needle) {
            Some(i) => occurs_at(hay, needle, i) && contains(hay, needle) && forall|j: int|
                0 <= j < i ==> !occurs_at(hay, needle, j),
            None => !contains(hay, needle),
        },
{
    lemma_find_from(hay, needle, 0);
}

/// A position where the needle stands, before which it does not, is what `find` gives.
pub proof fn lemma_find_is(hay: Seq<char>, needle: Seq<char>, i: int)
    requires
        occurs_at(hay, needle, i),
        forall|j: int| 0 <= j < i ==> !occurs_at(hay, needle, j),
    ensures
        find(hay, needle) == Some(i),
{
    lemma_find(hay, needle);
}

/// Whether `needle` stands in `hay` at position `at`.
pub fn matches_at(hay: &Vec<char>, needle: &Vec<char>, at: usize) -> (r: bool)
    ensures
        r == occurs_at(hay@, needle@, at as int),
{
    if needle.len() > hay.len() || at > hay.len() - needle.len() {
        return false;
    }
    let mut k: usize = 0;
    while k < needle.len()
        invariant
            at <= hay.len() - needle.len(),
            k <= needle@.len(),
            forall|j: int| 0 <= j < k ==> hay@[at + j] == needle@[j],
        decreases needle@.len() - k,
    {
        if hay[at + k] != needle[k] {
            proof {
                let w = hay@.subrange(at as int, at + needle@.len());
                assert(w[k as int] != needle@[k as int]);
            }
            return false;
        }
        k += 1;
    }
    assert(hay@.subrange(at as int, at + needle@.len()) == needle@);
    true
}

/// The first position of `needle` in `hay`.
pub fn find_chars(hay: &Vec<char>, needle: &Vec<char>) -> (r: Option<usize>)
    ensures
        match r {
            Some(i) => find(hay@, needle@) == Some(i as int),
            None => find(hay@, needle@) is None,
        },
{
    if needle.len() > hay.len() {
        return None;
    }
    let last: usize = hay.len() - needle.len();
    let mut i: usize = 0;
    loop
        invariant
            last == hay@.len() - needle@.len(),
            i <= last,
            find(hay@, needle@) == find_from(hay@, needle@, i as int),
        decreases last - i,
    {
        if matches_at(hay, needle, i) {
            return Some(i);
        }
        if i == last {
            assert(find_from(hay@, needle@, last + 1) is None);
            return None;
        }
        i += 1;
    }
}

/// Whether `needle` stands in `hay`.
pub fn has_text(hay: &str, needle: &str) -> (r: bool)
    ensures
        r == contains(hay@, needle@),
{
    proof {
        lemma_find(hay@, needle@);
    }
    find_chars(&to_chars(hay), &to_chars(needle)).is_some()
}

/// Whether `hay` begins with `needle`.
pub open spec fn starts_with(hay: Seq<char>, needle: Seq<char>) -> bool {
    occurs_at(hay, needle, 0)
}

// ── splitting and joining ───────────────────────────────────────────────────────

/// The texts of a list of strings.
pub open spec fn views(v: Seq<String>) -> Seq<Seq<char>> {
    v.map_values(|s: String| s@)
}

/// The pieces of `s` between the separators: one more than there are separators.
pub open spec fn split(s: Seq<char>, sep: char) -> Seq<Seq<char>>
    decreases s.len(),
{
    if s.len() == 0 {
        seq![Seq::<char>::empty()]
    } else {
        let before = split(s.drop_last(), sep);
        if s.last() == sep {
            before.push(Seq::empty())
        } else {
            before.drop_last().push(before.last().push(s.last()))
        }
    }
}

/// The pieces put together again, with `sep` between each two.
pub open spec fn join(pieces: Seq<Seq<char>>, sep: Seq<char>) -> Seq<char>
    decreases pieces.len(),
{
    if pieces.len() == 0 {
        Seq::empty()
    } else if pieces.len() == 1 {
        pieces[0]
    } else {
        join(pieces.drop_last(), sep) + sep + pieces.last()
    }
}

/// There is always a piece, and no piece holds the separator.
pub proof fn lemma_split_pieces(s: Seq<char>, sep: char)
    ensures
        split(s, sep).len() >= 1,
        forall|i: int, k: int|
            0 <= i < split(s, sep).len() && 0 <= k < split(s, sep)[i].len() ==> (
            #[trigger] split(s, sep)[i][k]) != sep,
    decreases s.len(),
{
    if s.len() > 0 {
        lemma_split_pieces(s.drop_last(), sep);
    }
}

/// Joining the pieces with the separator gives the text back.
pub proof fn lemma_join_split(s: Seq<char>, sep: char)
    ensures
        join(split(s, sep), seq![sep]) == s,
    decreases s.len(),
{
    if s.len() > 0 {
        let before = split(s.drop_last(), sep);
        lemma_split_pieces(s.drop_last(), sep);
        lemma_join_split(s.drop_last(), sep);
        if s.last() == sep {
            assert(split(s, sep).drop_last() == before);
            assert(join(split(s, sep), seq![sep]) == s.drop_last() + seq![sep] + Seq::<char>::empty());
            assert(s.drop_last() + seq![sep] + Seq::<char>::empty() == s);
        } else {
            let after = split(s, sep);
            assert(after.drop_last() == before.drop_last());
            assert(s.drop_last().push(s.last()) == s);
            if before.len() == 1 {
                assert(join(before, seq![sep]) == before[0]);
            } else {
                let head = join(before.drop_last(), seq![sep]) + seq![sep];
                assert(join(after, seq![sep]) == head + before.last().push(s.last()));
                assert(head + before.last().push(s.last()) == (head + before.last()).push(s.last()));
            }
        }
    }
}

/// Joining no text but the pieces of one more entry puts it at the end.
pub proof fn lemma_join_push(pieces: Seq<Seq<char>>, sep: Seq<char>, last: Seq<char>)
    requires
        pieces.len() > 0,
    ensures
        join(pieces.push(last), sep) == join(pieces, sep) + sep + last,
{
    assert(pieces.push(last).drop_last() == pieces);
}

/// A text without the separator is one piece, and one more piece behind a separator is
/// one more piece.
pub proof fn lemma_split_append(a: Seq<char>, b: Seq<char>, sep: char)
    requires
        !b.contains(sep),
    ensures
        split(a + seq![sep] + b, sep) == split(a, sep).push(b),
    decreases b.len(),
{
    let s = a + seq![sep] + b;
    if b.len() == 0 {
        assert(s.drop_last() == a);
        assert(s.last() == sep);
        assert(b == Seq::<char>::empty());
    } else {
        let t = b.drop_last();
        assert(!t.contains(sep)) by {
            if t.contains(sep) {
                let i = choose|i: int| 0 <= i < t.len() && t[i] == sep;
                assert(b[i] == sep);
            }
        }
        lemma_split_append(a, t, sep);
        assert(s.drop_last() == a + seq![sep] + t);
        assert(s.last() == b.last());
        assert(b.last() != sep) by {
            if b.last() == sep {
                assert(b[b.len() - 1] == sep);
            }
        }
        let before = split(a, sep).push(t);
        assert(before.drop_last() == split(a, sep));
        assert(t.push(b.last()) == b);
    }
}

/// A text without the separator is its only piece.
pub proof fn lemma_split_one(b: Seq<char>, sep: char)
    requires
        !b.contains(sep),
    ensures
        split(b, sep) == seq![b],
    decreases b.len(),
{
    if b.len() == 0 {
        assert(b == Seq::<char>::empty());
    } else {
        let t = b.drop_last();
        assert(!t.contains(sep)) by {
            if t.contains(sep) {
                let i = choose|i: int| 0 <= i < t.len() && t[i] == sep;
                assert(b[i] == sep);
            }
        }
        lemma_split_one(t, sep);
        assert(b.last() != sep) by {
            if b.last() == sep {
                assert(b[b.len() - 1] == sep);
            }
        }
        assert(seq![t].drop_last() == Seq::<Seq<char>>::empty());
        assert(t.push(b.last()) == b);
        assert(Seq::<Seq<char>>::empty().push(b) == seq![b]);
    }
}

/// Pieces without the separator come back when the text they are joined to is split.
pub proof fn lemma_split_join(pieces: Seq<Seq<char>>, sep: char)
    requires
        pieces.len() > 0,
        forall|i: int| 0 <= i < pieces.len() ==> !(#[trigger] pieces[i]).contains(sep),
    ensures
        split(join(pieces, seq![sep]), sep) == pieces,
    decreases pieces.len(),
{
    if pieces.len() == 1 {
        lemma_split_one(pieces[0], sep);
        assert(pieces == seq![pieces[0]]);
    } else {
        let t = pieces.drop_last();
        assert forall|i: int| 0 <= i < t.len() implies !(#[trigger] t[i]).contains(sep) by {
            assert(t[i] == pieces[i]);
        }
        lemma_split_join(t, sep);
        lemma_split_append(join(t, seq![sep]), pieces.last(), sep);
        assert(t.push(pieces.last()) == pieces);
    }
}

/// The pieces of `s` between the separators.
pub fn split_text(s: &str, sep: char) -> (pieces: Vec<String>)
    ensures
        views(pieces@) == split(s@, sep),
{
    let chars = to_chars(s);
    let mut pieces: Vec<String> = Vec::new();
    let mut cur = String::new();
    let mut i: usize = 0;
    assert(s@.take(0) == Seq::<char>::empty());
    assert(views(pieces@).push(cur@) == seq![Seq::<char>::empty()]);
    while i < chars.len()
        invariant
            chars@ == s@,
            i <= chars@.len(),
            views(pieces@).push(cur@) == split(s@.take(i as int), sep),
        decreases chars@.len() - i,
    {
        let ghost before = views(pieces@);
        let ghost line = cur@;
        let c: char = chars[i];
        proof {
            let t = s@.take(i + 1);
            assert(t.drop_last() == s@.take(i as int));
            assert(t.last() == c);
            assert(before.push(line).drop_last() == before);
            assert(before.push(line).last() == line);
        }
        if c == sep {
            pieces.push(cur);
            cur = String::new();
            assert(views(pieces@) == before.push(line));
        } else {
            cur.push(c);
        }
        i += 1;
    }
    let ghost before = views(pieces@);
    let ghost line = cur@;
    pieces.push(cur);
    proof {
        assert(s@.take(s@.len() as int) == s@);
        assert(views(pieces@) == before.push(line));
    }
    pieces
}

/// The strings put together, with `sep` between each two.
pub fn join_text(pieces: &[String], sep: &str) -> (s: String)
    ensures
        s@ == join(views(pieces@), sep@),
{
    let mut s = String::new();
    let mut i: usize = 0;
    while i < pieces.len()
        invariant
            i <= pieces@.len(),
            s@ == join(views(pieces@).take(i as int), sep@),
        decreases pieces@.len() - i,
    {
        let ghost before = views(pieces@).take(i as int);
        proof {
            assert(views(pieces@).take(i + 1) == before.push(pieces@[i as int]@));
            if i > 0 {
                lemma_join_push(before, sep@, pieces@[i as int]@);
            }
        }
        if i > 0 {
            s.append(sep);
        }
        s.append(pieces[i].as_str());
        i += 1;
    }
    assert(views(pieces@).take(pieces@.len() as int) == views(pieces@));
    s
}

/// A list of strings that holds `s` behind the others.
pub proof fn lemma_views_push(v: Seq<String>, s: String)
    ensures
        views(v.push(s)) == views(v).push(s@),
{
    assert(views(v.push(s)) =~= views(v).push(s@));
}

// ── numbers ─────────────────────────────────────────────────────────────────────

/// The character of a decimal digit.
pub open spec fn digit(d: int) -> char {
    (48 + d) as u8 as char
}

/// A natural number in decimal.
pub open spec fn decimal(n: nat) -> Seq<char>
    decreases n,
{
    if n < 10 {
        seq![digit(n as int)]
    } else {
        decimal(n / 10).push(digit((n % 10) as int))
    }
}

/// A number in decimal.
pub fn decimal_text(n: u64) -> (s: String)
    ensures
        s@ == decimal(n as nat),
    decreases n,
{
    let mut s = if n < 10 {
        String::new()
    } else {
        decimal_text(n / 10)
    };
    let d: u8 = 48 + (n % 10) as u8;
    s.push(d as char);
    s
}

/// A number in decimal, with leading zeros up to `width` characters; the sign of a
/// negative one counts as a character and stands first.
pub open spec fn padded(n: int, width: nat) -> Seq<char> {
    if n < 0 {
        let d = decimal((-n) as nat);
        seq!['-'] + zeros(width - 1 - d.len()) + d
    } else {
        let d = decimal(n as nat);
        zeros(width - d.len()) + d
    }
}

/// `n` zeros, or none.
pub open spec fn zeros(n: int) -> Seq<char> {
    Seq::new(if n > 0 { n as nat } else { 0 }, |i: int| '0')
}

/// A number in decimal, padded with zeros.
pub fn padded_text(n: i64, width: usize) -> (s: String)
    ensures
        s@ == padded(n as int, width as nat),
{
    let mut s = String::new();
    let mut room: usize = width;
    let m: u64 = if n < 0 {
        s.push('-');
        room = room.saturating_sub(1);
        if n == i64::MIN {
            0x8000_0000_0000_0000
        } else {
            (-n) as u64
        }
    } else {
        n as u64
    };
    let d = decimal_text(m);
    let len: usize = d.as_str().unicode_len();
    let ghost sign = s@;
    let mut k: usize = len;
    assert(zeros(0) == Seq::<char>::empty());
    while k < room
        invariant
            len <= k,
            k <= room || k == len,
            s@ == sign + zeros(k - len),
        decreases room - k,
    {
        s.push('0');
        k += 1;
        assert(zeros(k - len) == zeros(k - 1 - len).push('0'));
    }
    assert(zeros(room - len) == zeros(k - len));
    s.append(d.as_str());
    proof {
        if n < 0 {
            assert(sign == seq!['-']);
        } else {
            assert(sign + zeros(k - len) == zeros(k - len));
        }
    }
    s
}

/// A decimal digit.
pub open spec fn is_digit(c: char) -> bool {
    '0' <= c <= '9'
}

/// Nothing but decimal digits, and at least one.
pub open spec fn is_number(s: Seq<char>) -> bool {
    s.len() > 0 && forall|i: int| 0 <= i < s.len() ==> is_digit(#[trigger] s[i])
}

/// The number that decimal digits stand for.
pub open spec fn number(s: Seq<char>) -> nat
    decreases s.len(),
{
    if s.len() == 0 {
        0
    } else {
        number(s.drop_last()) * 10 + (s.last() as u32 - 48) as nat
    }
}

/// A number in decimal is digits, and stands for that number.
pub proof fn lemma_decimal(n: nat)
    ensures
        is_number(decimal(n)),
        number(decimal(n)) == n,
    decreases n,
{
    let d = decimal(n);
    if n < 10 {
        lemma_digit(n as int);
        assert(d.drop_last() == Seq::<char>::empty());
        assert(number(Seq::<char>::empty()) == 0);
    } else {
        lemma_decimal(n / 10);
        lemma_digit((n % 10) as int);
        assert(d.drop_last() == decimal(n / 10));
        assert forall|i: int| 0 <= i < d.len() implies is_digit(#[trigger] d[i]) by {
            if i < d.len() - 1 {
                assert(d[i] == decimal(n / 10)[i]);
            }
        }
    }
}

/// The character of a digit.
proof fn lemma_digit(d: int)
    requires
        0 <= d < 10,
    ensures
        is_digit(digit(d)),
        digit(d) as u32 == 48 + d,
{
}

/// The number that decimal digits with an optional sign stand for, or nothing where the
/// text is no such number.
pub open spec fn signed_number(s: Seq<char>) -> Option<int> {
    if s.len() > 0 && (s[0] == '-' || s[0] == '+') {
        let digits = s.skip(1);
        if !is_number(digits) {
            None
        } else if s[0] == '-' {
            Some(-(number(digits) as int))
        } else {
            Some(number(digits) as int)
        }
    } else if is_number(s) {
        Some(number(s) as int)
    } else {
        None
    }
}

/// The number that a text stands for, or nothing where it is none or out of range.
pub open spec fn i64_of(s: Seq<char>) -> Option<int> {
    match signed_number(s) {
        Some(n) => if i64::MIN <= n <= i64::MAX {
            Some(n)
        } else {
            None
        },
        None => None,
    }
}

/// More digits make no smaller number.
proof fn lemma_number_grows(s: Seq<char>, k: int)
    requires
        0 <= k <= s.len(),
    ensures
        number(s.take(k)) <= number(s),
    decreases s.len(),
{
    if k < s.len() {
        lemma_number_grows(s.drop_last(), k);
        assert(s.drop_last().take(k) == s.take(k));
    } else {
        assert(s.take(k) == s);
    }
}

/// The number of the digits of `v` from `from` on, if it is at most `max`.
fn parse_digits(v: &Vec<char>, from: usize, max: u64) -> (r: Option<u64>)
    requires
        from <= v@.len(),
        max <= 0x8000_0000_0000_0000,
    ensures
        ({
            let digits = v@.skip(from as int);
            match r {
                Some(n) => is_number(digits) && n == number(digits) && n <= max,
                None => !(is_number(digits) && number(digits) <= max),
            }
        }),
{
    let ghost digits = v@.skip(from as int);
    if from == v.len() {
        return None;
    }
    let mut n: u64 = 0;
    let mut i: usize = from;
    assert(digits.take(0) == Seq::<char>::empty());
    while i < v.len()
        invariant
            from <= i <= v@.len(),
            from < v@.len(),
            max <= 0x8000_0000_0000_0000,
            digits == v@.skip(from as int),
            n == number(digits.take(i - from)),
            n <= max,
            forall|j: int| 0 <= j < i - from ==> is_digit(#[trigger] digits[j]),
        decreases v@.len() - i,
    {
        let c: char = v[i];
        assert(c == digits[i - from]);
        if !('0' <= c && c <= '9') {
            return None;
        }
        let d: u64 = (c as u32 - 48) as u64;
        proof {
            let k = i - from;
            assert(digits.take(k + 1).drop_last() == digits.take(k));
            assert(digits.take(k + 1).last() == c);
            assert(number(digits.take(k + 1)) == n * 10 + d);
            lemma_number_grows(digits, k + 1);
        }
        if n > 922_337_203_685_477_580 || n * 10 + d > max {
            return None;
        }
        n = n * 10 + d;
        i += 1;
    }
    assert(digits.take(digits.len() as int) == digits);
    Some(n)
}

/// The number that a text stands for, or nothing where it is none or out of range.
pub fn parse_i64(s: &str) -> (r: Option<i64>)
    ensures
        match r {
            Some(n) => i64_of(s@) == Some(n as int),
            None => i64_of(s@) is None,
        },
{
    let v = to_chars(s);
    if v.len() == 0 {
        return None;
    }
    if v[0] == '-' {
        match parse_digits(&v, 1, 0x8000_0000_0000_0000) {
            Some(n) => {
                if n == 0x8000_0000_0000_0000 {
                    Some(i64::MIN)
                } else {
                    Some(-(n as i64))
                }
            },
            None => None,
        }
    } else {
        let from: usize = if v[0] == '+' {
            1
        } else {
            0
        };
        proof {
            assert(v@.skip(0) == v@);
        }
        match parse_digits(&v, from, 0x7fff_ffff_ffff_ffff) {
            Some(n) => Some(n as i64),
            None => None,
        }
    }
}

} // verus!
